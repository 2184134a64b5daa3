# vram_monitor

A desktop widget that shows GPU memory, utilization and temperature per card,
plus CPU, memory, disk and network activity, refreshed once a second.

`src/` is the verified library (Verus). It decides everything that is shown
from plain values that the program reads from the system:

- `instance` — counter instance names `pid_<pid>_luid_0x<hi>_0x<lo>_...`;
- `snapshot` — GPU memory per adapter and process, utilization per adapter,
  and the sampling state of the GPU counters;
- `adapters` — which display adapters are GPUs, and how they form cards
  (same name and vendor), NVIDIA first;
- `gpus` — one entry per card (or per NVML device), combining counters and
  NVML readings;
- `processes` — per-process memory sums, names and order;
- `disk` — physical disks, their natural order (`2 C:` before `10 D:`) and the
  sampling state of the disk counters;
- `monitor` — CPU frequency, network interfaces, and when NVML is initialized
  again;
- `text`, `order` — character-level text operations and sorting.

`app/` is the program: Tauri window, performance counters and DXGI on
Windows, NVML and sysinfo. It converts what it reads into the library's
types and the library's results into the serialized payload.
