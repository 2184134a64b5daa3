//! The verified core of a desktop monitor for GPUs, CPU, memory, disks and
//! network interfaces.
//!
//! The program around it reads the system (display adapters, performance
//! counters, NVML, the process table) and hands plain values to this library,
//! which decides what is shown: which counter instances belong to which
//! adapter, how adapters group into cards, which processes hold GPU memory,
//! which disks and interfaces are listed and in what order, and when NVML is
//! initialized again.
pub mod text;
pub mod instance;
pub mod snapshot;
pub mod order;
pub mod disk;
pub mod processes;
pub mod adapters;
pub mod gpus;
pub mod monitor;

pub use adapters::{adapters, group_adapters, AdapterDesc, AdapterGroup, AdapterInfo};
pub use disk::{natural_cmp, DiskQuery, DiskRow};
pub use gpus::{collect_all, collect_nvml_gpus, GpuInfo, NvmlReading};
pub use instance::parse_instance;
pub use monitor::{max_frequency, order_networks, NetSample, Poller, Tick};
pub use processes::{collect_processes, nvml_processes, GpuProcess, NvmlProcess};
pub use snapshot::{CounterValue, GpuProcessQuery, GpuSnapshot, LuidMem};
