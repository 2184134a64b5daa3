use vram_monitor::adapters::MICROSOFT_VENDOR_ID;
use vram_monitor::adapters::NVIDIA_VENDOR_ID;
use vram_monitor::processes::sum_by_pid;
use vram_monitor::{
    adapters, collect_all, collect_nvml_gpus, collect_processes, group_adapters, nvml_processes,
    AdapterDesc, AdapterInfo, CounterValue, GpuInfo, GpuProcess, GpuProcessQuery, GpuSnapshot,
    LuidMem, NvmlProcess, NvmlReading,
};

fn cv(instance: &str, value: u64) -> CounterValue {
    CounterValue { instance: instance.to_string(), value }
}

fn ad(luid: (u32, u32), name: &str, vendor: u32, dedicated: u64) -> AdapterInfo {
    AdapterInfo { luid, name: name.to_string(), vendor_id: vendor, dedicated_bytes: dedicated }
}

fn procs(list: &[GpuProcess]) -> Vec<(u32, String, u64)> {
    list.iter().map(|p| (p.pid, p.name.clone(), p.used_bytes)).collect()
}

fn mem_tuples(mem: &[LuidMem]) -> Vec<((u32, u32), u64, Vec<(u32, u64)>)> {
    mem.iter()
        .map(|m| {
            let mut by_pid = m.by_pid.clone();
            by_pid.sort();
            (m.luid, m.total_bytes, by_pid)
        })
        .collect()
}

fn reading(name: Option<&str>, memory: Option<(u64, u64)>, temp: Option<u32>, util: Option<u32>) -> NvmlReading {
    NvmlReading {
        name: name.map(|s| s.to_string()),
        memory,
        temperature: temp,
        utilization: util,
        compute: None,
        graphics: None,
    }
}

#[test]
fn snapshot_sums_memory_per_adapter_and_process() {
    let mut q = GpuProcessQuery::new();
    let mem = vec![
        cv("pid_10_luid_0x00000000_0x00000200_phys_0", 100),
        cv("pid_11_luid_0x00000000_0x00000100_phys_0", 5),
        cv("pid_10_luid_0x00000000_0x00000200_phys_0", 50),
        cv("pid_12_luid_0x00000000_0x00000200_phys_0", 7),
        cv("pid_0_luid_0x00000000_0x00000200_phys_0", 1000),
        cv("pid_13_luid_0x00000000_0x00000200_phys_0", 0),
        cv("pid_14_phys_0", 99),
        cv("garbage", 99),
    ];
    let snap = q.read(true, Some(mem), None).unwrap();
    assert_eq!(
        mem_tuples(&snap.mem),
        vec![((0, 0x100), 5, vec![(11, 5)]), ((0, 0x200), 157, vec![(10, 150), (12, 7)])]
    );
    // each adapter's total is the sum of its processes
    for m in &snap.mem {
        assert_eq!(m.total_bytes, m.by_pid.iter().map(|e| e.1).sum::<u64>());
    }
    // utilization needs a second sample
    assert!(snap.util.is_empty());
}

#[test]
fn snapshot_orders_adapters_by_luid() {
    let mut q = GpuProcessQuery::new();
    let mem = vec![
        cv("pid_1_luid_0x00000002_0x00000001_phys_0", 1),
        cv("pid_1_luid_0x00000001_0x00000009_phys_0", 1),
        cv("pid_1_luid_0x00000001_0x00000003_phys_0", 1),
    ];
    let snap = q.read(true, Some(mem), None).unwrap();
    let luids: Vec<_> = snap.mem.iter().map(|m| m.luid).collect();
    assert_eq!(luids, vec![(1, 3), (1, 9), (2, 1)]);
}

#[test]
fn snapshot_memory_stops_at_u64_max() {
    let mut q = GpuProcessQuery::new();
    let mem = vec![
        cv("pid_1_luid_0x0_0x1", u64::MAX - 1),
        cv("pid_1_luid_0x0_0x1", 5),
        cv("pid_2_luid_0x0_0x1", 5),
    ];
    let snap = q.read(true, Some(mem), None).unwrap();
    assert_eq!(mem_tuples(&snap.mem), vec![((0, 1), u64::MAX, vec![(1, u64::MAX), (2, 5)])]);
}

#[test]
fn utilization_is_busiest_engine_from_second_sample() {
    let mut q = GpuProcessQuery::new();
    let util = vec![
        cv("pid_10_luid_0x0_0x1_phys_0_eng_0_engtype_3D", 30),
        cv("pid_11_luid_0x0_0x1_phys_0_eng_1_engtype_Copy", 55),
        cv("pid_0_luid_0x0_0x2_phys_0_eng_0_engtype_3D", 0),
        cv("pid_12_phys_0_eng_0", 99),
    ];
    let first = q.read(true, Some(vec![]), None).unwrap();
    assert!(first.util.is_empty());
    let second = q.read(true, Some(vec![]), Some(util)).unwrap();
    assert_eq!(second.util, vec![((0, 1), 55), ((0, 2), 0)]);
}

#[test]
fn snapshot_fails_without_counters() {
    let mut q = GpuProcessQuery::new();
    assert!(q.read(false, Some(vec![]), Some(vec![])).is_none());
    assert!(q.read(true, None, Some(vec![])).is_none());
    // second successful collection: utilization is now required
    assert!(q.read(true, Some(vec![]), None).is_none());
    assert!(q.read(true, Some(vec![]), Some(vec![])).is_some());
}

#[test]
fn processes_are_sorted_by_memory_and_named() {
    let by_pid = vec![(10, 3 << 20), (11, 0), (12, 5 << 20), (13, 3 << 20)];
    let names = vec![(10, "game.exe".to_string()), (12, "blender.exe".to_string()), (10, "dup".to_string())];
    let list = collect_processes(&by_pid, &names);
    assert_eq!(
        procs(&list),
        vec![
            (12, "blender.exe".to_string(), 5 << 20),
            (10, "game.exe".to_string(), 3 << 20),
            (13, "PID 13".to_string(), 3 << 20),
        ]
    );
}

#[test]
fn nvml_processes_sum_known_memory() {
    let compute = Some(vec![
        NvmlProcess { pid: 1, used: Some(100) },
        NvmlProcess { pid: 2, used: None },
    ]);
    let graphics = Some(vec![
        NvmlProcess { pid: 1, used: Some(20) },
        NvmlProcess { pid: 3, used: Some(0) },
    ]);
    let mut r = nvml_processes(&compute, &graphics);
    r.sort();
    assert_eq!(r, vec![(1, 120), (3, 0)]);
    assert!(nvml_processes(&None, &None).is_empty());
}

#[test]
fn sum_by_pid_keeps_the_total() {
    let entries = vec![(1, 10), (2, 5), (1, 7), (3, 0)];
    let mut r = sum_by_pid(&entries);
    r.sort();
    assert_eq!(r, vec![(1, 17), (2, 5), (3, 0)]);
    let total: u64 = r.iter().map(|e| e.1).sum();
    assert_eq!(total, 22);
}

#[test]
fn adapters_skip_the_software_renderer() {
    let found = vec![
        AdapterDesc { luid_high: 0, luid_low: 0x1234, description: "NVIDIA GeForce RTX 4090\0\0\0".to_string(), vendor_id: NVIDIA_VENDOR_ID, dedicated_bytes: 24 << 30 },
        AdapterDesc { luid_high: 0, luid_low: 0x99, description: "Microsoft Basic Render Driver".to_string(), vendor_id: MICROSOFT_VENDOR_ID, dedicated_bytes: 0 },
        AdapterDesc { luid_high: -1, luid_low: 7, description: "Intel(R) UHD\0x\0".to_string(), vendor_id: 0x8086, dedicated_bytes: 128 << 20 },
    ];
    let list = adapters(found);
    let got: Vec<_> = list.iter().map(|a| (a.luid, a.name.clone(), a.vendor_id, a.dedicated_bytes)).collect();
    assert_eq!(
        got,
        vec![
            ((0, 0x1234), "NVIDIA GeForce RTX 4090".to_string(), NVIDIA_VENDOR_ID, 24 << 30),
            ((u32::MAX, 7), "Intel(R) UHD\0x".to_string(), 0x8086, 128 << 20),
        ]
    );
    assert!(adapters(Vec::new()).is_empty());
}

#[test]
fn adapters_group_by_name_and_vendor_nvidia_first() {
    let ads = vec![
        ad((0, 1), "Intel UHD", 0x8086, 128),
        ad((0, 2), "NVIDIA RTX", NVIDIA_VENDOR_ID, 1000),
        ad((0, 3), "Intel UHD", 0x8086, 256),
        ad((0, 4), "AMD Radeon", 0x1002, 512),
        ad((0, 5), "Intel UHD", 0x1002, 64),
    ];
    let groups = group_adapters(&ads);
    let got: Vec<_> = groups
        .iter()
        .map(|g| (g.name.clone(), g.vendor_id, g.dedicated_bytes, g.luids.clone()))
        .collect();
    assert_eq!(
        got,
        vec![
            ("NVIDIA RTX".to_string(), NVIDIA_VENDOR_ID, 1000, vec![(0, 2)]),
            ("Intel UHD".to_string(), 0x8086, 256, vec![(0, 1), (0, 3)]),
            ("AMD Radeon".to_string(), 0x1002, 512, vec![(0, 4)]),
            ("Intel UHD".to_string(), 0x1002, 64, vec![(0, 5)]),
        ]
    );
    // one group per card, and every adapter is listed in the group of its card
    for (i, a) in groups.iter().enumerate() {
        for (j, b) in groups.iter().enumerate() {
            assert!(i == j || !(a.name == b.name && a.vendor_id == b.vendor_id));
        }
    }
    for a in &ads {
        let g = groups.iter().find(|g| g.name == a.name && g.vendor_id == a.vendor_id).unwrap();
        assert!(g.luids.contains(&a.luid));
    }
}

fn gpu_tuple(g: &GpuInfo) -> (u32, String, u64, u64, u32, Option<u32>) {
    (g.index, g.name.clone(), g.used_bytes, g.total_bytes, g.gpu_util, g.temp)
}

#[test]
fn collect_all_combines_counters_and_nvml() {
    let ads = vec![
        ad((0, 1), "Intel UHD", 0x8086, 128),
        ad((0, 2), "NVIDIA GeForce RTX 4090", NVIDIA_VENDOR_ID, 24 << 30),
        ad((0, 3), "Intel UHD", 0x8086, 256),
    ];
    let snap = GpuSnapshot {
        mem: vec![
            LuidMem { luid: (0, 1), total_bytes: 10, by_pid: vec![(7, 4), (8, 6)] },
            LuidMem { luid: (0, 2), total_bytes: 1 << 30, by_pid: vec![(9, 1 << 30)] },
            LuidMem { luid: (0, 3), total_bytes: 5, by_pid: vec![(7, 5)] },
        ],
        util: vec![((0, 1), 12), ((0, 2), 97), ((0, 3), 40)],
    };
    let nvml = vec![
        None,
        Some(reading(Some("  nvidia geforce rtx 4090 "), Some((3 << 30, 24 << 30)), Some(61), Some(90))),
    ];
    let names = vec![(7, "dwm.exe".to_string()), (9, "game.exe".to_string())];
    let gpus = collect_all(&ads, &Some(snap), &nvml, &names);
    let got: Vec<_> = gpus.iter().map(gpu_tuple).collect();
    assert_eq!(
        got,
        vec![
            (0, "NVIDIA GeForce RTX 4090".to_string(), 3 << 30, 24 << 30, 97, Some(61)),
            (1, "Intel UHD".to_string(), 15, 256, 40, None),
        ]
    );
    assert_eq!(procs(&gpus[0].processes), vec![(9, "game.exe".to_string(), 1 << 30)]);
    assert_eq!(
        procs(&gpus[1].processes),
        vec![(7, "dwm.exe".to_string(), 9), (8, "PID 8".to_string(), 6)]
    );
    // a card's counted memory is the memory of its processes
    let process_total: u64 = gpus[1].processes.iter().map(|p| p.used_bytes).sum();
    assert_eq!(process_total, gpus[1].used_bytes);
}

#[test]
fn collect_all_without_counters_or_nvml() {
    let ads = vec![ad((0, 2), "NVIDIA RTX", NVIDIA_VENDOR_ID, 8 << 30)];
    let gpus = collect_all(&ads, &None, &vec![Some(reading(Some("Other"), Some((1, 2)), Some(50), None))], &vec![]);
    let got: Vec<_> = gpus.iter().map(gpu_tuple).collect();
    assert_eq!(got, vec![(0, "NVIDIA RTX".to_string(), 0, 8 << 30, 0, None)]);
    assert!(gpus[0].processes.is_empty());
}

#[test]
fn nvml_match_takes_the_last_device_of_a_name() {
    let ads = vec![ad((0, 2), "RTX", NVIDIA_VENDOR_ID, 8)];
    let nvml = vec![
        Some(reading(Some("RTX"), Some((1, 2)), Some(40), None)),
        Some(reading(Some("rtx"), None, Some(41), None)),
    ];
    let gpus = collect_all(&ads, &None, &nvml, &vec![]);
    // the last device matches; it has no memory reading, so the counters stay
    assert_eq!(gpu_tuple(&gpus[0]), (0, "RTX".to_string(), 0, 8, 0, Some(41)));
}

#[test]
fn nvml_gpus_skip_devices_without_memory() {
    let mut with_procs = reading(None, Some((100, 200)), None, None);
    with_procs.compute = Some(vec![NvmlProcess { pid: 4, used: Some(3) }, NvmlProcess { pid: 5, used: None }]);
    with_procs.graphics = Some(vec![NvmlProcess { pid: 4, used: Some(2) }]);
    let devices = vec![
        Some(reading(Some("Tesla T4"), Some((1, 2)), Some(55), Some(7))),
        None,
        Some(reading(Some("no memory"), None, Some(1), Some(1))),
        Some(with_procs),
    ];
    let gpus = collect_nvml_gpus(&devices, &vec![]);
    let got: Vec<_> = gpus.iter().map(gpu_tuple).collect();
    assert_eq!(
        got,
        vec![
            (0, "Tesla T4".to_string(), 1, 2, 7, Some(55)),
            (3, "GPU 3".to_string(), 100, 200, 0, Some(0)),
        ]
    );
    assert_eq!(procs(&gpus[1].processes), vec![(4, "PID 4".to_string(), 5)]);
}
