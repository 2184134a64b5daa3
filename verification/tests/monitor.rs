use vram_monitor::monitor::{loopback_in, wifi_in};
use vram_monitor::{max_frequency, order_networks, GpuInfo, NetSample, Poller};

fn net(name: &str, sent: u64, recv: u64) -> NetSample {
    NetSample { name: name.to_string(), sent_bytes: sent, recv_bytes: recv }
}

fn gpu(index: u32) -> GpuInfo {
    GpuInfo {
        index,
        name: format!("GPU {index}"),
        used_bytes: 1,
        total_bytes: 2,
        gpu_util: 3,
        temp: None,
        processes: Vec::new(),
    }
}

#[test]
fn cpu_frequency_is_the_highest_core() {
    assert_eq!(max_frequency(&vec![3200, 4700, 4100]), 4700);
    assert_eq!(max_frequency(&vec![]), 0);
    assert_eq!(max_frequency(&vec![0, 0]), 0);
}

#[test]
fn networks_drop_loopback_and_show_wifi_first() {
    let list = vec![
        net("Ethernet", 1, 2),
        net("Loopback Pseudo-Interface 1", 0, 0),
        net("WLAN", 3, 4),
        net("lo", 5, 6),
        net("Wi-Fi 2", 7, 8),
        net("eth0", 9, 10),
        net("wlp2s0", 11, 12),
    ];
    let ordered: Vec<_> = order_networks(list).iter().map(|n| (n.name.clone(), n.sent_bytes, n.recv_bytes)).collect();
    assert_eq!(
        ordered,
        vec![
            ("WLAN".to_string(), 3, 4),
            ("Wi-Fi 2".to_string(), 7, 8),
            ("Ethernet".to_string(), 1, 2),
            ("eth0".to_string(), 9, 10),
            ("lo".to_string(), 5, 6),
            ("wlp2s0".to_string(), 11, 12),
        ]
    );
}

#[test]
fn networks_match_names_case_insensitively() {
    let list = vec![net("LOOPBACK", 0, 0), net("MyWiFi", 1, 1), net("Bridge", 2, 2)];
    let ordered: Vec<_> = order_networks(list).iter().map(|n| n.name.clone()).collect();
    assert_eq!(ordered, vec!["MyWiFi".to_string(), "Bridge".to_string()]);
    assert!(order_networks(Vec::new()).is_empty());
}

#[test]
fn failed_nvml_init_reports_and_retries() {
    let mut p = Poller::new();
    assert!(p.wants_init());
    let tick = p.on_init(Err("Driver Not Loaded".to_string())).unwrap();
    assert!(tick.gpus.is_empty());
    assert_eq!(tick.pause_secs, 3);
    assert_eq!(
        tick.error.as_deref(),
        Some("NVML 初始化失败：Driver Not Loaded（请确认已安装 NVIDIA 驱动）")
    );
    // the next poll tries again
    assert!(p.wants_init());
}

#[test]
fn ready_nvml_shows_collected_gpus() {
    let mut p = Poller::new();
    assert!(p.on_init(Err("x".to_string())).is_some());
    assert!(p.on_init(Ok(())).is_none());
    assert!(!p.wants_init());
    let tick = p.on_collect(vec![gpu(0), gpu(1)]);
    assert_eq!(tick.pause_secs, 1);
    assert!(tick.error.is_none());
    let idx: Vec<_> = tick.gpus.iter().map(|g| g.index).collect();
    assert_eq!(idx, vec![0, 1]);
    // it stays ready
    assert!(!p.wants_init());
}

#[test]
fn collecting_without_nvml_reports_unavailable() {
    let p = Poller::new();
    let tick = p.on_collect(vec![gpu(0)]);
    assert!(tick.gpus.is_empty());
    assert_eq!(tick.pause_secs, 1);
    assert_eq!(tick.error.as_deref(), Some("NVML 不可用"));
}

#[test]
fn wifi_and_loopback_words_in_lowercased_names() {
    assert!(wifi_in("intel(r) wi-fi 6e ax211"));
    assert!(wifi_in("mywifi"));
    assert!(wifi_in("wlan0"));
    assert!(!wifi_in("ethernet"));
    assert!(!wifi_in("WLAN"));
    assert!(loopback_in("loopback pseudo-interface 1"));
    assert!(!loopback_in("lo"));
    assert!(!loopback_in("LOOPBACK"));
}
