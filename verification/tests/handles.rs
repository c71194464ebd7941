use ingest::handles::{
    hash_environment, is_cpu_sensor, is_gpu_entry, is_temperature_input, EntryName, GpuHandles,
    Handles,
};
use ingest::maps::NameMap;

fn listing(names: &[&str]) -> Vec<EntryName> {
    names.iter().map(|n| EntryName { name: n.as_bytes().to_vec() }).collect()
}

fn handles(tag: u32, hash: u64) -> Handles<u32> {
    let mut by_net_interface = NameMap::new();
    by_net_interface.insert(
        b"lo".to_vec(),
        ingest::handles::NetInterfaceHandles { rx_bytes: tag + 10, tx_bytes: tag + 11 },
    );
    Handles {
        diskstats: tag + 1,
        meminfo: tag + 2,
        mounts: tag + 3,
        stat: tag + 4,
        uptime: tag + 5,
        cpu_temperatures: vec![tag + 6],
        by_net_interface,
        by_gpu: NameMap::new(),
        environment_hash: hash,
    }
}

#[test]
fn cpu_sensors_are_known_by_their_driver() {
    assert!(is_cpu_sensor(b"k10temp\n"));
    assert!(is_cpu_sensor(b"coretemp\n"));
    assert!(!is_cpu_sensor(b"coretemp"));
    assert!(!is_cpu_sensor(b"amdgpu\n"));
    assert!(!is_cpu_sensor(b""));
}

#[test]
fn temperature_inputs_are_known_by_their_name() {
    assert!(is_temperature_input(b"temp1_input"));
    assert!(is_temperature_input(b"temp12_input"));
    assert!(!is_temperature_input(b"temp1_max"));
    assert!(!is_temperature_input(b"fan1_input"));
    assert!(!is_temperature_input(b"temp"));
    assert!(!is_temperature_input(b"temp_inpu"));
    assert!(is_temperature_input(b"temp_input"));
}

#[test]
fn gpus_have_entries_named_after_them() {
    let children: Vec<&[u8]> = vec![b"card0-DP-1", b"device", b"power"];
    assert!(is_gpu_entry(b"card0", &children));
    assert!(!is_gpu_entry(b"card1", &children));
    assert!(!is_gpu_entry(b"renderD128", &children));
    let version: Vec<&[u8]> = vec![b"version-1"];
    assert!(!is_gpu_entry(b"version", &version));
    assert!(!is_gpu_entry(b"card0", &Vec::new()));
}

#[test]
fn a_device_that_lacks_an_attribute_is_no_gpu() {
    assert!(GpuHandles::<u32>::from_opened(None, Some(2), Some(3), Some(4), vec![5]).is_none());
    assert!(GpuHandles::<u32>::from_opened(None, None, None, None, vec![]).is_none());
    assert!(GpuHandles::from_opened(Some(1), None, Some(3), Some(4), vec![5]).is_none());
    assert!(GpuHandles::from_opened(Some(1), Some(2), None, Some(4), vec![5]).is_none());
    assert!(GpuHandles::from_opened(Some(1), Some(2), Some(3), None, vec![5]).is_none());
    let gpu = GpuHandles::from_opened(Some(1), Some(2), Some(3), Some(4), vec![5, 6]).unwrap();
    assert_eq!(gpu.mem_info_vram_used, 1);
    assert_eq!(gpu.mem_info_vram_total, 2);
    assert_eq!(gpu.mem_busy_percent, 3);
    assert_eq!(gpu.gpu_busy_percent, 4);
    assert_eq!(gpu.temperatures, vec![5, 6]);
}

#[test]
fn the_fingerprint_does_not_depend_on_the_order_of_a_listing() {
    let a = hash_environment(vec![listing(&["lo", "eth0", "wlan0"]), listing(&["sda", "sdb"])]);
    let b = hash_environment(vec![listing(&["wlan0", "lo", "eth0"]), listing(&["sdb", "sda"])]);
    assert_eq!(a, b);
}

#[test]
fn the_fingerprint_tells_listings_apart() {
    let base = hash_environment(vec![listing(&["lo", "eth0"]), listing(&["sda"])]);
    let added = hash_environment(vec![listing(&["lo", "eth0", "usb0"]), listing(&["sda"])]);
    let moved = hash_environment(vec![listing(&["lo"]), listing(&["eth0", "sda"])]);
    let joined = hash_environment(vec![listing(&["loeth0"]), listing(&["sda"])]);
    let none = hash_environment(vec![]);
    let empty = hash_environment(vec![listing(&[]), listing(&[])]);
    assert_ne!(base, added);
    assert_ne!(base, moved);
    assert_ne!(base, joined);
    assert_ne!(none, empty);
}

#[test]
fn handles_are_kept_while_the_fingerprint_stands() {
    let mut h = handles(0, 42);
    assert!(!h.is_stale(42));
    h.update(42, || handles(100, 42));
    assert_eq!(h.diskstats, 1);
    assert_eq!(h.uptime, 5);
    assert_eq!(h.cpu_temperatures, vec![6]);
    assert_eq!(h.by_net_interface.get(b"lo").unwrap().rx_bytes, 10);
}

#[test]
fn an_added_entry_replaces_every_handle() {
    let before = hash_environment(vec![listing(&["lo"])]);
    let after = hash_environment(vec![listing(&["lo", "usb0"])]);
    let mut h = handles(0, before);
    assert!(h.is_stale(after));
    h.update(after, || {
        let mut fresh = handles(100, after);
        fresh.by_net_interface.insert(
            b"usb0".to_vec(),
            ingest::handles::NetInterfaceHandles { rx_bytes: 120, tx_bytes: 121 },
        );
        fresh
    });
    assert_eq!(
        (h.diskstats, h.meminfo, h.mounts, h.stat, h.uptime),
        (101, 102, 103, 104, 105)
    );
    assert_eq!(h.cpu_temperatures, vec![106]);
    assert_eq!(h.by_net_interface.len(), 2);
    assert_eq!(h.by_net_interface.get(b"lo").unwrap().rx_bytes, 110);
    assert_eq!(h.by_net_interface.get(b"usb0").unwrap().tx_bytes, 121);
    assert_eq!(h.environment_hash, after);
    assert!(!h.is_stale(after));
}
