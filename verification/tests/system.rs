use ingest::maps::NameMap;
use ingest::snapshot::{
    CpuStat, DiskStats, GpuSnapshot, GpuText, MemInfo, MountEntry, NetInterfaceSnapshot,
    NetInterfaceText, Snapshot, SnapshotText, Uptime,
};
use ingest::system::{
    by_device_name, cpu_deltas, intersect_old_new, is_partition, update_cores, update_gpus,
    update_net_interfaces, update_partitions, uptime_cpu_busy, CpuDelta, MemoryUse,
    NetInterfaceDelta, PartitionDelta,
};

fn disk(name: &str, minor: u16, read: u64, written: u64, discarded: u64) -> DiskStats {
    let line = format!("8 {} {} 0 0 {} 0 0 0 {} 0 0 0 0 0 0 {} 0 0 0", minor, name, read, written, discarded);
    DiskStats::parse(line.as_bytes()).unwrap()
}

#[derive(Default, Debug, PartialEq)]
struct Traffic {
    ticks: u32,
    last: u64,
}

#[test]
fn a_core_whose_counters_stand_still_is_not_busy() {
    let zero = CpuStat { user: 0, system: 0, idle: 0, guest: 0 };
    let d = CpuDelta::between(&zero, &zero);
    assert_eq!(d.busy(), 0);
    assert_eq!(d.total(), 1);
    assert_eq!(d.busy() as f64 / d.total() as f64, 0.0);
}

#[test]
fn busy_time_is_user_system_and_guest() {
    let old = CpuStat { user: 100, system: 50, idle: 1000, guest: 5 };
    let new = CpuStat { user: 130, system: 60, idle: 1050, guest: 15 };
    let d = CpuDelta::between(&new, &old);
    assert_eq!(d, CpuDelta { user: 30, system: 10, idle: 50, guest: 10 });
    assert_eq!(d.busy(), 50);
    assert_eq!(d.total(), 100);
    assert_eq!(d.busy() as f64 / d.total() as f64, 0.5);
}

#[test]
fn cpu_counters_that_went_down_count_as_still() {
    let old = CpuStat { user: 100, system: 50, idle: 1000, guest: 5 };
    let new = CpuStat { user: 1, system: 60, idle: 2, guest: 0 };
    assert_eq!(CpuDelta::between(&new, &old), CpuDelta { user: 0, system: 10, idle: 0, guest: 0 });
}

#[test]
fn busy_time_does_not_overflow() {
    let d = CpuDelta { user: u64::MAX, system: u64::MAX, idle: u64::MAX, guest: u64::MAX };
    assert_eq!(d.busy(), 3 * (u64::MAX as u128));
    assert_eq!(d.total(), 4 * (u64::MAX as u128));
}

#[test]
fn a_core_that_appears_is_compared_with_itself() {
    let old = vec![CpuStat { user: 10, system: 0, idle: 0, guest: 0 }];
    let new = vec![
        CpuStat { user: 25, system: 0, idle: 5, guest: 0 },
        CpuStat { user: 900, system: 900, idle: 900, guest: 900 },
    ];
    let d = cpu_deltas(&new, &old);
    assert_eq!(d.len(), 2);
    assert_eq!(d[0], CpuDelta { user: 15, system: 0, idle: 5, guest: 0 });
    assert_eq!(d[1], CpuDelta { user: 0, system: 0, idle: 0, guest: 0 });
    assert!(cpu_deltas(&Vec::new(), &old).is_empty());
}

#[test]
fn memory_figures_are_in_bytes() {
    let m = MemoryUse::of(&MemInfo {
        mem_total: 131860364,
        mem_free: 122033496,
        mem_available: 126333412,
        swap_total: 100,
        swap_free: 40,
    });
    assert_eq!(m.mem_total, 131860364 * 1024);
    assert_eq!(m.mem_inc_reclaimable, (131860364 - 122033496) * 1024);
    assert_eq!(m.mem_used, (131860364 - 126333412) * 1024);
    assert_eq!(m.swap_total, 100 * 1024);
    assert_eq!(m.swap_used, 60 * 1024);
    let odd = MemoryUse::of(&MemInfo { mem_total: 1, mem_free: 2, mem_available: 0, swap_total: u64::MAX, swap_free: 0 });
    assert_eq!(odd.mem_inc_reclaimable, 0);
    assert_eq!(odd.swap_used, u64::MAX as u128 * 1024);
}

#[test]
fn busy_uptime_is_uptime_less_the_idle_share() {
    let u = Uptime { since_boot: 1000, idle_cpu_since_boot: 3000 };
    assert_eq!(uptime_cpu_busy(&u, 4), Some(250));
    assert_eq!(uptime_cpu_busy(&u, 1), Some(0));
    assert_eq!(uptime_cpu_busy(&u, 0), None);
}

#[test]
fn partitions_are_neither_whole_disks_nor_loopback() {
    assert!(is_partition(&disk("sda1", 1, 0, 0, 0)));
    assert!(is_partition(&disk("nvme0n1p2", 2, 0, 0, 0)));
    assert!(!is_partition(&disk("sda", 0, 0, 0, 0)));
    assert!(!is_partition(&disk("loop3", 3, 0, 0, 0)));
    assert!(is_partition(&disk("lo", 3, 0, 0, 0)));
}

#[test]
fn partition_traffic_is_sectors_times_512() {
    let old = disk("sda1", 1, 100, 50, 10);
    let new = disk("sda1", 1, 108, 50, 5);
    assert_eq!(PartitionDelta::between(&old, &new), PartitionDelta { read: 4096, written: 0, discarded: 0 });
    let huge = disk("sda1", 1, u64::MAX, 0, 0);
    let none = disk("sda1", 1, 0, 0, 0);
    assert_eq!(PartitionDelta::between(&none, &huge).read, 512 * (u64::MAX as u128));
}

#[test]
fn interface_traffic_is_the_growth_of_the_counters() {
    let old = NetInterfaceSnapshot { rx_bytes: 1000, tx_bytes: 500 };
    let new = NetInterfaceSnapshot { rx_bytes: 1500, tx_bytes: 100 };
    assert_eq!(NetInterfaceDelta::between(&old, &new), NetInterfaceDelta { rx: 500, tx: 0 });
}

#[test]
fn devices_are_collected_by_name() {
    let stats = vec![disk("sda", 0, 1, 0, 0), disk("sda1", 1, 2, 0, 0), disk("loop0", 1, 3, 0, 0), disk("sda1", 1, 4, 0, 0)];
    let all = by_device_name(&stats, false);
    assert_eq!(all.len(), 3);
    assert_eq!(all.get(b"sda1").unwrap().sectors_read, 4);
    let partitions = by_device_name(&stats, true);
    assert_eq!(partitions.len(), 1);
    assert_eq!(partitions.key_at(0), b"sda1");
}

fn readings(entries: &[(&str, u64)]) -> NameMap<u64> {
    let mut m = NameMap::new();
    for (k, v) in entries {
        m.insert(k.as_bytes().to_vec(), *v);
    }
    m
}

fn step(mut t: Traffic, old: &u64, new: &u64) -> Traffic {
    t.ticks += 1;
    t.last = new.saturating_sub(*old);
    t
}

#[test]
fn reconciliation_keeps_the_entities_read_at_both_ticks() {
    let mut state: NameMap<Traffic> = NameMap::new();
    state.insert(b"eth0".to_vec(), Traffic { ticks: 5, last: 1 });
    state.insert(b"gone".to_vec(), Traffic { ticks: 9, last: 9 });
    state.insert(b"stale".to_vec(), Traffic { ticks: 3, last: 3 });
    let old = readings(&[("eth0", 100), ("gone", 5), ("wlan0", 7)]);
    let new = readings(&[("eth0", 150), ("wlan0", 10), ("fresh", 1), ("stale", 2)]);
    intersect_old_new(&mut state, &old, &new, step);
    assert_eq!(state.len(), 2);
    // carried on from its previous state
    assert_eq!(state.get(b"eth0"), Some(&Traffic { ticks: 6, last: 50 }));
    // newly present: a default state, updated once
    assert_eq!(state.get(b"wlan0"), Some(&Traffic { ticks: 1, last: 3 }));
    // read now but not before, read before but not now, or never read
    assert_eq!(state.get(b"fresh"), None);
    assert_eq!(state.get(b"gone"), None);
    assert_eq!(state.get(b"stale"), None);
}

#[test]
fn reconciliation_with_nothing_read_drops_everything() {
    let mut state: NameMap<Traffic> = NameMap::new();
    state.insert(b"eth0".to_vec(), Traffic { ticks: 5, last: 1 });
    let none: NameMap<u64> = NameMap::new();
    let some = readings(&[("eth0", 1)]);
    intersect_old_new(&mut state, &some, &none, step);
    assert_eq!(state.len(), 0);
    state.insert(b"eth0".to_vec(), Traffic { ticks: 5, last: 1 });
    intersect_old_new(&mut state, &none, &some, step);
    assert_eq!(state.len(), 0);
}

fn gpu_text<'a>() -> GpuText<'a> {
    GpuText {
        mem_info_vram_used: b"10",
        mem_info_vram_total: b"20",
        mem_busy_percent: b"30",
        gpu_busy_percent: b"40",
        temperatures: vec![],
    }
}

fn snapshot(disks: &str, net: &[(&'static str, &'static str, &'static str)], gpus: &[&'static str]) -> Snapshot {
    let text = SnapshotText {
        diskstats: disks.as_bytes(),
        meminfo: b"MemTotal: 1 kB\nMemFree: 1 kB\nMemAvailable: 1 kB\nSwapTotal: 1 kB\nSwapFree: 1 kB\n",
        mounts: vec![MountEntry { device: b"sda1".to_vec(), mountpath: b"/".to_vec() }],
        stat: b"",
        uptime: b"1.0 1.0",
        cpu_temperatures: vec![],
        by_net_interface: net
            .iter()
            .map(|(n, rx, tx)| (n.as_bytes(), NetInterfaceText { rx_bytes: rx.as_bytes(), tx_bytes: tx.as_bytes() }))
            .collect(),
        by_gpu: gpus.iter().map(|n| (n.as_bytes(), gpu_text())).collect(),
    };
    Snapshot::parse(&text).unwrap()
}

const DISKS_BEFORE: &str = "8 0 sda 0 0 100 0 0 0 100 0 0 0 0 0 0 100 0 0 0
8 1 sda1 0 0 10 0 0 0 20 0 0 0 0 0 0 30 0 0 0
8 2 sda2 0 0 10 0 0 0 20 0 0 0 0 0 0 30 0 0 0
7 1 loop1 0 0 1 0 0 0 1 0 0 0 0 0 0 1 0 0 0
";

const DISKS_AFTER: &str = "8 0 sda 0 0 200 0 0 0 200 0 0 0 0 0 0 200 0 0 0
8 1 sda1 0 0 12 0 0 0 20 0 0 0 0 0 0 31 0 0 0
8 3 sda3 0 0 10 0 0 0 20 0 0 0 0 0 0 30 0 0 0
7 1 loop1 0 0 9 0 0 0 9 0 0 0 0 0 0 9 0 0 0
";

#[derive(Default, Debug, PartialEq)]
struct Seen {
    ticks: u32,
    mounted_on: Option<Vec<u8>>,
    read: u128,
    rx: u64,
    vram: u64,
    busy: u128,
}

#[test]
fn partitions_are_carried_on_with_their_traffic_and_mount_path() {
    let old = snapshot(DISKS_BEFORE, &[], &[]).retire();
    let new = snapshot(DISKS_AFTER, &[], &[]);
    let mut state: NameMap<Seen> = NameMap::new();
    state.insert(b"sda2".to_vec(), Seen { ticks: 4, ..Seen::default() });
    update_partitions(&mut state, &new, &old, |mut s: Seen, mountpath, delta| {
        s.ticks += 1;
        s.mounted_on = mountpath.cloned();
        s.read = delta.read;
        s
    });
    // sda is a whole disk, loop1 a loopback device, sda2 went away, sda3 is new
    assert_eq!(state.len(), 1);
    let sda1 = state.get(b"sda1").unwrap();
    assert_eq!(sda1.ticks, 1);
    assert_eq!(sda1.mounted_on, Some(b"/".to_vec()));
    assert_eq!(sda1.read, 1024);
}

#[test]
fn interfaces_are_carried_on_with_their_traffic() {
    let old = snapshot("", &[("eth0", "100", "50"), ("lo", "1", "1")], &[]).retire();
    let new = snapshot("", &[("eth0", "300", "40"), ("wlan0", "7", "7")], &[]);
    let mut state: NameMap<Seen> = NameMap::new();
    state.insert(b"eth0".to_vec(), Seen { ticks: 2, ..Seen::default() });
    state.insert(b"lo".to_vec(), Seen { ticks: 2, ..Seen::default() });
    update_net_interfaces(&mut state, &new, &old, |mut s: Seen, delta: NetInterfaceDelta| {
        s.ticks += 1;
        s.rx = delta.rx;
        s
    });
    assert_eq!(state.len(), 1);
    assert_eq!(state.get(b"eth0").unwrap().ticks, 3);
    assert_eq!(state.get(b"eth0").unwrap().rx, 200);
}

#[test]
fn gpus_follow_the_new_snapshot() {
    let new = snapshot("", &[], &["card1", "card0"]);
    let mut state: NameMap<Seen> = NameMap::new();
    state.insert(b"card0".to_vec(), Seen { ticks: 8, ..Seen::default() });
    state.insert(b"card7".to_vec(), Seen { ticks: 8, ..Seen::default() });
    update_gpus(&mut state, &new, |mut s: Seen, reading: &GpuSnapshot| {
        s.ticks += 1;
        s.vram = reading.mem_info_vram_used;
        s
    });
    assert_eq!(state.len(), 2);
    assert_eq!(state.get(b"card0").unwrap().ticks, 9);
    assert_eq!(state.get(b"card1").unwrap().ticks, 1);
    assert_eq!(state.get(b"card1").unwrap().vram, 10);
    assert!(state.get(b"card7").is_none());
}

#[test]
fn cores_are_carried_on_in_their_order() {
    let old = vec![CpuStat { user: 10, system: 0, idle: 0, guest: 0 }];
    let new = vec![
        CpuStat { user: 25, system: 0, idle: 5, guest: 0 },
        CpuStat { user: 900, system: 900, idle: 900, guest: 900 },
    ];
    let mut state = vec![
        Seen { ticks: 5, ..Seen::default() },
        Seen { ticks: 6, ..Seen::default() },
        Seen { ticks: 7, ..Seen::default() },
    ];
    let step = |mut s: Seen, delta: CpuDelta| {
        s.ticks += 1;
        s.busy = delta.busy();
        s
    };
    update_cores(&mut state, &new, &old, step);
    assert_eq!(state.len(), 2);
    assert_eq!((state[0].ticks, state[0].busy), (6, 15));
    assert_eq!((state[1].ticks, state[1].busy), (7, 0));
    let more = vec![new[0], new[1], new[1], new[0]];
    update_cores(&mut state, &more, &new, step);
    assert_eq!(state.len(), 4);
    assert_eq!(state[1].ticks, 8);
    assert_eq!(state[2].ticks, 1);
    assert_eq!(state[3].ticks, 1);
    update_cores(&mut state, &Vec::new(), &more, step);
    assert!(state.is_empty());
}
