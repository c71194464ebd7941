use ingest::snapshot::{
    mount_entries, parse_cpus_stat, parse_disk_stats, parse_max_temperature, parse_value, CpuStat,
    DiskStats, GpuSnapshot, GpuText, MemInfo, MountEntry, NetInterfaceSnapshot, NetInterfaceText,
    PartitionToMountpath, Snapshot, SnapshotText, Uptime,
};
use ingest::text::ParseError;

const MEMINFO: &[u8] = b"MemTotal:       131860364 kB
MemFree:        122033496 kB
MemAvailable:   126333412 kB
Buffers:          338840 kB
Cached:          4409812 kB
SwapCached:            0 kB
Active:          4706016 kB
SwapTotal:             0 kB
SwapFree:              0 kB
Dirty:               100 kB
";

const STAT: &[u8] = b"cpu  13668 604 10504 2825928 636 0 32 0 0 0
cpu0 3417 151 2626 706482 159 0 8 0 0 0
cpu1 3000 100 2000 700000 100 1 2 3 4 5
intr 1 2 3
ctxt 12345
";

const DISKSTATS: &[u8] = b"   8       0 sda 100 2 3000 40 50 6 7000 80 0 90 120 1 2 300 4 5 6
   8       1 sda1 10 0 300 4 5 0 700 8 0 9 12 0 0 30 0 0 0
   7       0 loop0 1 0 2 0 0 0 0 0 0 0 0 0 0 0 0 0 0
";

#[test]
fn cpu_stat_line_sums_the_counters_into_four() {
    let c = CpuStat::parse(b"cpu3 3417 151 2626 706482 159 0 8 0 0 0").unwrap();
    assert_eq!(c.user, 3568);
    assert_eq!(c.idle, 706482);
    assert_eq!(c.system, 2634);
    assert_eq!(c.guest, 0);
}

#[test]
fn cpu_stat_counts_steal_and_guest() {
    let c = CpuStat::parse(b"cpu1 3000 100 2000 700000 100 1 2 3 4 5").unwrap();
    assert_eq!(c, CpuStat { user: 3100, system: 2006, idle: 700000, guest: 9 });
}

#[test]
fn cpu_stat_skips_padding_before_the_counters() {
    let c = CpuStat::parse(b"cpu  1 2 3 4 5 6 7 8 9 10 11").unwrap();
    assert_eq!(c, CpuStat { user: 3, system: 3 + 6 + 7 + 8, idle: 4, guest: 19 });
}

#[test]
fn cpu_stat_rejects_short_and_malformed_lines() {
    assert_eq!(CpuStat::parse(b"cpu0 1 2 3 4 5 6 7 8 9"), Err(ParseError::MissingField));
    assert_eq!(CpuStat::parse(b""), Err(ParseError::MissingField));
    assert_eq!(CpuStat::parse(b"cpu0 1 2 x 4 5 6 7 8 9 10"), Err(ParseError::InvalidNumber));
    // a doubled space after the counters began leaves an empty field
    assert_eq!(CpuStat::parse(b"cpu0 1  2 3 4 5 6 7 8 9 10"), Err(ParseError::InvalidNumber));
    // the fifth counter is not read
    assert!(CpuStat::parse(b"cpu0 1 2 3 4 x 6 7 8 9 10").is_ok());
    assert_eq!(
        CpuStat::parse(b"cpu0 18446744073709551615 1 0 0 0 0 0 0 0 0"),
        Err(ParseError::Overflow)
    );
}

#[test]
fn meminfo_yields_the_five_figures() {
    let m = MemInfo::parse(MEMINFO).unwrap();
    assert_eq!(
        m,
        MemInfo {
            mem_total: 131860364,
            mem_free: 122033496,
            mem_available: 126333412,
            swap_total: 0,
            swap_free: 0,
        }
    );
}

#[test]
fn meminfo_wants_its_keys_in_order() {
    assert_eq!(MemInfo::parse(b"MemTotal: 1 kB\nMemFree: 2 kB\n"), Err(ParseError::MissingKey));
    let swapped = b"MemFree: 2 kB\nMemTotal: 1 kB\nMemAvailable: 3 kB\nSwapTotal: 4 kB\nSwapFree: 5 kB\n";
    assert_eq!(MemInfo::parse(swapped), Err(ParseError::MissingKey));
    assert_eq!(MemInfo::parse(b""), Err(ParseError::MissingKey));
}

#[test]
fn meminfo_rejects_malformed_figures() {
    assert_eq!(MemInfo::parse(b"MemTotal:\n"), Err(ParseError::Malformed));
    assert_eq!(MemInfo::parse(b"MemTotal: x kB\n"), Err(ParseError::InvalidNumber));
    assert_eq!(MemInfo::parse(b"MemTotal: kB\n"), Err(ParseError::InvalidNumber));
}

#[test]
fn diskstats_line_is_twenty_fields() {
    let d = DiskStats::parse(b"   8       1 sda1 10 1 300 4 5 2 700 8 3 9 12 7 6 30 11 13 14").unwrap();
    assert_eq!(d.major_device_number, 8);
    assert_eq!(d.minor_device_number, 1);
    assert_eq!(d.device_name, b"sda1");
    assert_eq!(d.reads_completed, 10);
    assert_eq!(d.reads_merged, 1);
    assert_eq!(d.sectors_read, 300);
    assert_eq!(d.time_spent_reading, 4);
    assert_eq!(d.writes_completed, 5);
    assert_eq!(d.writes_merged, 2);
    assert_eq!(d.sectors_written, 700);
    assert_eq!(d.time_spent_writing, 8);
    assert_eq!(d.io_currently_in_progress, 3);
    assert_eq!(d.time_spent_io, 9);
    assert_eq!(d.weighted_time_spent_io, 12);
    assert_eq!(d.discards_completed, 7);
    assert_eq!(d.discards_merged, 6);
    assert_eq!(d.sectors_discarded, 30);
    assert_eq!(d.time_spent_discarding, 11);
    assert_eq!(d.flush_requests_completed, 13);
    assert_eq!(d.time_spent_flushing, 14);
}

#[test]
fn diskstats_rejects_short_lines_and_wide_numbers() {
    assert!(matches!(DiskStats::parse(b"8 1 sda1 10 1 300"), Err(ParseError::MissingField)));
    assert!(matches!(
        DiskStats::parse(b"70000 1 sda1 10 1 300 4 5 2 700 8 3 9 12 7 6 30 11 13 14"),
        Err(ParseError::InvalidNumber)
    ));
    assert!(matches!(
        DiskStats::parse(b"8 1 sda1 10 1 300 4 5 2 700 8 4294967296 9 12 7 6 30 11 13 14"),
        Err(ParseError::InvalidNumber)
    ));
    assert!(matches!(parse_disk_stats(b"8 1 sda1 1 1 1 1 1 1 1 1 1 1 1 1 1 1 1 1 1\n\n"), Err(ParseError::MissingField)));
}

#[test]
fn diskstats_text_is_one_record_per_line() {
    let all = parse_disk_stats(DISKSTATS).unwrap();
    assert_eq!(all.len(), 3);
    assert_eq!(all[0].device_name, b"sda");
    assert_eq!(all[1].device_name, b"sda1");
    assert_eq!(all[2].device_name, b"loop0");
    assert_eq!(all[1].sectors_read, 300);
    assert!(parse_disk_stats(b"").unwrap().is_empty());
}

#[test]
fn stat_text_gives_the_cores_without_the_aggregate() {
    let cores = parse_cpus_stat(STAT).unwrap();
    assert_eq!(cores.len(), 2);
    assert_eq!(cores[0], CpuStat { user: 3568, system: 2634, idle: 706482, guest: 0 });
    assert_eq!(cores[1], CpuStat { user: 3100, system: 2006, idle: 700000, guest: 9 });
    assert!(parse_cpus_stat(b"intr 1 2\ncpu0 1 2 3 4 5 6 7 8 9 10\n").unwrap().is_empty());
    assert_eq!(parse_cpus_stat(b"cpu 1 2\ncpu0 1 2\n"), Err(ParseError::MissingField));
}

#[test]
fn uptime_is_two_numbers_of_seconds() {
    let u = Uptime::parse(b"350735.47 234388.90\n").unwrap();
    assert_eq!(u.since_boot, 350_735_470_000_000);
    assert_eq!(u.idle_cpu_since_boot, 234_388_900_000_000);
    assert_eq!(Uptime::parse(b"350735.47"), Err(ParseError::MissingField));
    assert_eq!(Uptime::parse(b"1.0 x"), Err(ParseError::InvalidNumber));
}

#[test]
fn single_values_are_trimmed_and_bounded() {
    assert_eq!(parse_value(b"45000\n", u32::MAX as u64), Ok(45000));
    assert_eq!(parse_value(b" 7 ", 7), Ok(7));
    assert_eq!(parse_value(b"8", 7), Err(ParseError::InvalidNumber));
    assert_eq!(parse_value(b"", 7), Err(ParseError::InvalidNumber));
}

#[test]
fn highest_temperature_wins() {
    let texts: Vec<&[u8]> = vec![b"41000\n", b"47500\n", b"39000\n"];
    assert_eq!(parse_max_temperature(&texts), Ok(47500));
    assert_eq!(parse_max_temperature(&Vec::new()), Ok(0));
    let bad: Vec<&[u8]> = vec![b"41000\n", b"hot\n"];
    assert_eq!(parse_max_temperature(&bad), Err(ParseError::InvalidNumber));
}

#[test]
fn mounts_keep_devices_under_dev() {
    let text = b"proc /proc proc rw 0 0\n/dev/sda1 / ext4 rw 0 0\ntmpfs /tmp tmpfs rw 0 0\n/dev/mapper/home /home ext4 rw 0 0\n";
    let entries = mount_entries(text).unwrap();
    assert_eq!(entries.len(), 2);
    assert_eq!(entries[0].device, b"/dev/sda1");
    assert_eq!(entries[0].mountpath, b"/");
    assert_eq!(entries[1].device, b"/dev/mapper/home");
    assert_eq!(entries[1].mountpath, b"/home");
    assert!(matches!(mount_entries(b"/dev/sda1\n"), Err(ParseError::MissingField)));
    assert!(matches!(mount_entries(b"proc /proc\n\n"), Err(ParseError::MissingField)));
}

#[test]
fn later_mounts_of_a_partition_replace_earlier_ones() {
    let entries = vec![
        MountEntry { device: b"sda1".to_vec(), mountpath: b"/".to_vec() },
        MountEntry { device: b"dm-0".to_vec(), mountpath: b"/home".to_vec() },
        MountEntry { device: b"sda1".to_vec(), mountpath: b"/mnt".to_vec() },
    ];
    let map = PartitionToMountpath::from_entries(&entries);
    assert_eq!(map.partition_to_mountpath.len(), 2);
    assert_eq!(map.partition_to_mountpath.get(b"sda1"), Some(&b"/mnt".to_vec()));
    assert_eq!(map.partition_to_mountpath.get(b"dm-0"), Some(&b"/home".to_vec()));
    assert_eq!(map.partition_to_mountpath.get(b"sdb"), None);
}

#[test]
fn interface_and_gpu_files_hold_one_number_each() {
    assert_eq!(
        NetInterfaceSnapshot::parse(b"123456\n", b"7890\n"),
        Ok(NetInterfaceSnapshot { rx_bytes: 123456, tx_bytes: 7890 })
    );
    assert_eq!(NetInterfaceSnapshot::parse(b"\n", b"7890\n"), Err(ParseError::InvalidNumber));
    let text = GpuText {
        mem_info_vram_used: b"1024\n",
        mem_info_vram_total: b"8192\n",
        mem_busy_percent: b"12\n",
        gpu_busy_percent: b"99\n",
        temperatures: vec![b"50000\n", b"61000\n"],
    };
    assert_eq!(
        GpuSnapshot::parse(&text),
        Ok(GpuSnapshot {
            mem_info_vram_used: 1024,
            mem_info_vram_total: 8192,
            mem_busy_percent: 12,
            gpu_busy_percent: 99,
            max_temperature: 61000,
        })
    );
    let bad = GpuText { gpu_busy_percent: b"70000\n", ..text };
    assert_eq!(GpuSnapshot::parse(&bad), Err(ParseError::InvalidNumber));
}

fn sample_text<'a>() -> SnapshotText<'a> {
    SnapshotText {
        diskstats: DISKSTATS,
        meminfo: MEMINFO,
        mounts: vec![MountEntry { device: b"sda1".to_vec(), mountpath: b"/".to_vec() }],
        stat: STAT,
        uptime: b"100.50 300.25\n",
        cpu_temperatures: vec![b"41000\n", b"43000\n"],
        by_net_interface: vec![
            (&b"lo"[..], NetInterfaceText { rx_bytes: b"10\n", tx_bytes: b"10\n" }),
            (&b"eth0"[..], NetInterfaceText { rx_bytes: b"5000\n", tx_bytes: b"700\n" }),
        ],
        by_gpu: vec![(
            &b"card0"[..],
            GpuText {
                mem_info_vram_used: b"1\n",
                mem_info_vram_total: b"2\n",
                mem_busy_percent: b"3\n",
                gpu_busy_percent: b"4\n",
                temperatures: vec![],
            },
        )],
    }
}

#[test]
fn snapshot_holds_every_part() {
    let s = Snapshot::parse(&sample_text()).unwrap();
    assert_eq!(s.disk_stats.len(), 3);
    assert_eq!(s.cpus_stat.len(), 2);
    assert_eq!(s.mem_info.mem_total, 131860364);
    assert_eq!(s.uptime, Uptime { since_boot: 100_500_000_000, idle_cpu_since_boot: 300_250_000_000 });
    assert_eq!(s.cpu_max_temp_millicelsius, 43000);
    assert_eq!(s.partition_to_mountpath.partition_to_mountpath.get(b"sda1"), Some(&b"/".to_vec()));
    assert_eq!(s.by_net_interface.len(), 2);
    // interfaces are walked by name
    assert_eq!(s.by_net_interface.key_at(0), b"eth0");
    assert_eq!(s.by_net_interface.key_at(1), b"lo");
    assert_eq!(
        s.by_net_interface.get(b"eth0"),
        Some(&NetInterfaceSnapshot { rx_bytes: 5000, tx_bytes: 700 })
    );
    assert_eq!(s.by_gpu.get(b"card0").unwrap().max_temperature, 0);
}

#[test]
fn snapshot_fails_as_a_whole() {
    let mut text = sample_text();
    text.uptime = b"garbage\n";
    assert!(matches!(Snapshot::parse(&text), Err(ParseError::MissingField)));
    let mut text = sample_text();
    text.meminfo = b"MemTotal: 1 kB\n";
    assert!(matches!(Snapshot::parse(&text), Err(ParseError::MissingKey)));
    let mut text = sample_text();
    text.cpu_temperatures = vec![b"warm"];
    assert!(matches!(Snapshot::parse(&text), Err(ParseError::InvalidNumber)));
    // the disks are looked at before the memory
    let mut text = sample_text();
    text.diskstats = b"8 0 sda\n";
    text.meminfo = b"";
    assert!(matches!(Snapshot::parse(&text), Err(ParseError::MissingField)));
}

#[test]
fn retiring_keeps_what_the_next_delta_needs() {
    let s = Snapshot::parse(&sample_text()).unwrap();
    let old = s.retire();
    assert_eq!(old.disk_stats.len(), 3);
    assert_eq!(old.disk_stats[1].device_name, b"sda1");
    assert_eq!(old.cpus_stat.len(), 2);
    assert_eq!(old.cpus_stat[0].idle, 706482);
    assert_eq!(old.by_net_interface.get(b"lo"), Some(&NetInterfaceSnapshot { rx_bytes: 10, tx_bytes: 10 }));
}
