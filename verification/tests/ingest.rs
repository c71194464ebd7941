use std::collections::BTreeMap;
use ingest::ingest::{delta, ProcIngest, ProcessIngest, ProcessReading, ThreadIngest, ThreadReading};
use ingest::procfs::get_sid_cumulative_user_system_guest_time;

fn reading(user: u64, system: u64, guest: u64, read: u64, write: u64) -> ThreadReading {
    ThreadReading {
        sid: 77,
        cumulative_user_time_ms: user,
        cumulative_system_time_ms: system,
        cumulative_guest_time_ms: guest,
        cumulative_read_bytes: read,
        cumulative_write_bytes: write,
    }
}

fn process(pid: u32, name: Option<&str>, threads: Vec<(u32, ThreadReading)>) -> ProcessReading {
    ProcessReading {
        pid,
        identity: name.map(|n| (false, n.as_bytes().to_vec(), Some(format!("/bin/{}", n).into_bytes()))),
        uid: 1000,
        gid: 100,
        vm_rss_kb: 64,
        threads,
    }
}

fn stat_line(utime: u64) -> Vec<u8> {
    let mut fields: Vec<String> = vec!["1".to_string(), "(x)".to_string(), "S".to_string()];
    for i in 3..52 {
        fields.push(if i == 13 { utime.to_string() } else { "0".to_string() });
    }
    fields.join(" ").into_bytes()
}

#[test]
fn a_growing_counter_gives_its_growth() {
    assert_eq!(delta(10, 4), 6);
    assert_eq!(delta(10, 10), 0);
    assert_eq!(delta(u64::MAX, 0), u64::MAX);
}

#[test]
fn a_counter_that_went_down_gives_zero() {
    assert_eq!(delta(4, 10), 0);
    assert_eq!(delta(0, u64::MAX), 0);
}

#[test]
fn a_new_thread_counts_from_zero() {
    let t = ThreadIngest::advance(None, &reading(30, 20, 10, 4096, 512));
    assert_eq!(t.user_time_ms, 30);
    assert_eq!(t.system_time_ms, 20);
    assert_eq!(t.guest_time_ms, 10);
    assert_eq!(t.read_bytes, 4096);
    assert_eq!(t.write_bytes, 512);
    assert_eq!(t.sid, 77);
    assert_eq!(t.cumulative_user_time_ms, 30);
}

#[test]
fn a_known_thread_counts_from_its_last_reading() {
    let first = ThreadIngest::advance(None, &reading(30, 20, 10, 4096, 512));
    let second = ThreadIngest::advance(Some(first), &reading(45, 20, 11, 5000, 400));
    assert_eq!(second.user_time_ms, 15);
    assert_eq!(second.system_time_ms, 0);
    assert_eq!(second.guest_time_ms, 1);
    assert_eq!(second.read_bytes, 904);
    // the counter went down: no negative traffic
    assert_eq!(second.write_bytes, 0);
    assert_eq!(second.cumulative_write_bytes, 400);
}

#[test]
fn tick_times_are_cut_to_32_bits() {
    let t = ThreadIngest::advance(None, &reading(0x1_0000_0005, 0, 0, 0, 0));
    assert_eq!(t.user_time_ms, 5);
}

#[test]
fn user_time_of_250_jiffies_is_2500_milliseconds() {
    let (sid, user, system, guest) = get_sid_cumulative_user_system_guest_time(&stat_line(1000)).unwrap();
    let first = ThreadReading {
        sid,
        cumulative_user_time_ms: user,
        cumulative_system_time_ms: system,
        cumulative_guest_time_ms: guest,
        cumulative_read_bytes: 0,
        cumulative_write_bytes: 0,
    };
    let (sid, user, system, guest) = get_sid_cumulative_user_system_guest_time(&stat_line(1250)).unwrap();
    let second = ThreadReading {
        sid,
        cumulative_user_time_ms: user,
        cumulative_system_time_ms: system,
        cumulative_guest_time_ms: guest,
        cumulative_read_bytes: 0,
        cumulative_write_bytes: 0,
    };
    let mut ingest = ProcIngest::new();
    ingest.update(&vec![process(9, Some("worker"), vec![(9, first)])]);
    ingest.update(&vec![process(9, None, vec![(9, second)])]);
    let thread = ingest.by_pid.get(&9).unwrap().by_tid.get(&9).unwrap();
    assert_eq!(thread.user_time_ms, 2500);
    assert_eq!(thread.cumulative_user_time_ms, 12500);
}

#[test]
fn threads_that_were_not_read_are_dropped() {
    let mut old: BTreeMap<u32, ThreadIngest> = BTreeMap::new();
    old.insert(1, ThreadIngest::advance(None, &reading(10, 0, 0, 0, 0)));
    old.insert(2, ThreadIngest::advance(None, &reading(20, 0, 0, 0, 0)));
    let now = ThreadIngest::new_by_tid(old, &vec![(2, reading(25, 0, 0, 0, 0)), (3, reading(7, 0, 0, 0, 0))]);
    assert_eq!(now.len(), 2);
    assert!(now.get(&1).is_none());
    assert_eq!(now.get(&2).unwrap().user_time_ms, 5);
    assert_eq!(now.get(&3).unwrap().user_time_ms, 7);
}

#[test]
fn a_thread_read_twice_counts_from_zero_the_second_time() {
    let mut old: BTreeMap<u32, ThreadIngest> = BTreeMap::new();
    old.insert(2, ThreadIngest::advance(None, &reading(20, 0, 0, 0, 0)));
    let now = ThreadIngest::new_by_tid(old, &vec![(2, reading(25, 0, 0, 0, 0)), (2, reading(26, 0, 0, 0, 0))]);
    assert_eq!(now.len(), 1);
    assert_eq!(now.get(&2).unwrap().user_time_ms, 26);
}

#[test]
fn a_new_process_needs_its_identity() {
    assert!(ProcessIngest::new_from_old(None, &process(5, None, vec![])).is_none());
    let p = ProcessIngest::new_from_old(None, &process(5, Some("sh"), vec![(5, reading(1, 2, 3, 4, 5))])).unwrap();
    assert!(!p.kernel);
    assert_eq!(p.name, b"sh");
    assert_eq!(p.cmdline, Some(b"/bin/sh".to_vec()));
    assert_eq!(p.uid, 1000);
    assert_eq!(p.gid, 100);
    assert_eq!(p.vm_rss_kb, 64);
    assert_eq!(p.by_tid.len(), 1);
}

#[test]
fn a_known_process_keeps_its_identity() {
    let first = ProcessIngest::new_from_old(None, &process(5, Some("sh"), vec![(5, reading(1, 0, 0, 0, 0))]));
    let mut again = process(5, Some("other"), vec![(5, reading(4, 0, 0, 0, 0))]);
    again.vm_rss_kb = 128;
    let second = ProcessIngest::new_from_old(first, &again).unwrap();
    assert_eq!(second.name, b"sh");
    assert_eq!(second.vm_rss_kb, 128);
    assert_eq!(second.by_tid.get(&5).unwrap().user_time_ms, 3);
}

#[test]
fn processes_that_were_not_read_are_dropped() {
    let mut ingest = ProcIngest::new();
    ingest.update(&vec![
        process(30, Some("c"), vec![(30, reading(1, 0, 0, 0, 0))]),
        process(10, Some("a"), vec![(10, reading(1, 0, 0, 0, 0))]),
        process(20, Some("b"), vec![(20, reading(1, 0, 0, 0, 0))]),
    ]);
    assert_eq!(ingest.by_pid.len(), 3);
    // walked by ascending id
    assert_eq!(ingest.by_pid.keys().copied().collect::<Vec<u32>>(), vec![10, 20, 30]);
    ingest.update(&vec![
        process(20, None, vec![(20, reading(5, 0, 0, 0, 0))]),
        process(40, None, vec![(40, reading(1, 0, 0, 0, 0))]),
        process(50, Some("e"), vec![]),
    ]);
    assert_eq!(ingest.by_pid.len(), 2);
    assert!(ingest.by_pid.get(&10).is_none());
    assert_eq!(ingest.by_pid.get(&20).unwrap().name, b"b");
    assert_eq!(ingest.by_pid.get(&20).unwrap().by_tid.get(&20).unwrap().user_time_ms, 4);
    // a new process that came without its identity is left out
    assert!(ingest.by_pid.get(&40).is_none());
    assert_eq!(ingest.by_pid.get(&50).unwrap().name, b"e");
}
