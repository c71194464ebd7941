use ingest::info::{Lsid, ProcInfo, ProcSortBy, ProcStat};
use ingest::ingest::{ProcIngest, ProcessReading, ThreadReading};
use ingest::text::ParseError;
use ingest::users::{GroupInfo, UserInfo, UserKind};

const PASSWD: &[u8] = b"root:x:0:0:root:/root:/bin/bash
daemon:x:1:1:daemon:/usr/sbin:/usr/sbin/nologin
alice:x:1000:100:Alice Example,,,:/home/alice:/bin/zsh
";

const GROUP: &[u8] = b"root:x:0:
users:x:100:alice,bob
";

fn thread(sid: u32, user: u64, system: u64, read: u64, write: u64) -> ThreadReading {
    ThreadReading {
        sid,
        cumulative_user_time_ms: user,
        cumulative_system_time_ms: system,
        cumulative_guest_time_ms: 0,
        cumulative_read_bytes: read,
        cumulative_write_bytes: write,
    }
}

fn process(
    pid: u32,
    name: &str,
    cmdline: Option<&str>,
    rss: u64,
    threads: Vec<(u32, ThreadReading)>,
) -> ProcessReading {
    ProcessReading {
        pid,
        identity: Some((cmdline.is_none(), name.as_bytes().to_vec(), cmdline.map(|c| c.as_bytes().to_vec()))),
        uid: 0,
        gid: 0,
        vm_rss_kb: rss,
        threads,
    }
}

/// Five processes in three sessions: the kernel's (0), 100 and 200.
fn sample() -> ProcIngest {
    let mut ingest = ProcIngest::new();
    ingest.update(&vec![
        process(2, "[kthreadd]", None, 0, vec![(2, thread(0, 10, 5, 0, 0))]),
        process(100, "zsh", Some("/bin/zsh"), 8, vec![(100, thread(100, 100, 50, 1000, 10))]),
        process(
            150,
            "cargo",
            Some("cargo build"),
            300,
            vec![(150, thread(100, 4000, 200, 50, 900)), (151, thread(100, 3000, 100, 20, 100)), (152, thread(999, 1, 1, 1, 1))],
        ),
        process(200, "bash", Some("-bash"), 4, vec![(200, thread(200, 20, 20, 7, 3))]),
        process(3, "[rcu_gp]", None, 0, vec![(3, thread(0, 0, 1, 0, 0))]),
    ]);
    ingest
}

fn tids(info: &ProcInfo) -> Vec<u32> {
    info.threads().iter().map(|t| t.tid).collect()
}

fn pids(info: &ProcInfo) -> Vec<u32> {
    info.processes().iter().map(|p| p.pid).collect()
}

fn sids(info: &ProcInfo) -> Vec<u32> {
    info.sessions().iter().map(|s| s.sid).collect()
}

fn lsids(info: &ProcInfo) -> Vec<Lsid> {
    info.login_sessions().iter().map(|l| l.lsid).collect()
}

fn built() -> ProcInfo {
    let mut info = ProcInfo::new(PASSWD, GROUP).unwrap();
    info.update(&sample());
    info
}

#[test]
fn a_new_tree_is_empty_and_sorted_by_id() {
    let info = ProcInfo::new(PASSWD, GROUP).unwrap();
    assert_eq!(info.get_sort_by(), ProcSortBy::Id);
    assert!(info.threads().is_empty());
    assert!(info.processes().is_empty());
    assert!(info.sessions().is_empty());
    assert!(info.login_sessions().is_empty());
    assert_eq!(info.strings().len(), 0);
    assert_eq!(info.uid_to_user().len(), 3);
    assert_eq!(info.uid_to_user().get(&1000).unwrap().name, b"alice");
    assert_eq!(info.gid_to_group().len(), 2);
    assert_eq!(info.gid_to_group().get(&100).unwrap().users, vec![b"alice".to_vec(), b"bob".to_vec()]);
}

#[test]
fn a_tree_needs_well_formed_users_and_groups() {
    assert!(matches!(ProcInfo::new(b"root:x:0\n", GROUP), Err(ParseError::MissingField)));
    assert!(matches!(ProcInfo::new(PASSWD, b"root:x:zero:\n"), Err(ParseError::InvalidNumber)));
    assert!(matches!(ProcInfo::new(b"a:x:y:0:d:h:s\n", b"root:x\n"), Err(ParseError::InvalidNumber)));
}

#[test]
fn passwd_lines_tell_root_users_and_nologin_apart() {
    let root = UserInfo::new(b"root:x:0:0:root:/root:/usr/sbin/nologin").unwrap();
    assert_eq!(root.kind, UserKind::Root);
    let daemon = UserInfo::new(b"daemon:x:1:1:daemon:/usr/sbin:/usr/sbin/nologin").unwrap();
    assert_eq!(daemon.kind, UserKind::Nologin);
    let alice = UserInfo::new(b" alice:x:1000:100:Alice Example,,,:/home/alice:/bin/zsh \n").unwrap();
    assert_eq!(alice.kind, UserKind::User);
    assert_eq!(alice.name, b"alice");
    assert_eq!(alice.uid, 1000);
    assert_eq!(alice.gid, 100);
    assert_eq!(alice.description, b"Alice Example,,,");
    assert!(matches!(UserInfo::new(b"alice:x:1000:100:d:/home"), Err(ParseError::MissingField)));
    assert!(matches!(UserInfo::new(b"alice:x:70000:100:d:/home:/bin/sh"), Err(ParseError::InvalidNumber)));
}

#[test]
fn group_lines_list_their_members() {
    let g = GroupInfo::new(b"users:x:100:alice,bob").unwrap();
    assert_eq!(g.name, b"users");
    assert_eq!(g.gid, 100);
    assert_eq!(g.users, vec![b"alice".to_vec(), b"bob".to_vec()]);
    let empty = GroupInfo::new(b"root:x:0:").unwrap();
    assert_eq!(empty.users, vec![b"".to_vec()]);
    assert!(matches!(GroupInfo::new(b"root:x:0"), Err(ParseError::MissingField)));
    assert!(matches!(GroupInfo::new(b"root:x:-1:"), Err(ParseError::InvalidNumber)));
}

#[test]
fn statistics_add_and_cap() {
    let a = ProcStat {
        guest_time_millis: 1,
        user_time_millis: u32::MAX - 1,
        system_time_millis: 3,
        disk_read_bytes_per_second: 4,
        disk_write_bytes_per_second: u64::MAX,
        mem_bytes: 6,
    };
    let b = ProcStat {
        guest_time_millis: 10,
        user_time_millis: 20,
        system_time_millis: 30,
        disk_read_bytes_per_second: 40,
        disk_write_bytes_per_second: 50,
        mem_bytes: 60,
    };
    let sum = a.add(b);
    assert_eq!(sum.guest_time_millis, 11);
    assert_eq!(sum.user_time_millis, u32::MAX);
    assert_eq!(sum.system_time_millis, 33);
    assert_eq!(sum.disk_read_bytes_per_second, 44);
    assert_eq!(sum.disk_write_bytes_per_second, u64::MAX);
    assert_eq!(sum.mem_bytes, 66);
    assert_eq!(ProcStat::zero().add(b), b);
}

#[test]
fn threads_carry_the_name_of_their_process() {
    let info = built();
    assert_eq!(tids(&info), vec![2, 3, 100, 150, 151, 152, 200]);
    let names: Vec<&[u8]> = info.threads().iter().map(|t| info.strings().get(t.name)).collect();
    assert_eq!(
        names,
        vec![&b"[kthreadd]"[..], &b"[rcu_gp]"[..], &b"zsh"[..], &b"cargo"[..], &b"cargo"[..], &b"cargo"[..], &b"bash"[..]]
    );
    let t = &info.threads()[3];
    assert_eq!(t.parent_pid, 150);
    assert_eq!(t.stat.user_time_millis, 4000);
    assert_eq!(t.stat.system_time_millis, 200);
    assert_eq!(t.stat.disk_read_bytes_per_second, 50);
    assert_eq!(t.stat.disk_write_bytes_per_second, 900);
    assert_eq!(t.stat.mem_bytes, 300 * 1024);
}

#[test]
fn thread_statistics_sum_into_their_process() {
    let info = built();
    assert_eq!(pids(&info), vec![2, 3, 100, 150, 200]);
    let cargo = &info.processes()[3];
    assert_eq!(info.strings().get(cargo.name), b"cargo");
    assert_eq!(cargo.cmdline, Some(b"cargo build".to_vec()));
    assert_eq!(cargo.stat.user_time_millis, 7001);
    assert_eq!(cargo.stat.system_time_millis, 301);
    assert_eq!(cargo.stat.disk_read_bytes_per_second, 71);
    assert_eq!(cargo.stat.disk_write_bytes_per_second, 1001);
    // the memory is that of the process, not the sum over its threads
    assert_eq!(cargo.stat.mem_bytes, 300 * 1024);
    // the session is that of the first thread
    assert_eq!(cargo.parent_sid, 100);
}

#[test]
fn processes_are_grouped_into_sessions() {
    let info = built();
    assert_eq!(sids(&info), vec![0, 100, 200]);
    let kernel = &info.sessions()[0];
    assert_eq!(kernel.parent_lsid, Lsid::Kernel);
    assert_eq!(info.strings().get(kernel.name), b"[kthreadd]");
    assert_eq!(kernel.entries_cmdline, b"");
    assert_eq!(kernel.stat.user_time_millis, 10);
    assert_eq!(kernel.stat.system_time_millis, 6);
    let s100 = &info.sessions()[1];
    assert_eq!(s100.parent_lsid, Lsid::SystemdServices);
    assert_eq!(info.strings().get(s100.name), b"zsh");
    assert_eq!(s100.entries_cmdline, b"/bin/zsh\ncargo build");
    assert_eq!(s100.stat.user_time_millis, 7101);
    assert_eq!(s100.stat.mem_bytes, 308 * 1024);
    let s200 = &info.sessions()[2];
    assert_eq!(s200.entries_cmdline, b"-bash");
}

#[test]
fn sessions_are_grouped_into_two_login_sessions() {
    let info = built();
    assert_eq!(lsids(&info), vec![Lsid::Kernel, Lsid::SystemdServices]);
    assert_eq!(info.login_sessions()[0].stat.user_time_millis, 10);
    assert_eq!(info.login_sessions()[0].stat.system_time_millis, 6);
    assert_eq!(info.login_sessions()[1].stat.user_time_millis, 7121);
    assert_eq!(info.login_sessions()[1].stat.disk_read_bytes_per_second, 1078);
    assert_eq!(info.login_sessions()[1].stat.mem_bytes, 312 * 1024);
}

#[test]
fn an_empty_ingest_gives_two_empty_login_sessions() {
    let mut info = built();
    info.update(&ProcIngest::new());
    assert!(info.threads().is_empty());
    assert!(info.processes().is_empty());
    assert!(info.sessions().is_empty());
    assert_eq!(info.strings().len(), 0);
    assert_eq!(lsids(&info), vec![Lsid::Kernel, Lsid::SystemdServices]);
    assert_eq!(info.login_sessions()[0].stat, ProcStat::zero());
}

#[test]
fn a_process_without_threads_is_left_out() {
    let mut ingest = ProcIngest::new();
    ingest.update(&vec![
        process(5, "first", Some("first"), 1, vec![(5, thread(50, 10, 0, 0, 0))]),
        process(7, "gone", Some("gone"), 1, vec![]),
        process(9, "last", Some("last"), 1, vec![(9, thread(90, 20, 0, 0, 0))]),
    ]);
    assert_eq!(ingest.by_pid.len(), 3);
    let mut info = ProcInfo::new(b"", b"").unwrap();
    info.update(&ingest);
    assert_eq!(pids(&info), vec![5, 9]);
    assert_eq!(tids(&info), vec![5, 9]);
    assert_eq!(sids(&info), vec![50, 90]);
    assert_eq!(info.strings().len(), 2);
    let names: Vec<&[u8]> = info.processes().iter().map(|p| info.strings().get(p.name)).collect();
    assert_eq!(names, vec![&b"first"[..], &b"last"[..]]);
    let names: Vec<&[u8]> = info.threads().iter().map(|t| info.strings().get(t.name)).collect();
    assert_eq!(names, vec![&b"first"[..], &b"last"[..]]);
    assert_eq!(info.login_sessions()[0].stat, ProcStat::zero());
    assert_eq!(info.login_sessions()[1].stat.user_time_millis, 30);
}

#[test]
fn sorting_by_name_breaks_ties_by_id() {
    let mut info = built();
    info.sort(ProcSortBy::Name);
    assert_eq!(info.get_sort_by(), ProcSortBy::Name);
    // "[kthreadd]" < "[rcu_gp]" < "bash" < "cargo" < "zsh"
    assert_eq!(pids(&info), vec![2, 3, 200, 150, 100]);
    assert_eq!(tids(&info), vec![2, 3, 200, 150, 151, 152, 100]);
    assert_eq!(sids(&info), vec![0, 200, 100]);
    assert_eq!(lsids(&info), vec![Lsid::Kernel, Lsid::SystemdServices]);
}

#[test]
fn sorting_by_cpu_puts_the_heaviest_first() {
    let mut info = built();
    info.sort(ProcSortBy::Cpu);
    assert_eq!(pids(&info), vec![150, 100, 200, 2, 3]);
    assert_eq!(tids(&info), vec![150, 151, 100, 200, 2, 152, 3]);
    assert_eq!(sids(&info), vec![100, 200, 0]);
    assert_eq!(lsids(&info), vec![Lsid::SystemdServices, Lsid::Kernel]);
}

#[test]
fn sorting_by_disk_and_memory() {
    let mut info = built();
    info.sort(ProcSortBy::DiskRead);
    assert_eq!(pids(&info), vec![100, 150, 200, 2, 3]);
    info.sort(ProcSortBy::DiskWrite);
    assert_eq!(pids(&info), vec![150, 100, 200, 2, 3]);
    info.sort(ProcSortBy::Memory);
    assert_eq!(pids(&info), vec![150, 100, 200, 2, 3]);
    assert_eq!(tids(&info), vec![150, 151, 152, 100, 200, 2, 3]);
}

#[test]
fn update_keeps_the_sort_key() {
    let mut info = built();
    info.sort(ProcSortBy::Cpu);
    info.update(&sample());
    assert_eq!(info.get_sort_by(), ProcSortBy::Cpu);
    assert_eq!(pids(&info), vec![150, 100, 200, 2, 3]);
}

#[test]
fn sorting_twice_by_one_key_changes_nothing() {
    for by in [
        ProcSortBy::Id,
        ProcSortBy::Name,
        ProcSortBy::Cpu,
        ProcSortBy::DiskRead,
        ProcSortBy::DiskWrite,
        ProcSortBy::Memory,
    ] {
        let mut info = built();
        info.sort(by);
        let once = (tids(&info), pids(&info), sids(&info), lsids(&info));
        info.sort(by);
        assert_eq!((tids(&info), pids(&info), sids(&info), lsids(&info)), once);
    }
}

#[test]
fn id_name_id_gives_the_order_by_id_back() {
    let mut info = built();
    let by_id = (tids(&info), pids(&info), sids(&info), lsids(&info));
    info.sort(ProcSortBy::Name);
    assert_ne!(pids(&info), by_id.1);
    info.sort(ProcSortBy::Id);
    assert_eq!((tids(&info), pids(&info), sids(&info), lsids(&info)), by_id);
}

/// A small generator of numbers that look scattered.
fn scatter(seed: &mut u64) -> u64 {
    *seed = seed.wrapping_mul(6364136223846793005).wrapping_add(1442695040888963407);
    *seed >> 33
}

#[test]
fn sorting_agrees_with_the_stable_sort_of_std() {
    let mut seed = 7;
    let mut readings = Vec::new();
    for pid in 1..40u32 {
        let mut threads = Vec::new();
        // thread ids repeat across processes, so that rows tie on their id
        for tid in 0..(1 + scatter(&mut seed) % 4) as u32 {
            threads.push((
                tid,
                thread(
                    (scatter(&mut seed) % 3) as u32 * 100,
                    scatter(&mut seed) % 4 * 10,
                    scatter(&mut seed) % 3 * 10,
                    scatter(&mut seed) % 3,
                    scatter(&mut seed) % 3,
                ),
            ));
        }
        let name = format!("p{}", scatter(&mut seed) % 5);
        readings.push(process(pid, &name, Some("x"), scatter(&mut seed) % 4, threads));
    }
    let mut ingest = ProcIngest::new();
    ingest.update(&readings);
    let mut info = ProcInfo::new(b"", b"").unwrap();
    info.update(&ingest);

    // (tid, parent pid) stands for a thread; the model starts in the order of the tree
    let mut model: Vec<(u32, u32)> = info.threads().iter().map(|t| (t.tid, t.parent_pid)).collect();
    let mut process_model: Vec<u32> = pids(&info);
    let steps = [
        ProcSortBy::Name,
        ProcSortBy::Cpu,
        ProcSortBy::Id,
        ProcSortBy::Memory,
        ProcSortBy::DiskRead,
        ProcSortBy::Name,
        ProcSortBy::DiskWrite,
        ProcSortBy::Id,
    ];
    for by in steps {
        let key_of_thread = |row: &(u32, u32)| {
            let t = info.threads().iter().find(|t| (t.tid, t.parent_pid) == *row).unwrap();
            let name = info.strings().get(t.name).to_vec();
            match by {
                ProcSortBy::Id => (Vec::new(), 0, t.tid),
                ProcSortBy::Name => (name, 0, t.tid),
                ProcSortBy::Cpu => (
                    Vec::new(),
                    (u32::MAX - t.stat.user_time_millis - t.stat.system_time_millis) as u64,
                    t.tid,
                ),
                ProcSortBy::DiskRead => (Vec::new(), u64::MAX - t.stat.disk_read_bytes_per_second, t.tid),
                ProcSortBy::DiskWrite => (Vec::new(), u64::MAX - t.stat.disk_write_bytes_per_second, t.tid),
                ProcSortBy::Memory => (Vec::new(), u64::MAX - t.stat.mem_bytes, t.tid),
            }
        };
        let thread_keys: Vec<_> = model.iter().map(key_of_thread).collect();
        let mut order: Vec<usize> = (0..model.len()).collect();
        order.sort_by_key(|&i| thread_keys[i].clone());
        model = order.iter().map(|&i| model[i]).collect();

        let key_of_process = |pid: &u32| {
            let p = info.processes().iter().find(|p| p.pid == *pid).unwrap();
            let name = info.strings().get(p.name).to_vec();
            match by {
                ProcSortBy::Id => (Vec::new(), 0, p.pid),
                ProcSortBy::Name => (name, 0, p.pid),
                ProcSortBy::Cpu => (
                    Vec::new(),
                    (u32::MAX - p.stat.user_time_millis - p.stat.system_time_millis) as u64,
                    p.pid,
                ),
                ProcSortBy::DiskRead => (Vec::new(), u64::MAX - p.stat.disk_read_bytes_per_second, p.pid),
                ProcSortBy::DiskWrite => (Vec::new(), u64::MAX - p.stat.disk_write_bytes_per_second, p.pid),
                ProcSortBy::Memory => (Vec::new(), u64::MAX - p.stat.mem_bytes, p.pid),
            }
        };
        let process_keys: Vec<_> = process_model.iter().map(key_of_process).collect();
        let mut order: Vec<usize> = (0..process_model.len()).collect();
        order.sort_by_key(|&i| process_keys[i].clone());
        process_model = order.iter().map(|&i| process_model[i]).collect();

        info.sort(by);
        let threads: Vec<(u32, u32)> = info.threads().iter().map(|t| (t.tid, t.parent_pid)).collect();
        assert_eq!(threads, model, "{:?}", by);
        assert_eq!(pids(&info), process_model, "{:?}", by);
    }
}

#[test]
fn rows_that_tie_on_their_id_keep_the_order_they_had() {
    let mut ingest = ProcIngest::new();
    ingest.update(&vec![
        process(1, "zsh", Some("zsh"), 1, vec![(5, thread(1, 0, 0, 0, 0))]),
        process(2, "bash", Some("bash"), 1, vec![(5, thread(2, 0, 0, 0, 0))]),
    ]);
    let mut info = ProcInfo::new(b"", b"").unwrap();
    info.update(&ingest);
    let parents = |info: &ProcInfo| -> Vec<u32> { info.threads().iter().map(|t| t.parent_pid).collect() };
    assert_eq!(parents(&info), vec![1, 2]);
    info.sort(ProcSortBy::Name);
    assert_eq!(parents(&info), vec![2, 1]);
    // both threads have the id 5: sorting by id leaves them as the names put them
    info.sort(ProcSortBy::Id);
    assert_eq!(parents(&info), vec![2, 1]);
}
