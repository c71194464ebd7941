//! Per-process and per-thread counters carried from tick to tick.

use std::collections::BTreeMap;
use crate::text::lemma_contains_push;
use vstd::prelude::*;

verus! {

/// What a cumulative counter grew by since the previous reading; zero where the
/// counter was reset and reads lower than before.
pub open spec fn spec_delta(new: u64, old: u64) -> u64 {
    if new >= old {
        (new - old) as u64
    } else {
        0
    }
}

/// A counter that did not go down gives exactly its growth, which is not negative.
pub proof fn lemma_delta_of_growing_counter(new: u64, old: u64)
    requires
        old <= new,
    ensures
        spec_delta(new, old) == new - old,
        spec_delta(new, old) >= 0,
{
}

/// What a cumulative counter grew by since the previous reading.
pub fn delta(new: u64, old: u64) -> (r: u64)
    ensures
        r == spec_delta(new, old),
{
    new.saturating_sub(old)
}

/// The cumulative counters of one thread as read at one tick. Times are in
/// milliseconds.
#[derive(Clone, Copy, Debug, PartialEq, Eq)]
pub struct ThreadReading {
    pub sid: u32,
    pub cumulative_user_time_ms: u64,
    pub cumulative_system_time_ms: u64,
    pub cumulative_guest_time_ms: u64,
    /// Zero where the thread's I/O accounting may not be read.
    pub cumulative_read_bytes: u64,
    /// Zero where the thread's I/O accounting may not be read.
    pub cumulative_write_bytes: u64,
}

/// The counters of one thread: the cumulative values of the latest tick and what
/// they grew by in that tick.
#[derive(Clone, Copy, Debug, PartialEq, Eq)]
pub struct ThreadIngest {
    pub cumulative_read_bytes: u64,
    pub cumulative_write_bytes: u64,
    pub read_bytes: u64,
    pub write_bytes: u64,
    pub sid: u32,
    pub cumulative_user_time_ms: u64,
    pub cumulative_system_time_ms: u64,
    pub cumulative_guest_time_ms: u64,
    pub user_time_ms: u32,
    pub system_time_ms: u32,
    pub guest_time_ms: u32,
}

impl ThreadIngest {
    /// A thread that was not read yet: all counters are zero.
    pub open spec fn spec_fresh() -> ThreadIngest {
        ThreadIngest {
            cumulative_read_bytes: 0,
            cumulative_write_bytes: 0,
            read_bytes: 0,
            write_bytes: 0,
            sid: 0,
            cumulative_user_time_ms: 0,
            cumulative_system_time_ms: 0,
            cumulative_guest_time_ms: 0,
            user_time_ms: 0,
            system_time_ms: 0,
            guest_time_ms: 0,
        }
    }

    /// The thread after `reading`: the cumulative values are those of the reading,
    /// the per-tick values what they grew by since `previous`. A thread seen for
    /// the first time counts from zero. The times of a tick are cut to 32 bits.
    pub open spec fn spec_advance(previous: Option<ThreadIngest>, reading: ThreadReading)
        -> ThreadIngest {
        let old = match previous {
            Some(t) => t,
            None => Self::spec_fresh(),
        };
        ThreadIngest {
            cumulative_read_bytes: reading.cumulative_read_bytes,
            cumulative_write_bytes: reading.cumulative_write_bytes,
            read_bytes: spec_delta(reading.cumulative_read_bytes, old.cumulative_read_bytes),
            write_bytes: spec_delta(reading.cumulative_write_bytes, old.cumulative_write_bytes),
            sid: reading.sid,
            cumulative_user_time_ms: reading.cumulative_user_time_ms,
            cumulative_system_time_ms: reading.cumulative_system_time_ms,
            cumulative_guest_time_ms: reading.cumulative_guest_time_ms,
            user_time_ms: (spec_delta(reading.cumulative_user_time_ms, old.cumulative_user_time_ms)
                % 0x1_0000_0000) as u32,
            system_time_ms: (spec_delta(
                reading.cumulative_system_time_ms,
                old.cumulative_system_time_ms,
            ) % 0x1_0000_0000) as u32,
            guest_time_ms: (spec_delta(
                reading.cumulative_guest_time_ms,
                old.cumulative_guest_time_ms,
            ) % 0x1_0000_0000) as u32,
        }
    }

    /// Takes `reading` into account.
    pub fn advance(previous: Option<ThreadIngest>, reading: &ThreadReading) -> (r: ThreadIngest)
        ensures
            r == Self::spec_advance(previous, *reading),
    {
        let old: ThreadIngest = match previous {
            Some(t) => t,
            None => ThreadIngest {
                cumulative_read_bytes: 0,
                cumulative_write_bytes: 0,
                read_bytes: 0,
                write_bytes: 0,
                sid: 0,
                cumulative_user_time_ms: 0,
                cumulative_system_time_ms: 0,
                cumulative_guest_time_ms: 0,
                user_time_ms: 0,
                system_time_ms: 0,
                guest_time_ms: 0,
            },
        };
        ThreadIngest {
            cumulative_read_bytes: reading.cumulative_read_bytes,
            cumulative_write_bytes: reading.cumulative_write_bytes,
            read_bytes: delta(reading.cumulative_read_bytes, old.cumulative_read_bytes),
            write_bytes: delta(reading.cumulative_write_bytes, old.cumulative_write_bytes),
            sid: reading.sid,
            cumulative_user_time_ms: reading.cumulative_user_time_ms,
            cumulative_system_time_ms: reading.cumulative_system_time_ms,
            cumulative_guest_time_ms: reading.cumulative_guest_time_ms,
            user_time_ms: (delta(reading.cumulative_user_time_ms, old.cumulative_user_time_ms)
                % 0x1_0000_0000) as u32,
            system_time_ms: (delta(reading.cumulative_system_time_ms, old.cumulative_system_time_ms)
                % 0x1_0000_0000) as u32,
            guest_time_ms: (delta(reading.cumulative_guest_time_ms, old.cumulative_guest_time_ms)
                % 0x1_0000_0000) as u32,
        }
    }

    /// The threads of a process after the readings of one tick. Only the threads that
    /// were read stay. A thread that `old` knows continues from its counters; where
    /// an id is read twice, the later reading counts, from zero.
    pub open spec fn spec_new_by_tid(
        old: Map<u32, ThreadIngest>,
        readings: Seq<(u32, ThreadReading)>,
    ) -> Map<u32, ThreadIngest>
        decreases readings.len(),
    {
        if readings.len() == 0 {
            Map::empty()
        } else {
            let before = Self::spec_new_by_tid(old, readings.drop_last());
            let tid = readings.last().0;
            let previous = if old.contains_key(tid) && !before.contains_key(tid) {
                Some(old[tid])
            } else {
                None
            };
            before.insert(tid, Self::spec_advance(previous, readings.last().1))
        }
    }

    /// Builds the threads of a process from the readings of one tick.
    pub fn new_by_tid(old: BTreeMap<u32, ThreadIngest>, readings: &Vec<(u32, ThreadReading)>) -> (r: BTreeMap<
        u32,
        ThreadIngest,
    >)
        ensures
            r@ == Self::spec_new_by_tid(old@, readings@),
    {
        let mut old = old;
        let ghost old0 = old@;
        let mut ret: BTreeMap<u32, ThreadIngest> = BTreeMap::new();
        let mut i: usize = 0;
        assert(readings@.subrange(0, 0) =~= Seq::<(u32, ThreadReading)>::empty());
        assert(old@ =~= old0.remove_keys(ret@.dom()));
        while i < readings.len()
            invariant
                i <= readings@.len(),
                ret@ == Self::spec_new_by_tid(old0, readings@.subrange(0, i as int)),
                old@ == old0.remove_keys(ret@.dom()),
            decreases readings@.len() - i,
        {
            assert(readings@.subrange(0, i + 1).drop_last() =~= readings@.subrange(0, i as int));
            assert(readings@.subrange(0, i + 1).last() == readings@[i as int]);
            let ghost before = ret@;
            let ghost rest = old@;
            let tid: u32 = readings[i].0;
            let previous: Option<ThreadIngest> = old.remove(&tid);
            let next: ThreadIngest = ThreadIngest::advance(previous, &readings[i].1);
            let _ = ret.insert(tid, next);
            assert(old@ =~= old0.remove_keys(ret@.dom()));
            i += 1;
        }
        assert(readings@.subrange(0, i as int) =~= readings@);
        ret
    }
}

/// What is known of one process.
#[derive(Debug)]
pub struct ProcessIngest {
    /// Whether the process is a kernel thread.
    pub kernel: bool,
    pub name: Vec<u8>,
    /// The command line, which a kernel thread lacks.
    pub cmdline: Option<Vec<u8>>,
    pub by_tid: BTreeMap<u32, ThreadIngest>,
    pub uid: u16,
    pub gid: u16,
    pub vm_rss_kb: u64,
}

/// A process as a mathematical value.
pub struct ProcessIngestModel {
    pub kernel: bool,
    pub name: Seq<u8>,
    pub cmdline: Option<Seq<u8>>,
    pub by_tid: Map<u32, ThreadIngest>,
    pub uid: u16,
    pub gid: u16,
    pub vm_rss_kb: u64,
}

impl DeepView for ProcessIngest {
    type V = ProcessIngestModel;

    open spec fn deep_view(&self) -> ProcessIngestModel {
        ProcessIngestModel {
            kernel: self.kernel,
            name: self.name@,
            cmdline: match self.cmdline {
                Some(c) => Some(c@),
                None => None,
            },
            by_tid: self.by_tid@,
            uid: self.uid,
            gid: self.gid,
            vm_rss_kb: self.vm_rss_kb,
        }
    }
}

/// What was read of one process at one tick.
#[derive(Debug)]
pub struct ProcessReading {
    pub pid: u32,
    /// Whether the process is a kernel thread, its name and its command line.
    /// They are read once, when the process is first seen.
    pub identity: Option<(bool, Vec<u8>, Option<Vec<u8>>)>,
    pub uid: u16,
    pub gid: u16,
    pub vm_rss_kb: u64,
    /// The threads of the process by their ids.
    pub threads: Vec<(u32, ThreadReading)>,
}

impl ProcessIngest {
    /// The process after `reading`. A process that is known keeps what it is; one
    /// that is new takes it from the reading, and is left out where the reading
    /// lacks it. Either way the figures of the reading replace the old ones.
    pub open spec fn spec_new_from_old(old: Option<ProcessIngestModel>, reading: ProcessReading)
        -> Option<ProcessIngestModel> {
        match old {
            Some(p) => Some(
                ProcessIngestModel {
                    kernel: p.kernel,
                    name: p.name,
                    cmdline: p.cmdline,
                    by_tid: ThreadIngest::spec_new_by_tid(p.by_tid, reading.threads@),
                    uid: reading.uid,
                    gid: reading.gid,
                    vm_rss_kb: reading.vm_rss_kb,
                },
            ),
            None => match reading.identity {
                Some(identity) => Some(
                    ProcessIngestModel {
                        kernel: identity.0,
                        name: identity.1@,
                        cmdline: match identity.2 {
                            Some(c) => Some(c@),
                            None => None,
                        },
                        by_tid: ThreadIngest::spec_new_by_tid(Map::empty(), reading.threads@),
                        uid: reading.uid,
                        gid: reading.gid,
                        vm_rss_kb: reading.vm_rss_kb,
                    },
                ),
                None => None,
            },
        }
    }

    /// Takes `reading` into account.
    pub fn new_from_old(old: Option<ProcessIngest>, reading: &ProcessReading) -> (r: Option<
        ProcessIngest,
    >)
        ensures
            match r {
                Some(p) => Some(p.deep_view()) == Self::spec_new_from_old(
                    match old {
                        Some(o) => Some(o.deep_view()),
                        None => None,
                    },
                    *reading,
                ),
                None => Self::spec_new_from_old(
                    match old {
                        Some(o) => Some(o.deep_view()),
                        None => None,
                    },
                    *reading,
                ) is None,
            },
    {
        match old {
            Some(p) => Some(
                ProcessIngest {
                    kernel: p.kernel,
                    name: p.name,
                    cmdline: p.cmdline,
                    by_tid: ThreadIngest::new_by_tid(p.by_tid, &reading.threads),
                    uid: reading.uid,
                    gid: reading.gid,
                    vm_rss_kb: reading.vm_rss_kb,
                },
            ),
            None => match &reading.identity {
                Some(identity) => {
                    let name: Vec<u8> = identity.1.clone();
                    assert(name@ =~= identity.1@);
                    let cmdline: Option<Vec<u8>> = match &identity.2 {
                        Some(c) => {
                            let copy: Vec<u8> = c.clone();
                            assert(copy@ =~= c@);
                            Some(copy)
                        },
                        None => None,
                    };
                    Some(
                        ProcessIngest {
                            kernel: identity.0,
                            name,
                            cmdline,
                            by_tid: ThreadIngest::new_by_tid(BTreeMap::new(), &reading.threads),
                            uid: reading.uid,
                            gid: reading.gid,
                            vm_rss_kb: reading.vm_rss_kb,
                        },
                    )
                },
                None => None,
            },
        }
    }
}

/// What is known of all processes.
#[derive(Debug)]
pub struct ProcIngest {
    pub by_pid: BTreeMap<u32, ProcessIngest>,
}

/// The ids of the processes that `readings` are about.
pub open spec fn pids_of(readings: Seq<ProcessReading>) -> Seq<u32> {
    readings.map_values(|r: ProcessReading| r.pid)
}

impl ProcIngest {
    /// The processes by their ids, as mathematical values.
    pub open spec fn model(&self) -> Map<u32, ProcessIngestModel> {
        self.by_pid@.map_values(|p: ProcessIngest| p.deep_view())
    }

    /// The processes after the readings of one tick. Only the processes that were
    /// read stay. A process that `old` knows continues from what is known of it;
    /// where an id is read twice, the later reading is that of a new process.
    pub open spec fn spec_update(old: Map<u32, ProcessIngestModel>, readings: Seq<ProcessReading>)
        -> Map<u32, ProcessIngestModel>
        decreases readings.len(),
    {
        if readings.len() == 0 {
            Map::empty()
        } else {
            let before = Self::spec_update(old, readings.drop_last());
            let pid = readings.last().pid;
            let previous = if old.contains_key(pid) && !pids_of(readings.drop_last()).contains(
                pid,
            ) {
                Some(old[pid])
            } else {
                None
            };
            match ProcessIngest::spec_new_from_old(previous, readings.last()) {
                Some(p) => before.insert(pid, p),
                None => before,
            }
        }
    }

    /// No process is known yet.
    pub fn new() -> (r: Self)
        ensures
            r.model() == Map::<u32, ProcessIngestModel>::empty(),
    {
        let r = ProcIngest { by_pid: BTreeMap::new() };
        assert(r.model() =~= Map::<u32, ProcessIngestModel>::empty());
        r
    }

    /// Replaces what is known by what follows from the readings of one tick.
    pub fn update(&mut self, readings: &Vec<ProcessReading>)
        ensures
            final(self).model() == Self::spec_update(old(self).model(), readings@),
    {
        let ghost old0 = self.model();
        let mut old: BTreeMap<u32, ProcessIngest> = BTreeMap::new();
        std::mem::swap(&mut self.by_pid, &mut old);
        let mut ret: BTreeMap<u32, ProcessIngest> = BTreeMap::new();
        let mut i: usize = 0;
        let ghost view = |p: ProcessIngest| p.deep_view();
        proof {
            assert(readings@.subrange(0, 0) =~= Seq::<ProcessReading>::empty());
            assert(ret@.map_values(view) =~= Map::<u32, ProcessIngestModel>::empty());
            assert(old@.map_values(view) =~= old0.remove_keys(
                pids_of(readings@.subrange(0, 0)).to_set(),
            ));
        }
        while i < readings.len()
            invariant
                i <= readings@.len(),
                view == |p: ProcessIngest| p.deep_view(),
                ret@.map_values(view) == Self::spec_update(old0, readings@.subrange(0, i as int)),
                old@.map_values(view) == old0.remove_keys(
                    pids_of(readings@.subrange(0, i as int)).to_set(),
                ),
            decreases readings@.len() - i,
        {
            let ghost init = readings@.subrange(0, i as int);
            let ghost now = readings@.subrange(0, i + 1);
            assert(now.drop_last() =~= init);
            assert(now.last() == readings@[i as int]);
            let ghost before = ret@;
            let ghost rest = old@;
            let pid: u32 = readings[i].pid;
            let previous: Option<ProcessIngest> = old.remove(&pid);
            proof {
                assert(rest.map_values(view).contains_key(pid) == rest.contains_key(pid));
                assert(pids_of(init).to_set().contains(pid) == pids_of(init).contains(pid));
                if rest.contains_key(pid) {
                    assert(rest.map_values(view)[pid] == rest[pid].deep_view());
                }
                assert(pids_of(now) =~= pids_of(init).push(pid));
                assert(pids_of(now).to_set() =~= pids_of(init).to_set().insert(pid)) by {
                    assert forall|q: u32|
                        pids_of(now).to_set().contains(q) <==> pids_of(init).to_set().insert(
                            pid,
                        ).contains(q) by {
                        lemma_contains_push(pids_of(init), pid, q);
                    }
                }
                assert(old@ == rest.remove(pid));
                assert(old@.map_values(view) =~= rest.map_values(view).remove(pid));
                assert(old0.remove_keys(pids_of(init).to_set()).remove(pid) =~= old0.remove_keys(
                    pids_of(init).to_set().insert(pid),
                ));
                assert(old@.map_values(view) =~= old0.remove_keys(pids_of(now).to_set()));
            }
            match ProcessIngest::new_from_old(previous, &readings[i]) {
                Some(p) => {
                    let ghost model = p.deep_view();
                    let _ = ret.insert(pid, p);
                    assert(ret@.map_values(view) =~= before.map_values(view).insert(pid, model));
                },
                None => {},
            }
            i += 1;
        }
        assert(readings@.subrange(0, i as int) =~= readings@);
        self.by_pid = ret;
    }
}

} // verus!
