//! The process tree: threads, processes, sessions and login sessions with their
//! summed statistics, in a selectable order.

use crate::arena::{StringArena, StringArenaHandle};
use std::collections::HashMap;
use crate::ingest::{ProcIngest, ProcessIngest, ThreadIngest};
use crate::names::{compare, Rank};
use crate::text::{lines, lines_of, views, ParseError};
use crate::walk::{ascending_keys, entries, value_at};
use crate::users::{GroupInfo, GroupInfoModel, UserInfo, UserInfoModel};
use crate::rows::{
    all_named_in, key_le, lemma_sort_commutes, lemma_stable_sort, row_key, sort_rows, sorted,
    stable_sort, Row, RowOrder, SortKey,
};
use vstd::prelude::*;

verus! {

/// What the rows of the process tables are sorted by.
#[derive(Debug, Clone, Copy, PartialEq, Eq)]
pub enum ProcSortBy {
    Id,
    Name,
    Cpu,
    DiskRead,
    DiskWrite,
    Memory,
}

impl ProcSortBy {
    /// The order of rows that the choice stands for.
    pub open spec fn spec_order(self) -> RowOrder {
        match self {
            ProcSortBy::Id => RowOrder::Id,
            ProcSortBy::Name => RowOrder::Name,
            ProcSortBy::Cpu => RowOrder::Cpu,
            ProcSortBy::DiskRead => RowOrder::DiskRead,
            ProcSortBy::DiskWrite => RowOrder::DiskWrite,
            ProcSortBy::Memory => RowOrder::Memory,
        }
    }

    /// The order of rows that the choice stands for.
    pub fn order(self) -> (r: RowOrder)
        ensures
            r == self.spec_order(),
    {
        match self {
            ProcSortBy::Id => RowOrder::Id,
            ProcSortBy::Name => RowOrder::Name,
            ProcSortBy::Cpu => RowOrder::Cpu,
            ProcSortBy::DiskRead => RowOrder::DiskRead,
            ProcSortBy::DiskWrite => RowOrder::DiskWrite,
            ProcSortBy::Memory => RowOrder::Memory,
        }
    }

    /// Whether two choices are the same.
    pub fn same(self, other: ProcSortBy) -> (r: bool)
        ensures
            r == (self == other),
    {
        match (self, other) {
            (ProcSortBy::Id, ProcSortBy::Id) => true,
            (ProcSortBy::Name, ProcSortBy::Name) => true,
            (ProcSortBy::Cpu, ProcSortBy::Cpu) => true,
            (ProcSortBy::DiskRead, ProcSortBy::DiskRead) => true,
            (ProcSortBy::DiskWrite, ProcSortBy::DiskWrite) => true,
            (ProcSortBy::Memory, ProcSortBy::Memory) => true,
            _ => false,
        }
    }
}

/// Resource use of a thread, or the sum over a group of them, in one tick.
#[derive(Clone, Copy, Debug, PartialEq, Eq)]
pub struct ProcStat {
    pub guest_time_millis: u32,
    pub user_time_millis: u32,
    pub system_time_millis: u32,
    pub disk_read_bytes_per_second: u64,
    pub disk_write_bytes_per_second: u64,
    pub mem_bytes: u64,
}

/// The sum of `a` and `b`, or the largest `u32` where the sum is larger.
pub open spec fn capped_sum_u32(a: u32, b: u32) -> u32 {
    if a + b > u32::MAX {
        u32::MAX
    } else {
        (a + b) as u32
    }
}

/// The sum of `a` and `b`, or the largest `u64` where the sum is larger.
pub open spec fn capped_sum_u64(a: u64, b: u64) -> u64 {
    if a + b > u64::MAX {
        u64::MAX
    } else {
        (a + b) as u64
    }
}

impl ProcStat {
    /// No resource use.
    pub open spec fn spec_zero() -> ProcStat {
        ProcStat {
            guest_time_millis: 0,
            user_time_millis: 0,
            system_time_millis: 0,
            disk_read_bytes_per_second: 0,
            disk_write_bytes_per_second: 0,
            mem_bytes: 0,
        }
    }

    /// The sum of two statistics, field by field; a sum that does not fit its type
    /// is capped at the type's largest value.
    pub open spec fn spec_add(self, rhs: ProcStat) -> ProcStat {
        ProcStat {
            guest_time_millis: capped_sum_u32(self.guest_time_millis, rhs.guest_time_millis),
            user_time_millis: capped_sum_u32(self.user_time_millis, rhs.user_time_millis),
            system_time_millis: capped_sum_u32(self.system_time_millis, rhs.system_time_millis),
            disk_read_bytes_per_second: capped_sum_u64(
                self.disk_read_bytes_per_second,
                rhs.disk_read_bytes_per_second,
            ),
            disk_write_bytes_per_second: capped_sum_u64(
                self.disk_write_bytes_per_second,
                rhs.disk_write_bytes_per_second,
            ),
            mem_bytes: capped_sum_u64(self.mem_bytes, rhs.mem_bytes),
        }
    }

    /// No resource use.
    pub fn zero() -> (r: ProcStat)
        ensures
            r == Self::spec_zero(),
    {
        ProcStat {
            guest_time_millis: 0,
            user_time_millis: 0,
            system_time_millis: 0,
            disk_read_bytes_per_second: 0,
            disk_write_bytes_per_second: 0,
            mem_bytes: 0,
        }
    }

    /// The sum of two statistics.
    pub fn add(self, rhs: ProcStat) -> (r: ProcStat)
        ensures
            r == self.spec_add(rhs),
    {
        ProcStat {
            guest_time_millis: self.guest_time_millis.saturating_add(rhs.guest_time_millis),
            user_time_millis: self.user_time_millis.saturating_add(rhs.user_time_millis),
            system_time_millis: self.system_time_millis.saturating_add(rhs.system_time_millis),
            disk_read_bytes_per_second: self.disk_read_bytes_per_second.saturating_add(
                rhs.disk_read_bytes_per_second,
            ),
            disk_write_bytes_per_second: self.disk_write_bytes_per_second.saturating_add(
                rhs.disk_write_bytes_per_second,
            ),
            mem_bytes: self.mem_bytes.saturating_add(rhs.mem_bytes),
        }
    }
}

/// The sum of `stats`.
pub open spec fn sum_stats(stats: Seq<ProcStat>) -> ProcStat
    decreases stats.len(),
{
    if stats.len() == 0 {
        ProcStat::spec_zero()
    } else {
        sum_stats(stats.drop_last()).spec_add(stats.last())
    }
}

/// The number that a row with statistics `stat` is ordered by: nothing under the
/// orders by id and name, the session under the order by session, and otherwise
/// the distance of the resource use from the largest value, so that the heaviest
/// row comes first.
pub open spec fn order_number(order: RowOrder, stat: ProcStat, session: u64) -> u64 {
    match order {
        RowOrder::Id => 0,
        RowOrder::Name => 0,
        RowOrder::Cpu => if stat.user_time_millis + stat.system_time_millis > u32::MAX {
            0
        } else {
            (u32::MAX - stat.user_time_millis - stat.system_time_millis) as u64
        },
        RowOrder::DiskRead => (u64::MAX - stat.disk_read_bytes_per_second) as u64,
        RowOrder::DiskWrite => (u64::MAX - stat.disk_write_bytes_per_second) as u64,
        RowOrder::Memory => (u64::MAX - stat.mem_bytes) as u64,
        RowOrder::Session => session,
    }
}

/// The key of a row with the given id, name, statistics and session: the name
/// counts under the order by name only.
pub open spec fn make_key(order: RowOrder, id: u64, name: Seq<u8>, stat: ProcStat, session: u64)
    -> SortKey {
    SortKey {
        name: if order is Name {
            name
        } else {
            Seq::empty()
        },
        number: order_number(order, stat, session),
        id,
    }
}

fn number_of(order: RowOrder, stat: &ProcStat, session: u64) -> (r: u64)
    ensures
        r == order_number(order, *stat, session),
{
    match order {
        RowOrder::Id => 0,
        RowOrder::Name => 0,
        RowOrder::Cpu => {
            let left: u32 = (0xffff_ffffu32 - stat.user_time_millis).saturating_sub(
                stat.system_time_millis,
            );
            left as u64
        },
        RowOrder::DiskRead => 0xffff_ffff_ffff_ffffu64 - stat.disk_read_bytes_per_second,
        RowOrder::DiskWrite => 0xffff_ffff_ffff_ffffu64 - stat.disk_write_bytes_per_second,
        RowOrder::Memory => 0xffff_ffff_ffff_ffffu64 - stat.mem_bytes,
        RowOrder::Session => session,
    }
}

/// Whether a row with the first id, name, statistics and session may stand before
/// a row with the second.
fn in_order(
    order: RowOrder,
    a_id: u64,
    a_name: &[u8],
    a_stat: &ProcStat,
    a_session: u64,
    b_id: u64,
    b_name: &[u8],
    b_stat: &ProcStat,
    b_session: u64,
) -> (r: bool)
    ensures
        r == key_le(
            make_key(order, a_id, a_name@, *a_stat, a_session),
            make_key(order, b_id, b_name@, *b_stat, b_session),
        ),
{
    let by_name: bool = match order {
        RowOrder::Name => true,
        _ => false,
    };
    proof {
        crate::names::lemma_bytes_lt_irreflexive(Seq::<u8>::empty());
    }
    if by_name {
        match compare(a_name, b_name) {
            Rank::Before => { return true; },
            Rank::After => {
                proof {
                    crate::names::lemma_bytes_lt_total(a_name@, b_name@);
                }
                return false;
            },
            Rank::Same => {
                proof {
                    crate::names::lemma_bytes_lt_irreflexive(a_name@);
                }
            },
        }
    }
    let a: u64 = number_of(order, a_stat, a_session);
    let b: u64 = number_of(order, b_stat, b_session);
    a < b || (a == b && a_id <= b_id)
}

/// The name that `h` stands for in `strings`; nothing where it stands for none.
pub open spec fn name_at(strings: Seq<Seq<u8>>, h: StringArenaHandle) -> Seq<u8> {
    if 0 <= h.index() < strings.len() {
        strings[h.index()]
    } else {
        Seq::empty()
    }
}

/// One of the two groups that sessions are put in. True login sessions are not
/// told apart.
#[derive(Debug, Clone, Copy, PartialEq, Eq)]
pub enum Lsid {
    Kernel,
    SystemdServices,
    SystemdSession(u16),
}

impl Lsid {
    /// The place of the group in the order of groups: the kernel first, then the
    /// services, then the sessions by their number.
    pub open spec fn spec_rank(self) -> u64 {
        match self {
            Lsid::Kernel => 0,
            Lsid::SystemdServices => 1,
            Lsid::SystemdSession(n) => (2 + n) as u64,
        }
    }

    /// The place of the group in the order of groups.
    pub fn rank(self) -> (r: u64)
        ensures
            r == self.spec_rank(),
    {
        match self {
            Lsid::Kernel => 0,
            Lsid::SystemdServices => 1,
            Lsid::SystemdSession(n) => 2 + n as u64,
        }
    }
}

/// A group of sessions with the sum of their statistics.
#[derive(Debug, Clone, Copy)]
pub struct LoginSessionInfo {
    pub lsid: Lsid,
    pub stat: ProcStat,
}

/// A session with the sum of the statistics of its processes.
#[derive(Debug)]
pub struct SessionInfo {
    pub parent_lsid: Lsid,
    pub sid: u32,
    /// The name of the session's first process.
    pub name: StringArenaHandle,
    /// The command lines of the session's processes, one per line.
    pub entries_cmdline: Vec<u8>,
    pub stat: ProcStat,
}

/// A process with the sum of the statistics of its threads.
#[derive(Debug)]
pub struct ProcessInfo {
    pub parent_sid: u32,
    pub pid: u32,
    pub uid: u16,
    pub gid: u16,
    pub name: StringArenaHandle,
    pub cmdline: Option<Vec<u8>>,
    pub stat: ProcStat,
}

/// A thread with its statistics.
#[derive(Debug, Clone, Copy)]
pub struct ThreadInfo {
    pub parent_pid: u32,
    pub tid: u32,
    pub name: StringArenaHandle,
    pub stat: ProcStat,
}

/// A session as a mathematical value.
pub struct SessionInfoModel {
    pub parent_lsid: Lsid,
    pub sid: u32,
    pub name: StringArenaHandle,
    pub entries_cmdline: Seq<u8>,
    pub stat: ProcStat,
}

/// A process as a mathematical value.
pub struct ProcessInfoModel {
    pub parent_sid: u32,
    pub pid: u32,
    pub uid: u16,
    pub gid: u16,
    pub name: StringArenaHandle,
    pub cmdline: Option<Seq<u8>>,
    pub stat: ProcStat,
}

impl DeepView for SessionInfo {
    type V = SessionInfoModel;

    open spec fn deep_view(&self) -> SessionInfoModel {
        SessionInfoModel {
            parent_lsid: self.parent_lsid,
            sid: self.sid,
            name: self.name,
            entries_cmdline: self.entries_cmdline@,
            stat: self.stat,
        }
    }
}

impl DeepView for ProcessInfo {
    type V = ProcessInfoModel;

    open spec fn deep_view(&self) -> ProcessInfoModel {
        ProcessInfoModel {
            parent_sid: self.parent_sid,
            pid: self.pid,
            uid: self.uid,
            gid: self.gid,
            name: self.name,
            cmdline: match self.cmdline {
                Some(c) => Some(c@),
                None => None,
            },
            stat: self.stat,
        }
    }
}

impl SessionInfoModel {
    /// What the session is ordered by.
    pub open spec fn sort_key(self, order: RowOrder, strings: Seq<Seq<u8>>) -> SortKey {
        make_key(order, self.sid as u64, name_at(strings, self.name), self.stat, 0)
    }
}

impl ProcessInfoModel {
    /// What the process is ordered by.
    pub open spec fn sort_key(self, order: RowOrder, strings: Seq<Seq<u8>>) -> SortKey {
        make_key(
            order,
            self.pid as u64,
            name_at(strings, self.name),
            self.stat,
            self.parent_sid as u64,
        )
    }
}

impl Row for LoginSessionInfo {
    /// A group of sessions is ordered by its place among the groups, also under the
    /// order by name.
    open spec fn sort_key(&self, order: RowOrder, strings: Seq<Seq<u8>>) -> SortKey {
        make_key(order, self.lsid.spec_rank(), Seq::empty(), self.stat, 0)
    }

    open spec fn named_in(&self, strings: Seq<Seq<u8>>) -> bool {
        true
    }

    fn may_precede(&self, other: &Self, order: RowOrder, strings: &StringArena) -> (r: bool) {
        let empty: [u8; 0] = [];
        assert(empty@ =~= Seq::<u8>::empty());
        in_order(
            order,
            self.lsid.rank(),
            empty.as_slice(),
            &self.stat,
            0,
            other.lsid.rank(),
            empty.as_slice(),
            &other.stat,
            0,
        )
    }
}

impl Row for SessionInfo {
    open spec fn sort_key(&self, order: RowOrder, strings: Seq<Seq<u8>>) -> SortKey {
        self.deep_view().sort_key(order, strings)
    }

    open spec fn named_in(&self, strings: Seq<Seq<u8>>) -> bool {
        0 <= self.name.index() < strings.len()
    }

    fn may_precede(&self, other: &Self, order: RowOrder, strings: &StringArena) -> (r: bool) {
        in_order(
            order,
            self.sid as u64,
            strings.get(self.name),
            &self.stat,
            0,
            other.sid as u64,
            strings.get(other.name),
            &other.stat,
            0,
        )
    }
}

impl Row for ProcessInfo {
    open spec fn sort_key(&self, order: RowOrder, strings: Seq<Seq<u8>>) -> SortKey {
        self.deep_view().sort_key(order, strings)
    }

    open spec fn named_in(&self, strings: Seq<Seq<u8>>) -> bool {
        0 <= self.name.index() < strings.len()
    }

    fn may_precede(&self, other: &Self, order: RowOrder, strings: &StringArena) -> (r: bool) {
        in_order(
            order,
            self.pid as u64,
            strings.get(self.name),
            &self.stat,
            self.parent_sid as u64,
            other.pid as u64,
            strings.get(other.name),
            &other.stat,
            other.parent_sid as u64,
        )
    }
}

impl Row for ThreadInfo {
    open spec fn sort_key(&self, order: RowOrder, strings: Seq<Seq<u8>>) -> SortKey {
        make_key(order, self.tid as u64, name_at(strings, self.name), self.stat, 0)
    }

    open spec fn named_in(&self, strings: Seq<Seq<u8>>) -> bool {
        0 <= self.name.index() < strings.len()
    }

    fn may_precede(&self, other: &Self, order: RowOrder, strings: &StringArena) -> (r: bool) {
        in_order(
            order,
            self.tid as u64,
            strings.get(self.name),
            &self.stat,
            0,
            other.tid as u64,
            strings.get(other.name),
            &other.stat,
            0,
        )
    }
}

/// How often per second the processes are read.
pub const UPDATE_HZ: u64 = 1;

/// Kibibytes as bytes, capped at the largest `u64`.
pub open spec fn spec_mem_bytes(kb: u64) -> u64 {
    if kb * 1024 > u64::MAX {
        u64::MAX
    } else {
        (kb * 1024) as u64
    }
}

/// The statistics of a thread of a process with `vm_rss_kb` of resident memory.
pub open spec fn thread_stat(t: ThreadIngest, vm_rss_kb: u64) -> ProcStat {
    ProcStat {
        guest_time_millis: t.guest_time_ms,
        user_time_millis: t.user_time_ms,
        system_time_millis: t.system_time_ms,
        disk_read_bytes_per_second: t.read_bytes / UPDATE_HZ,
        disk_write_bytes_per_second: t.write_bytes / UPDATE_HZ,
        mem_bytes: spec_mem_bytes(vm_rss_kb),
    }
}

/// The row of the `j`-th thread of process `p`.
pub open spec fn thread_row(pid: u32, p: ProcessIngest, name: StringArenaHandle, j: int)
    -> ThreadInfo {
    ThreadInfo {
        parent_pid: pid,
        tid: ascending_keys(p.by_tid@)[j],
        name,
        stat: thread_stat(value_at(p.by_tid@, j), p.vm_rss_kb),
    }
}

/// The rows of the threads of process `p`, by ascending thread id. They carry the
/// name of the process.
pub open spec fn thread_rows_of(pid: u32, p: ProcessIngest, name: StringArenaHandle) -> Seq<
    ThreadInfo,
> {
    Seq::new(ascending_keys(p.by_tid@).len(), |j: int| thread_row(pid, p, name, j))
}

/// Whether a process is shown in the tables: it has a thread. A process of which
/// no thread was read is going away and is left out of this tick's tables.
pub open spec fn is_shown(p: ProcessIngest) -> bool {
    ascending_keys(p.by_tid@).len() > 0
}

/// The names of those of the first `n` processes that are shown, by ascending
/// process id.
pub open spec fn process_names_upto(src: ProcIngest, n: int) -> Seq<Seq<u8>>
    decreases n,
{
    if n <= 0 {
        Seq::empty()
    } else if is_shown(value_at(src.by_pid@, n - 1)) {
        process_names_upto(src, n - 1).push(value_at(src.by_pid@, n - 1).name@)
    } else {
        process_names_upto(src, n - 1)
    }
}

/// The names of the processes that are shown, by ascending process id.
pub open spec fn process_names(src: ProcIngest) -> Seq<Seq<u8>> {
    process_names_upto(src, ascending_keys(src.by_pid@).len() as int)
}

/// The rows of the threads of the first `n` processes, by ascending process id and
/// then thread id. The threads of a process carry the handle of its name, which is
/// the place of the process among those that are shown.
pub open spec fn thread_rows(src: ProcIngest, n: int) -> Seq<ThreadInfo>
    decreases n,
{
    if n <= 0 {
        Seq::empty()
    } else {
        thread_rows(src, n - 1) + thread_rows_of(
            ascending_keys(src.by_pid@)[n - 1],
            value_at(src.by_pid@, n - 1),
            StringArenaHandle::at(process_names_upto(src, n - 1).len() as int),
        )
    }
}

/// The row of a process `p` that has threads: its statistics are the sum of those
/// of its threads, but for the memory, which is that of the process. Its session
/// is that of its first thread.
pub open spec fn process_row(pid: u32, p: ProcessIngest, name: StringArenaHandle)
    -> ProcessInfoModel {
    let sum = sum_stats(thread_rows_of(pid, p, name).map_values(|t: ThreadInfo| t.stat));
    ProcessInfoModel {
        parent_sid: value_at(p.by_tid@, 0).sid,
        pid,
        uid: p.uid,
        gid: p.gid,
        name,
        cmdline: match p.cmdline {
            Some(c) => Some(c@),
            None => None,
        },
        stat: ProcStat {
            guest_time_millis: sum.guest_time_millis,
            user_time_millis: sum.user_time_millis,
            system_time_millis: sum.system_time_millis,
            disk_read_bytes_per_second: sum.disk_read_bytes_per_second,
            disk_write_bytes_per_second: sum.disk_write_bytes_per_second,
            mem_bytes: spec_mem_bytes(p.vm_rss_kb),
        },
    }
}

/// The rows of those of the first `n` processes that are shown, by ascending
/// process id. The name of the `k`-th of them is the `k`-th name of the table.
pub open spec fn process_rows_upto(src: ProcIngest, n: int) -> Seq<ProcessInfoModel>
    decreases n,
{
    if n <= 0 {
        Seq::empty()
    } else if is_shown(value_at(src.by_pid@, n - 1)) {
        process_rows_upto(src, n - 1).push(
            process_row(
                ascending_keys(src.by_pid@)[n - 1],
                value_at(src.by_pid@, n - 1),
                StringArenaHandle::at(process_names_upto(src, n - 1).len() as int),
            ),
        )
    } else {
        process_rows_upto(src, n - 1)
    }
}

/// The rows of the processes that are shown, by ascending process id.
pub open spec fn process_rows(src: ProcIngest) -> Seq<ProcessInfoModel> {
    process_rows_upto(src, ascending_keys(src.by_pid@).len() as int)
}

/// The session that process `p` opens, before `p` is counted in it. The session
/// of id 0 is the kernel's; every other session is put with the services.
pub open spec fn opened_by(p: ProcessInfoModel) -> SessionInfoModel {
    SessionInfoModel {
        parent_lsid: if p.parent_sid == 0 {
            Lsid::Kernel
        } else {
            Lsid::SystemdServices
        },
        sid: p.parent_sid,
        name: p.name,
        entries_cmdline: Seq::empty(),
        stat: ProcStat::spec_zero(),
    }
}

/// The session `s` with process `p` counted in: the command line of `p`, if it has
/// one, becomes a further line, and the statistics of `p` are added.
pub open spec fn joined_by(s: SessionInfoModel, p: ProcessInfoModel) -> SessionInfoModel {
    SessionInfoModel {
        parent_lsid: s.parent_lsid,
        sid: s.sid,
        name: s.name,
        entries_cmdline: match p.cmdline {
            Some(c) => if s.entries_cmdline.len() > 0 {
                s.entries_cmdline + seq![10u8] + c
            } else {
                c
            },
            None => s.entries_cmdline,
        },
        stat: s.stat.spec_add(p.stat),
    }
}

/// The sessions of processes that are ordered by session: each run of processes
/// of one session makes one row.
pub open spec fn session_rows(procs: Seq<ProcessInfoModel>) -> Seq<SessionInfoModel>
    decreases procs.len(),
{
    if procs.len() == 0 {
        Seq::empty()
    } else {
        let before = session_rows(procs.drop_last());
        let p = procs.last();
        if before.len() == 0 || before.last().sid != p.parent_sid {
            before.push(joined_by(opened_by(p), p))
        } else {
            before.drop_last().push(joined_by(before.last(), p))
        }
    }
}

/// The sum of the statistics of the kernel's sessions, or of all the others.
pub open spec fn group_stat(sessions: Seq<SessionInfoModel>, kernel: bool) -> ProcStat
    decreases sessions.len(),
{
    if sessions.len() == 0 {
        ProcStat::spec_zero()
    } else if (sessions.last().parent_lsid is Kernel) == kernel {
        group_stat(sessions.drop_last(), kernel).spec_add(sessions.last().stat)
    } else {
        group_stat(sessions.drop_last(), kernel)
    }
}

/// The two groups of sessions: the kernel's, and all the others.
pub open spec fn login_session_rows(sessions: Seq<SessionInfoModel>) -> Seq<LoginSessionInfo> {
    seq![
        LoginSessionInfo { lsid: Lsid::Kernel, stat: group_stat(sessions, true) },
        LoginSessionInfo { lsid: Lsid::SystemdServices, stat: group_stat(sessions, false) },
    ]
}

/// The function that gives each process its key under `order`.
pub open spec fn process_key(order: RowOrder, strings: Seq<Seq<u8>>) -> spec_fn(
    ProcessInfoModel,
) -> SortKey {
    |m: ProcessInfoModel| m.sort_key(order, strings)
}

/// The function that gives each session its key under `order`.
pub open spec fn session_key(order: RowOrder, strings: Seq<Seq<u8>>) -> spec_fn(
    SessionInfoModel,
) -> SortKey {
    |m: SessionInfoModel| m.sort_key(order, strings)
}

/// The processes as mathematical values.
pub open spec fn process_models(rows: Seq<ProcessInfo>) -> Seq<ProcessInfoModel> {
    rows.map_values(|p: ProcessInfo| p.deep_view())
}

/// The sessions as mathematical values.
pub open spec fn session_models(rows: Seq<SessionInfo>) -> Seq<SessionInfoModel> {
    rows.map_values(|s: SessionInfo| s.deep_view())
}

/// The process tree of one tick.
///
/// The four tables are kept sorted by the current sort key, and every name handle in
/// them stands for a name of `strings`.
#[derive(Debug)]
pub struct ProcInfo {
    sort_by: ProcSortBy,
    uid_to_user: HashMap<u16, UserInfo>,
    gid_to_group: HashMap<u16, GroupInfo>,
    strings: StringArena,
    login_sessions: Vec<LoginSessionInfo>,
    sessions: Vec<SessionInfo>,
    processes: Vec<ProcessInfo>,
    threads: Vec<ThreadInfo>,
}

/// Every session carries the name of one of the processes.
pub proof fn lemma_session_names(procs: Seq<ProcessInfoModel>, names: Seq<Seq<u8>>, i: int)
    requires
        forall|k: int| 0 <= k < procs.len() ==> 0 <= (#[trigger] procs[k]).name.index() < names.len(),
        0 <= i < session_rows(procs).len(),
    ensures
        0 <= session_rows(procs)[i].name.index() < names.len(),
    decreases procs.len(),
{
    if procs.len() > 0 {
        let before = session_rows(procs.drop_last());
        let p = procs.last();
        assert(procs[procs.len() - 1] == p);
        assert forall|k: int| 0 <= k < procs.drop_last().len() implies 0 <= (
        #[trigger] procs.drop_last()[k]).name.index() < names.len() by {
            assert(procs.drop_last()[k] == procs[k]);
        }
        if before.len() == 0 || before.last().sid != p.parent_sid {
            if i < before.len() {
                lemma_session_names(procs.drop_last(), names, i);
            }
        } else {
            if i < before.len() - 1 {
                lemma_session_names(procs.drop_last(), names, i);
            } else {
                lemma_session_names(procs.drop_last(), names, before.len() - 1);
            }
        }
    }
}

/// The statistics of a thread of a process with `vm_rss_kb` of resident memory.
fn stat_of_thread(t: &ThreadIngest, vm_rss_kb: u64) -> (r: ProcStat)
    ensures
        r == thread_stat(*t, vm_rss_kb),
{
    ProcStat {
        guest_time_millis: t.guest_time_ms,
        user_time_millis: t.user_time_ms,
        system_time_millis: t.system_time_ms,
        disk_read_bytes_per_second: t.read_bytes / UPDATE_HZ,
        disk_write_bytes_per_second: t.write_bytes / UPDATE_HZ,
        mem_bytes: mem_bytes(vm_rss_kb),
    }
}

/// Kibibytes as bytes, capped at the largest `u64`.
fn mem_bytes(kb: u64) -> (r: u64)
    ensures
        r == spec_mem_bytes(kb),
{
    match kb.checked_mul(1024) {
        Some(b) => b,
        None => 0xffff_ffff_ffff_ffff,
    }
}

/// Builds the table of names and the rows of threads and processes, by ascending
/// process id. A process without threads is left out.
fn collect_rows(src: &ProcIngest) -> (r: (StringArena, Vec<ThreadInfo>, Vec<ProcessInfo>))
    ensures
        r.0@ == process_names(*src),
        r.1@ == thread_rows(*src, ascending_keys(src.by_pid@).len() as int),
        process_models(r.2@) == process_rows(*src),
        all_named_in(r.1@, r.0@),
        all_named_in(r.2@, r.0@),
{
    let mut strings: StringArena = StringArena::default();
    let mut threads: Vec<ThreadInfo> = Vec::new();
    let mut processes: Vec<ProcessInfo> = Vec::new();
    let known: Vec<(u32, &ProcessIngest)> = entries(&src.by_pid);
    let n: usize = known.len();
    let mut i: usize = 0;
    assert(process_models(processes@) =~= process_rows_upto(*src, 0));
    while i < n
        invariant
            i <= n,
            n == known@.len(),
            n == ascending_keys(src.by_pid@).len(),
            forall|k: int|
                0 <= k < n ==> (#[trigger] known@[k]).0 == ascending_keys(src.by_pid@)[k]
                    && *known@[k].1 == value_at(src.by_pid@, k),
            strings@ == process_names_upto(*src, i as int),
            strings@.len() <= i,
            threads@ == thread_rows(*src, i as int),
            process_models(processes@) == process_rows_upto(*src, i as int),
            forall|k: int|
                0 <= k < threads@.len() ==> 0 <= (#[trigger] threads@[k]).name.index()
                    < strings@.len(),
            forall|k: int|
                0 <= k < processes@.len() ==> 0 <= (#[trigger] processes@[k]).name.index()
                    < strings@.len(),
        decreases n - i,
    {
        let pid: u32 = known[i].0;
        let process: &ProcessIngest = known[i].1;
        let own: Vec<(u32, &ThreadIngest)> = entries(&process.by_tid);
        let m: usize = own.len();
        if m == 0 {
            proof {
                let none = thread_rows_of(
                    pid,
                    *process,
                    StringArenaHandle::at(strings@.len() as int),
                );
                assert(threads@ + none =~= threads@);
            }
            i += 1;
            continue ;
        }
        let copy: Vec<u8> = process.name.clone();
        assert(copy@ =~= process.name@);
        let ghost names_before = strings@;
        let ghost threads_before = threads@;
        let ghost processes_before = processes@;
        let name: StringArenaHandle = strings.push(copy);
        proof {
            StringArenaHandle::lemma_at(names_before.len() as int);
        }
        let ghost rows = thread_rows_of(pid, *process, name);
        let mut stat: ProcStat = ProcStat::zero();
        let mut j: usize = 0;
        assert(rows.subrange(0, 0).map_values(|t: ThreadInfo| t.stat) =~= Seq::<ProcStat>::empty());
        assert(threads@ =~= threads_before + rows.subrange(0, 0));
        while j < m
            invariant
                j <= m,
                m == own@.len(),
                m == ascending_keys(process.by_tid@).len(),
                forall|k: int|
                    0 <= k < m ==> (#[trigger] own@[k]).0 == ascending_keys(process.by_tid@)[k]
                        && *own@[k].1 == value_at(process.by_tid@, k),
                rows == thread_rows_of(pid, *process, name),
                rows.len() == m,
                name.index() == names_before.len(),
                threads@ == threads_before + rows.subrange(0, j as int),
                stat == sum_stats(rows.subrange(0, j as int).map_values(|t: ThreadInfo| t.stat)),
            decreases m - j,
        {
            let tid: u32 = own[j].0;
            let thread: &ThreadIngest = own[j].1;
            let row = ThreadInfo {
                parent_pid: pid,
                tid,
                name,
                stat: stat_of_thread(thread, process.vm_rss_kb),
            };
            assert(row == rows[j as int]);
            threads.push(row);
            stat = stat.add(row.stat);
            proof {
                let stats_now = rows.subrange(0, j + 1).map_values(|t: ThreadInfo| t.stat);
                assert(stats_now.drop_last() =~= rows.subrange(0, j as int).map_values(
                    |t: ThreadInfo| t.stat,
                ));
                assert(stats_now.last() == row.stat);
                assert(threads@ =~= threads_before + rows.subrange(0, j + 1));
            }
            j += 1;
        }
        assert(rows.subrange(0, m as int) =~= rows);
        let parent_sid: u32 = own[0].1.sid;
        let cmdline: Option<Vec<u8>> = match &process.cmdline {
            Some(c) => {
                let copy: Vec<u8> = c.clone();
                assert(copy@ =~= c@);
                Some(copy)
            },
            None => None,
        };
        let info = ProcessInfo {
            parent_sid,
            pid,
            uid: process.uid,
            gid: process.gid,
            name,
            cmdline,
            stat: ProcStat {
                guest_time_millis: stat.guest_time_millis,
                user_time_millis: stat.user_time_millis,
                system_time_millis: stat.system_time_millis,
                disk_read_bytes_per_second: stat.disk_read_bytes_per_second,
                disk_write_bytes_per_second: stat.disk_write_bytes_per_second,
                mem_bytes: mem_bytes(process.vm_rss_kb),
            },
        };
        let ghost models_before = process_models(processes@);
        assert(info.deep_view() == process_row(pid, *process, name));
        processes.push(info);
        proof {
            assert(process_models(processes@) =~= models_before.push(info.deep_view()));
            assert forall|k: int| 0 <= k < threads@.len() implies 0 <= (
            #[trigger] threads@[k]).name.index() < strings@.len() by {
                if k >= threads_before.len() {
                    assert(threads@[k] == rows[k - threads_before.len()]);
                } else {
                    assert(threads@[k] == threads_before[k]);
                }
            }
            assert forall|k: int| 0 <= k < processes@.len() implies 0 <= (
            #[trigger] processes@[k]).name.index() < strings@.len() by {
                if k < processes_before.len() {
                    assert(processes@[k] == processes_before[k]);
                }
            }
        }
        i += 1;
    }
    (strings, threads, processes)
}

/// Groups processes that are ordered by session into sessions.
fn collect_sessions(processes: &Vec<ProcessInfo>) -> (r: Vec<SessionInfo>)
    ensures
        session_models(r@) == session_rows(process_models(processes@)),
{
    let ghost procs = process_models(processes@);
    let mut sessions: Vec<SessionInfo> = Vec::new();
    let mut i: usize = 0;
    assert(procs.subrange(0, 0) =~= Seq::<ProcessInfoModel>::empty());
    assert(session_models(sessions@) =~= Seq::<SessionInfoModel>::empty());
    while i < processes.len()
        invariant
            i <= processes@.len(),
            procs == process_models(processes@),
            session_models(sessions@) == session_rows(procs.subrange(0, i as int)),
        decreases processes@.len() - i,
    {
        let p: &ProcessInfo = &processes[i];
        let ghost before = session_models(sessions@);
        proof {
            assert(procs.subrange(0, i + 1).drop_last() =~= procs.subrange(0, i as int));
            assert(procs.subrange(0, i + 1).last() == p.deep_view());
            if sessions@.len() > 0 {
                assert(before.last() == sessions@.last().deep_view());
            }
        }
        let n: usize = sessions.len();
        let mut session: SessionInfo = if n == 0 || sessions[n - 1].sid != p.parent_sid {
            SessionInfo {
                parent_lsid: if p.parent_sid == 0 {
                    Lsid::Kernel
                } else {
                    Lsid::SystemdServices
                },
                sid: p.parent_sid,
                name: p.name,
                entries_cmdline: Vec::new(),
                stat: ProcStat::zero(),
            }
        } else {
            let last: Option<SessionInfo> = sessions.pop();
            assert(session_models(sessions@) =~= before.drop_last());
            match last {
                Some(s) => s,
                None => SessionInfo {
                    parent_lsid: Lsid::Kernel,
                    sid: p.parent_sid,
                    name: p.name,
                    entries_cmdline: Vec::new(),
                    stat: ProcStat::zero(),
                },
            }
        };
        let ghost base = session.deep_view();
        let ghost kept = session_models(sessions@);
        match &p.cmdline {
            Some(c) => {
                if session.entries_cmdline.len() > 0 {
                    session.entries_cmdline.push(10);
                }
                append_bytes(&mut session.entries_cmdline, c.as_slice());
            },
            None => {},
        }
        session.stat = session.stat.add(p.stat);
        assert(session.deep_view().entries_cmdline =~= joined_by(base, p.deep_view()).entries_cmdline);
        assert(session.deep_view() == joined_by(base, p.deep_view()));
        sessions.push(session);
        assert(session_models(sessions@) =~= kept.push(joined_by(base, p.deep_view())));
        i += 1;
    }
    assert(procs.subrange(0, i as int) =~= procs);
    sessions
}

/// Sums the sessions into the two groups of login sessions.
fn collect_login_sessions(sessions: &Vec<SessionInfo>) -> (r: Vec<LoginSessionInfo>)
    ensures
        r@ == login_session_rows(session_models(sessions@)),
{
    let ghost all = session_models(sessions@);
    let mut kernel: ProcStat = ProcStat::zero();
    let mut others: ProcStat = ProcStat::zero();
    let mut i: usize = 0;
    assert(all.subrange(0, 0) =~= Seq::<SessionInfoModel>::empty());
    while i < sessions.len()
        invariant
            i <= sessions@.len(),
            all == session_models(sessions@),
            kernel == group_stat(all.subrange(0, i as int), true),
            others == group_stat(all.subrange(0, i as int), false),
        decreases sessions@.len() - i,
    {
        proof {
            assert(all.subrange(0, i + 1).drop_last() =~= all.subrange(0, i as int));
            assert(all.subrange(0, i + 1).last() == sessions@[i as int].deep_view());
        }
        match sessions[i].parent_lsid {
            Lsid::Kernel => {
                kernel = kernel.add(sessions[i].stat);
            },
            _ => {
                others = others.add(sessions[i].stat);
            },
        }
        i += 1;
    }
    assert(all.subrange(0, i as int) =~= all);
    let mut r: Vec<LoginSessionInfo> = Vec::new();
    r.push(LoginSessionInfo { lsid: Lsid::Kernel, stat: kernel });
    r.push(LoginSessionInfo { lsid: Lsid::SystemdServices, stat: others });
    assert(r@ =~= login_session_rows(all));
    r
}

/// A failure on a prefix of the lines is the failure on all of them.
proof fn lemma_parse_users_prefix_err(l: Seq<Seq<u8>>, n: int)
    requires
        0 <= n <= l.len(),
        ProcInfo::spec_parse_users(l.subrange(0, n)) is Err,
    ensures
        ProcInfo::spec_parse_users(l) == ProcInfo::spec_parse_users(l.subrange(0, n)),
    decreases l.len() - n,
{
    if n == l.len() {
        assert(l.subrange(0, n) =~= l);
    } else {
        assert(l.subrange(0, n + 1).drop_last() =~= l.subrange(0, n));
        lemma_parse_users_prefix_err(l, n + 1);
    }
}

/// A failure on a prefix of the lines is the failure on all of them.
proof fn lemma_parse_groups_prefix_err(l: Seq<Seq<u8>>, n: int)
    requires
        0 <= n <= l.len(),
        ProcInfo::spec_parse_groups(l.subrange(0, n)) is Err,
    ensures
        ProcInfo::spec_parse_groups(l) == ProcInfo::spec_parse_groups(l.subrange(0, n)),
    decreases l.len() - n,
{
    if n == l.len() {
        assert(l.subrange(0, n) =~= l);
    } else {
        assert(l.subrange(0, n + 1).drop_last() =~= l.subrange(0, n));
        lemma_parse_groups_prefix_err(l, n + 1);
    }
}

fn parse_users(passwd: &[u8]) -> (r: Result<HashMap<u16, UserInfo>, ParseError>)
    ensures
        match r {
            Ok(m) => ProcInfo::spec_parse_users(lines_of(passwd@)) == Ok::<
                Map<u16, UserInfoModel>,
                ParseError,
            >(m@.map_values(|u: UserInfo| u.deep_view())),
            Err(e) => ProcInfo::spec_parse_users(lines_of(passwd@)) == Err::<
                Map<u16, UserInfoModel>,
                ParseError,
            >(e),
        },
{
    let l: Vec<&[u8]> = lines(passwd);
    let ghost all = views(l@);
    let ghost view = |u: UserInfo| u.deep_view();
    let mut map: HashMap<u16, UserInfo> = HashMap::new();
    let mut i: usize = 0;
    assert(all.subrange(0, 0) =~= Seq::<Seq<u8>>::empty());
    assert(map@.map_values(view) =~= Map::<u16, UserInfoModel>::empty());
    while i < l.len()
        invariant
            i <= l@.len(),
            all == views(l@),
            all == lines_of(passwd@),
            view == |u: UserInfo| u.deep_view(),
            ProcInfo::spec_parse_users(all.subrange(0, i as int)) == Ok::<
                Map<u16, UserInfoModel>,
                ParseError,
            >(map@.map_values(view)),
        decreases l@.len() - i,
    {
        assert(all.subrange(0, i + 1).drop_last() =~= all.subrange(0, i as int));
        assert(all.subrange(0, i + 1).last() == all[i as int]);
        assert(all[i as int] == l@[i as int]@);
        let ghost before = map@;
        match UserInfo::new(l[i]) {
            Ok(u) => {
                let ghost model = u.deep_view();
                let uid: u16 = u.uid;
                let _ = map.insert(uid, u);
                assert(map@.map_values(view) =~= before.map_values(view).insert(uid, model));
            },
            Err(e) => {
                proof {
                    lemma_parse_users_prefix_err(all, i + 1);
                }
                return Err(e);
            },
        }
        i += 1;
    }
    assert(all.subrange(0, i as int) =~= all);
    Ok(map)
}

fn parse_groups(group: &[u8]) -> (r: Result<HashMap<u16, GroupInfo>, ParseError>)
    ensures
        match r {
            Ok(m) => ProcInfo::spec_parse_groups(lines_of(group@)) == Ok::<
                Map<u16, GroupInfoModel>,
                ParseError,
            >(m@.map_values(|g: GroupInfo| g.deep_view())),
            Err(e) => ProcInfo::spec_parse_groups(lines_of(group@)) == Err::<
                Map<u16, GroupInfoModel>,
                ParseError,
            >(e),
        },
{
    let l: Vec<&[u8]> = lines(group);
    let ghost all = views(l@);
    let ghost view = |g: GroupInfo| g.deep_view();
    let mut map: HashMap<u16, GroupInfo> = HashMap::new();
    let mut i: usize = 0;
    assert(all.subrange(0, 0) =~= Seq::<Seq<u8>>::empty());
    assert(map@.map_values(view) =~= Map::<u16, GroupInfoModel>::empty());
    while i < l.len()
        invariant
            i <= l@.len(),
            all == views(l@),
            all == lines_of(group@),
            view == |g: GroupInfo| g.deep_view(),
            ProcInfo::spec_parse_groups(all.subrange(0, i as int)) == Ok::<
                Map<u16, GroupInfoModel>,
                ParseError,
            >(map@.map_values(view)),
        decreases l@.len() - i,
    {
        assert(all.subrange(0, i + 1).drop_last() =~= all.subrange(0, i as int));
        assert(all.subrange(0, i + 1).last() == all[i as int]);
        assert(all[i as int] == l@[i as int]@);
        let ghost before = map@;
        match GroupInfo::new(l[i]) {
            Ok(g) => {
                let ghost model = g.deep_view();
                let gid: u16 = g.gid;
                let _ = map.insert(gid, g);
                assert(map@.map_values(view) =~= before.map_values(view).insert(gid, model));
            },
            Err(e) => {
                proof {
                    lemma_parse_groups_prefix_err(all, i + 1);
                }
                return Err(e);
            },
        }
        i += 1;
    }
    assert(all.subrange(0, i as int) =~= all);
    Ok(map)
}

fn append_bytes(dst: &mut Vec<u8>, src: &[u8])
    ensures
        final(dst)@ == old(dst)@ + src@,
{
    let mut i: usize = 0;
    assert(dst@ =~= old(dst)@ + src@.subrange(0, 0));
    while i < src.len()
        invariant
            i <= src@.len(),
            dst@ == old(dst)@ + src@.subrange(0, i as int),
        decreases src@.len() - i,
    {
        dst.push(src[i]);
        assert(dst@ =~= old(dst)@ + src@.subrange(0, i + 1));
        i += 1;
    }
    assert(src@.subrange(0, i as int) =~= src@);
}

impl ProcInfo {
    #[verifier::type_invariant]
    spec fn inv(self) -> bool {
        &&& all_named_in(self.sessions@, self.strings@)
        &&& all_named_in(self.processes@, self.strings@)
        &&& all_named_in(self.threads@, self.strings@)
        &&& sorted(
            self.login_sessions@,
            row_key::<LoginSessionInfo>(self.sort_by.spec_order(), self.strings@),
        )
        &&& sorted(self.sessions@, row_key::<SessionInfo>(self.sort_by.spec_order(), self.strings@))
        &&& sorted(
            self.processes@,
            row_key::<ProcessInfo>(self.sort_by.spec_order(), self.strings@),
        )
        &&& sorted(self.threads@, row_key::<ThreadInfo>(self.sort_by.spec_order(), self.strings@))
    }

    /// The current sort key.
    pub closed spec fn spec_sort_by(&self) -> ProcSortBy {
        self.sort_by
    }

    /// The names that the rows refer to.
    pub closed spec fn spec_strings(&self) -> Seq<Seq<u8>> {
        self.strings@
    }

    /// The rows of the login sessions.
    pub closed spec fn spec_login_sessions(&self) -> Seq<LoginSessionInfo> {
        self.login_sessions@
    }

    /// The rows of the sessions.
    pub closed spec fn spec_sessions(&self) -> Seq<SessionInfo> {
        self.sessions@
    }

    /// The rows of the processes.
    pub closed spec fn spec_processes(&self) -> Seq<ProcessInfo> {
        self.processes@
    }

    /// The rows of the threads.
    pub closed spec fn spec_threads(&self) -> Seq<ThreadInfo> {
        self.threads@
    }

    /// What holds of every process tree: the rows are named in the table of names
    /// and stand in the order of the current sort key.
    pub open spec fn wf(&self) -> bool {
        let order = self.spec_sort_by().spec_order();
        let strings = self.spec_strings();
        &&& all_named_in(self.spec_sessions(), strings)
        &&& all_named_in(self.spec_processes(), strings)
        &&& all_named_in(self.spec_threads(), strings)
        &&& sorted(self.spec_login_sessions(), row_key::<LoginSessionInfo>(order, strings))
        &&& sorted(self.spec_sessions(), row_key::<SessionInfo>(order, strings))
        &&& sorted(self.spec_processes(), row_key::<ProcessInfo>(order, strings))
        &&& sorted(self.spec_threads(), row_key::<ThreadInfo>(order, strings))
    }

    /// The users by their ids.
    pub closed spec fn spec_users(&self) -> Map<u16, UserInfoModel> {
        self.uid_to_user@.map_values(|u: UserInfo| u.deep_view())
    }

    /// The groups by their ids.
    pub closed spec fn spec_groups(&self) -> Map<u16, GroupInfoModel> {
        self.gid_to_group@.map_values(|g: GroupInfo| g.deep_view())
    }

    /// The users that the lines of a `passwd` file describe, by their ids. Of two
    /// lines with one id the later one counts.
    pub open spec fn spec_parse_users(lines: Seq<Seq<u8>>) -> Result<
        Map<u16, UserInfoModel>,
        ParseError,
    >
        decreases lines.len(),
    {
        if lines.len() == 0 {
            Ok(Map::empty())
        } else {
            match Self::spec_parse_users(lines.drop_last()) {
                Err(e) => Err(e),
                Ok(m) => match UserInfo::spec_new(lines.last()) {
                    Err(e) => Err(e),
                    Ok(u) => Ok(m.insert(u.uid, u)),
                },
            }
        }
    }

    /// The groups that the lines of a `group` file describe, by their ids. Of two
    /// lines with one id the later one counts.
    pub open spec fn spec_parse_groups(lines: Seq<Seq<u8>>) -> Result<
        Map<u16, GroupInfoModel>,
        ParseError,
    >
        decreases lines.len(),
    {
        if lines.len() == 0 {
            Ok(Map::empty())
        } else {
            match Self::spec_parse_groups(lines.drop_last()) {
                Err(e) => Err(e),
                Ok(m) => match GroupInfo::spec_new(lines.last()) {
                    Err(e) => Err(e),
                    Ok(g) => Ok(m.insert(g.gid, g)),
                },
            }
        }
    }

    /// Whether the tables hold no rows and no names.
    pub open spec fn is_empty(&self) -> bool {
        &&& self.spec_strings().len() == 0
        &&& self.spec_login_sessions().len() == 0
        &&& self.spec_sessions().len() == 0
        &&& self.spec_processes().len() == 0
        &&& self.spec_threads().len() == 0
    }

    /// An empty process tree, sorted by id, with the users and groups that the
    /// texts of `/etc/passwd` and `/etc/group` describe. The users are parsed first.
    pub fn new(passwd: &[u8], group: &[u8]) -> (r: Result<ProcInfo, ParseError>)
        ensures
            match r {
                Ok(info) => {
                    &&& info.wf()
                    &&& info.is_empty()
                    &&& info.spec_sort_by() == ProcSortBy::Id
                    &&& Self::spec_parse_users(lines_of(passwd@)) == Ok::<
                        Map<u16, UserInfoModel>,
                        ParseError,
                    >(info.spec_users())
                    &&& Self::spec_parse_groups(lines_of(group@)) == Ok::<
                        Map<u16, GroupInfoModel>,
                        ParseError,
                    >(info.spec_groups())
                },
                Err(e) => match Self::spec_parse_users(lines_of(passwd@)) {
                    Err(u) => e == u,
                    Ok(_) => Self::spec_parse_groups(lines_of(group@)) == Err::<
                        Map<u16, GroupInfoModel>,
                        ParseError,
                    >(e),
                },
            },
    {
        let uid_to_user: HashMap<u16, UserInfo> = parse_users(passwd)?;
        let gid_to_group: HashMap<u16, GroupInfo> = parse_groups(group)?;
        Ok(
            ProcInfo {
                sort_by: ProcSortBy::Id,
                uid_to_user,
                gid_to_group,
                strings: StringArena::default(),
                login_sessions: Vec::new(),
                sessions: Vec::new(),
                processes: Vec::new(),
                threads: Vec::new(),
            },
        )
    }

    /// The current sort key.
    pub fn get_sort_by(&self) -> (r: ProcSortBy)
        ensures
            r == self.spec_sort_by(),
    {
        self.sort_by
    }

    /// The names that the rows refer to.
    pub fn strings(&self) -> (r: &StringArena)
        ensures
            self.wf(),
            r@ == self.spec_strings(),
    {
        proof {
            use_type_invariant(self);
        }
        &self.strings
    }

    /// The rows of the login sessions.
    pub fn login_sessions(&self) -> (r: &Vec<LoginSessionInfo>)
        ensures
            self.wf(),
            r@ == self.spec_login_sessions(),
    {
        proof {
            use_type_invariant(self);
        }
        &self.login_sessions
    }

    /// The rows of the sessions.
    pub fn sessions(&self) -> (r: &Vec<SessionInfo>)
        ensures
            self.wf(),
            r@ == self.spec_sessions(),
    {
        proof {
            use_type_invariant(self);
        }
        &self.sessions
    }

    /// The rows of the processes.
    pub fn processes(&self) -> (r: &Vec<ProcessInfo>)
        ensures
            self.wf(),
            r@ == self.spec_processes(),
    {
        proof {
            use_type_invariant(self);
        }
        &self.processes
    }

    /// The rows of the threads.
    pub fn threads(&self) -> (r: &Vec<ThreadInfo>)
        ensures
            self.wf(),
            r@ == self.spec_threads(),
    {
        proof {
            use_type_invariant(self);
        }
        &self.threads
    }

    /// The users by their ids.
    pub fn uid_to_user(&self) -> (r: &HashMap<u16, UserInfo>)
        ensures
            r@.map_values(|u: UserInfo| u.deep_view()) == self.spec_users(),
    {
        &self.uid_to_user
    }

    /// The groups by their ids.
    pub fn gid_to_group(&self) -> (r: &HashMap<u16, GroupInfo>)
        ensures
            r@.map_values(|g: GroupInfo| g.deep_view()) == self.spec_groups(),
    {
        &self.gid_to_group
    }

    /// Rebuilds the tables from what is known of the processes.
    ///
    /// The table of names gets the name of each process, by ascending process id.
    /// Thread statistics sum into their process, processes are grouped into
    /// sessions by the session of their first thread, sessions into the two groups
    /// of login sessions. A process of which no thread is known is left out. Then
    /// the four tables are sorted by the current sort key.
    pub fn update(&mut self, src: &ProcIngest)
        ensures
            final(self).wf(),
            final(self).spec_sort_by() == old(self).spec_sort_by(),
            final(self).spec_users() == old(self).spec_users(),
            final(self).spec_groups() == old(self).spec_groups(),
            final(self).spec_strings() == process_names(*src),
            final(self).spec_threads() == stable_sort(
                thread_rows(*src, ascending_keys(src.by_pid@).len() as int),
                row_key::<ThreadInfo>(old(self).spec_sort_by().spec_order(), process_names(*src)),
            ),
            process_models(final(self).spec_processes()) == stable_sort(
                stable_sort(
                    process_rows(*src),
                    process_key(RowOrder::Session, process_names(*src)),
                ),
                process_key(old(self).spec_sort_by().spec_order(), process_names(*src)),
            ),
            session_models(final(self).spec_sessions()) == stable_sort(
                session_rows(
                    stable_sort(
                        process_rows(*src),
                        process_key(RowOrder::Session, process_names(*src)),
                    ),
                ),
                session_key(old(self).spec_sort_by().spec_order(), process_names(*src)),
            ),
            final(self).spec_login_sessions() == stable_sort(
                login_session_rows(
                    session_rows(
                        stable_sort(
                            process_rows(*src),
                            process_key(RowOrder::Session, process_names(*src)),
                        ),
                    ),
                ),
                row_key::<LoginSessionInfo>(
                    old(self).spec_sort_by().spec_order(),
                    process_names(*src),
                ),
            ),
    {
        let sort_by: ProcSortBy = self.sort_by;
        let order: RowOrder = sort_by.order();
        let (strings, threads, mut processes) = collect_rows(src);
        let ghost names = process_names(*src);
        let ghost unsorted = processes@;
        sort_rows(&mut processes, RowOrder::Session, &strings);
        proof {
            lemma_sort_commutes(
                unsorted,
                |p: ProcessInfo| p.deep_view(),
                row_key::<ProcessInfo>(RowOrder::Session, names),
                process_key(RowOrder::Session, names),
            );
        }
        let mut sessions: Vec<SessionInfo> = collect_sessions(&processes);
        let mut login_sessions: Vec<LoginSessionInfo> = collect_login_sessions(&sessions);
        let mut threads = threads;
        let ghost grouped = processes@;
        let ghost session_list = sessions@;
        proof {
            assert(all_named_in(sessions@, names)) by {
                assert forall|i: int| 0 <= i < sessions@.len() implies (#[trigger] sessions@[i]).named_in(
                    names,
                ) by {
                    assert(session_models(sessions@)[i] == sessions@[i].deep_view());
                    lemma_session_names(process_models(grouped), names, i);
                }
            }
            lemma_sort_commutes(
                grouped,
                |p: ProcessInfo| p.deep_view(),
                row_key::<ProcessInfo>(order, names),
                process_key(order, names),
            );
            lemma_sort_commutes(
                session_list,
                |s: SessionInfo| s.deep_view(),
                row_key::<SessionInfo>(order, names),
                session_key(order, names),
            );
            lemma_stable_sort(login_sessions@, row_key::<LoginSessionInfo>(order, names));
            lemma_stable_sort(sessions@, row_key::<SessionInfo>(order, names));
            lemma_stable_sort(processes@, row_key::<ProcessInfo>(order, names));
            lemma_stable_sort(threads@, row_key::<ThreadInfo>(order, names));
        }
        sort_rows(&mut login_sessions, order, &strings);
        sort_rows(&mut sessions, order, &strings);
        sort_rows(&mut processes, order, &strings);
        sort_rows(&mut threads, order, &strings);
        let mut uid_to_user: HashMap<u16, UserInfo> = HashMap::new();
        let mut gid_to_group: HashMap<u16, GroupInfo> = HashMap::new();
        proof {
            use_type_invariant(&*self);
        }
        std::mem::swap(&mut self.uid_to_user, &mut uid_to_user);
        std::mem::swap(&mut self.gid_to_group, &mut gid_to_group);
        *self = ProcInfo {
            sort_by,
            uid_to_user,
            gid_to_group,
            strings,
            login_sessions,
            sessions,
            processes,
            threads,
        };
    }

    /// Sorts the four tables by the current sort key.
    fn sort_self(&mut self)
        ensures
            final(self).wf(),
            final(self).spec_sort_by() == old(self).spec_sort_by(),
            final(self).spec_strings() == old(self).spec_strings(),
            final(self).spec_users() == old(self).spec_users(),
            final(self).spec_groups() == old(self).spec_groups(),
            final(self).spec_login_sessions() == stable_sort(
                old(self).spec_login_sessions(),
                row_key::<LoginSessionInfo>(
                    old(self).spec_sort_by().spec_order(),
                    old(self).spec_strings(),
                ),
            ),
            final(self).spec_sessions() == stable_sort(
                old(self).spec_sessions(),
                row_key::<SessionInfo>(
                    old(self).spec_sort_by().spec_order(),
                    old(self).spec_strings(),
                ),
            ),
            final(self).spec_processes() == stable_sort(
                old(self).spec_processes(),
                row_key::<ProcessInfo>(
                    old(self).spec_sort_by().spec_order(),
                    old(self).spec_strings(),
                ),
            ),
            final(self).spec_threads() == stable_sort(
                old(self).spec_threads(),
                row_key::<ThreadInfo>(
                    old(self).spec_sort_by().spec_order(),
                    old(self).spec_strings(),
                ),
            ),
    {
        proof {
            use_type_invariant(&*self);
        }
        self.resort(self.sort_by);
    }

    /// Makes `sort_by` the sort key and sorts the four tables by it.
    fn resort(&mut self, sort_by: ProcSortBy)
        ensures
            final(self).wf(),
            final(self).spec_sort_by() == sort_by,
            final(self).spec_strings() == old(self).spec_strings(),
            final(self).spec_users() == old(self).spec_users(),
            final(self).spec_groups() == old(self).spec_groups(),
            final(self).spec_login_sessions() == stable_sort(
                old(self).spec_login_sessions(),
                row_key::<LoginSessionInfo>(sort_by.spec_order(), old(self).spec_strings()),
            ),
            final(self).spec_sessions() == stable_sort(
                old(self).spec_sessions(),
                row_key::<SessionInfo>(sort_by.spec_order(), old(self).spec_strings()),
            ),
            final(self).spec_processes() == stable_sort(
                old(self).spec_processes(),
                row_key::<ProcessInfo>(sort_by.spec_order(), old(self).spec_strings()),
            ),
            final(self).spec_threads() == stable_sort(
                old(self).spec_threads(),
                row_key::<ThreadInfo>(sort_by.spec_order(), old(self).spec_strings()),
            ),
    {
        proof {
            use_type_invariant(&*self);
        }
        let order: RowOrder = sort_by.order();
        let mut login_sessions: Vec<LoginSessionInfo> = Vec::new();
        let mut sessions: Vec<SessionInfo> = Vec::new();
        let mut processes: Vec<ProcessInfo> = Vec::new();
        let mut threads: Vec<ThreadInfo> = Vec::new();
        let mut strings: StringArena = StringArena::default();
        let mut uid_to_user: HashMap<u16, UserInfo> = HashMap::new();
        let mut gid_to_group: HashMap<u16, GroupInfo> = HashMap::new();
        std::mem::swap(&mut self.login_sessions, &mut login_sessions);
        std::mem::swap(&mut self.sessions, &mut sessions);
        std::mem::swap(&mut self.processes, &mut processes);
        std::mem::swap(&mut self.threads, &mut threads);
        std::mem::swap(&mut self.strings, &mut strings);
        std::mem::swap(&mut self.uid_to_user, &mut uid_to_user);
        std::mem::swap(&mut self.gid_to_group, &mut gid_to_group);
        proof {
            lemma_stable_sort(login_sessions@, row_key::<LoginSessionInfo>(order, strings@));
            lemma_stable_sort(sessions@, row_key::<SessionInfo>(order, strings@));
            lemma_stable_sort(processes@, row_key::<ProcessInfo>(order, strings@));
            lemma_stable_sort(threads@, row_key::<ThreadInfo>(order, strings@));
        }
        sort_rows(&mut login_sessions, order, &strings);
        sort_rows(&mut sessions, order, &strings);
        sort_rows(&mut processes, order, &strings);
        sort_rows(&mut threads, order, &strings);
        *self = ProcInfo {
            sort_by,
            uid_to_user,
            gid_to_group,
            strings,
            login_sessions,
            sessions,
            processes,
            threads,
        };
    }

    /// Selects the sort key and sorts the four tables by it. Rows with the same key
    /// keep their order.
    pub fn sort(&mut self, sort_by: ProcSortBy)
        ensures
            final(self).wf(),
            final(self).spec_sort_by() == sort_by,
            final(self).spec_strings() == old(self).spec_strings(),
            final(self).spec_users() == old(self).spec_users(),
            final(self).spec_groups() == old(self).spec_groups(),
            final(self).spec_login_sessions() == stable_sort(
                old(self).spec_login_sessions(),
                row_key::<LoginSessionInfo>(sort_by.spec_order(), old(self).spec_strings()),
            ),
            final(self).spec_sessions() == stable_sort(
                old(self).spec_sessions(),
                row_key::<SessionInfo>(sort_by.spec_order(), old(self).spec_strings()),
            ),
            final(self).spec_processes() == stable_sort(
                old(self).spec_processes(),
                row_key::<ProcessInfo>(sort_by.spec_order(), old(self).spec_strings()),
            ),
            final(self).spec_threads() == stable_sort(
                old(self).spec_threads(),
                row_key::<ThreadInfo>(sort_by.spec_order(), old(self).spec_strings()),
            ),
    {
        if self.sort_by.same(sort_by) {
            proof {
                use_type_invariant(&*self);
                let order = sort_by.spec_order();
                crate::rows::lemma_sorted_stays(
                    self.login_sessions@,
                    row_key::<LoginSessionInfo>(order, self.strings@),
                );
                crate::rows::lemma_sorted_stays(
                    self.sessions@,
                    row_key::<SessionInfo>(order, self.strings@),
                );
                crate::rows::lemma_sorted_stays(
                    self.processes@,
                    row_key::<ProcessInfo>(order, self.strings@),
                );
                crate::rows::lemma_sorted_stays(
                    self.threads@,
                    row_key::<ThreadInfo>(order, self.strings@),
                );
            }
            return ;
        }
        self.resort(sort_by);
    }
}

} // verus!
