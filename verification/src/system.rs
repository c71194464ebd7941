//! Deltas between two snapshots, and the reconciliation of per-entity state.

use crate::ingest::{delta, spec_delta};
use crate::maps::NameMap;
use crate::snapshot::{
    CpuStat, DiskStats, GpuSnapshot, MemInfo, NetInterfaceSnapshot, OldSnapshot, Snapshot, Uptime,
};
use crate::text::{ascii, ascii_bytes, has_prefix, starts_with};
use vstd::prelude::*;

verus! {

/// Time that one core spent between two readings, in jiffies.
#[derive(Clone, Copy, Debug, PartialEq, Eq)]
pub struct CpuDelta {
    pub user: u64,
    pub system: u64,
    pub idle: u64,
    pub guest: u64,
}

impl CpuDelta {
    /// What the counters of a core grew by from `old` to `new`.
    pub open spec fn spec_between(new: CpuStat, old: CpuStat) -> CpuDelta {
        CpuDelta {
            user: spec_delta(new.user, old.user),
            system: spec_delta(new.system, old.system),
            idle: spec_delta(new.idle, old.idle),
            guest: spec_delta(new.guest, old.guest),
        }
    }

    /// Time spent working: in user mode, in the kernel and in guests.
    pub open spec fn spec_busy(self) -> nat {
        (self.user + self.system + self.guest) as nat
    }

    /// All the time accounted for, working or idle; one jiffy where none was, so
    /// that the share of busy time is always defined.
    pub open spec fn spec_total(self) -> nat {
        if self.spec_busy() + self.idle > 0 {
            (self.spec_busy() + self.idle) as nat
        } else {
            1
        }
    }

    /// What the counters of a core grew by from `old` to `new`.
    pub fn between(new: &CpuStat, old: &CpuStat) -> (r: CpuDelta)
        ensures
            r == Self::spec_between(*new, *old),
    {
        CpuDelta {
            user: delta(new.user, old.user),
            system: delta(new.system, old.system),
            idle: delta(new.idle, old.idle),
            guest: delta(new.guest, old.guest),
        }
    }

    /// Time spent working.
    pub fn busy(&self) -> (r: u128)
        ensures
            r == self.spec_busy(),
    {
        self.user as u128 + self.system as u128 + self.guest as u128
    }

    /// All the time accounted for, at least one jiffy.
    pub fn total(&self) -> (r: u128)
        ensures
            r == self.spec_total(),
            r >= 1,
            r >= self.spec_busy(),
    {
        let all: u128 = self.busy() + self.idle as u128;
        if all > 0 {
            all
        } else {
            1
        }
    }
}

/// The share of busy time is always defined and at most one: the time accounted
/// for is at least one jiffy and at least the busy time.
pub proof fn lemma_busy_share_is_defined(d: CpuDelta)
    ensures
        d.spec_total() >= 1,
        d.spec_busy() <= d.spec_total(),
{
}

/// A core for which no time at all was counted was busy for none of one jiffy: its
/// share of busy time is zero.
pub proof fn lemma_still_core_is_idle(d: CpuDelta)
    requires
        d.user == 0,
        d.system == 0,
        d.guest == 0,
        d.idle == 0,
    ensures
        d.spec_busy() == 0,
        d.spec_total() == 1,
{
}

/// The reading that core `i` is compared with: its previous reading, or its new
/// one where the core was not there before.
pub open spec fn previous_core(new: Seq<CpuStat>, old: Seq<CpuStat>, i: int) -> CpuStat {
    if i < old.len() {
        old[i]
    } else {
        new[i]
    }
}

/// What the counters of each core grew by from `old` to `new`.
pub fn cpu_deltas(new: &Vec<CpuStat>, old: &Vec<CpuStat>) -> (r: Vec<CpuDelta>)
    ensures
        r@.len() == new@.len(),
        forall|i: int|
            0 <= i < new@.len() ==> #[trigger] r@[i] == CpuDelta::spec_between(
                new@[i],
                previous_core(new@, old@, i),
            ),
{
    let mut out: Vec<CpuDelta> = Vec::new();
    let mut i: usize = 0;
    while i < new.len()
        invariant
            i <= new@.len(),
            out@.len() == i,
            forall|k: int|
                0 <= k < i ==> #[trigger] out@[k] == CpuDelta::spec_between(
                    new@[k],
                    previous_core(new@, old@, k),
                ),
        decreases new@.len() - i,
    {
        let previous: &CpuStat = if i < old.len() {
            &old[i]
        } else {
            &new[i]
        };
        out.push(CpuDelta::between(&new[i], previous));
        i += 1;
    }
    out
}

/// Kibibytes as bytes.
pub open spec fn kib(kb: u64) -> u128 {
    (kb * 1024) as u128
}

/// Memory figures in bytes.
#[derive(Clone, Copy, Debug, PartialEq, Eq)]
pub struct MemoryUse {
    pub mem_total: u128,
    pub swap_total: u128,
    /// Memory that is not free, caches included.
    pub mem_inc_reclaimable: u128,
    /// Memory that is not available to new processes.
    pub mem_used: u128,
    pub swap_used: u128,
}

impl MemoryUse {
    /// The memory figures that `info` gives.
    pub open spec fn spec_of(info: MemInfo) -> MemoryUse {
        MemoryUse {
            mem_total: kib(info.mem_total),
            swap_total: kib(info.swap_total),
            mem_inc_reclaimable: kib(spec_delta(info.mem_total, info.mem_free)),
            mem_used: kib(spec_delta(info.mem_total, info.mem_available)),
            swap_used: kib(spec_delta(info.swap_total, info.swap_free)),
        }
    }

    /// Derives the memory figures from `info`.
    pub fn of(info: &MemInfo) -> (r: MemoryUse)
        ensures
            r == Self::spec_of(*info),
    {
        MemoryUse {
            mem_total: info.mem_total as u128 * 1024,
            swap_total: info.swap_total as u128 * 1024,
            mem_inc_reclaimable: delta(info.mem_total, info.mem_free) as u128 * 1024,
            mem_used: delta(info.mem_total, info.mem_available) as u128 * 1024,
            swap_used: delta(info.swap_total, info.swap_free) as u128 * 1024,
        }
    }
}

/// The time since boot that the cores were busy for on average, in nanoseconds:
/// the uptime less each core's share of the idle time. Nothing where there is no
/// core.
pub open spec fn spec_uptime_cpu_busy(uptime: Uptime, cores: nat) -> Option<u64> {
    if cores == 0 {
        None
    } else {
        Some(spec_delta(uptime.since_boot, (uptime.idle_cpu_since_boot as nat / cores) as u64))
    }
}

/// The time since boot that the cores were busy for on average.
pub fn uptime_cpu_busy(uptime: &Uptime, cores: usize) -> (r: Option<u64>)
    ensures
        r == spec_uptime_cpu_busy(*uptime, cores as nat),
{
    if cores == 0 {
        None
    } else {
        Some(delta(uptime.since_boot, uptime.idle_cpu_since_boot / (cores as u64)))
    }
}

/// Whether a block device is a partition whose traffic is shown: not a whole disk,
/// whose minor number is zero, and not a loopback device.
pub open spec fn spec_is_partition(stats: DiskStats) -> bool {
    stats.minor_device_number != 0 && !has_prefix(stats.device_name@, ascii_bytes("loop"@))
}

/// Whether a block device is a partition whose traffic is shown.
pub fn is_partition(stats: &DiskStats) -> (r: bool)
    ensures
        r == spec_is_partition(*stats),
{
    proof {
        reveal_strlit("loop");
    }
    stats.minor_device_number != 0 && !starts_with(stats.device_name.as_slice(), ascii("loop"))
}

/// Traffic of one partition between two readings, in bytes.
#[derive(Clone, Copy, Debug, PartialEq, Eq)]
pub struct PartitionDelta {
    pub read: u128,
    pub written: u128,
    pub discarded: u128,
}

impl PartitionDelta {
    /// What the sector counters grew by from `old` to `new`, in bytes. A sector has
    /// 512 bytes.
    pub open spec fn spec_between(old: DiskStats, new: DiskStats) -> PartitionDelta {
        PartitionDelta {
            read: (512 * spec_delta(new.sectors_read, old.sectors_read)) as u128,
            written: (512 * spec_delta(new.sectors_written, old.sectors_written)) as u128,
            discarded: (512 * spec_delta(new.sectors_discarded, old.sectors_discarded)) as u128,
        }
    }

    /// What the sector counters grew by from `old` to `new`, in bytes.
    pub fn between(old: &DiskStats, new: &DiskStats) -> (r: PartitionDelta)
        ensures
            r == Self::spec_between(*old, *new),
    {
        PartitionDelta {
            read: 512 * (delta(new.sectors_read, old.sectors_read) as u128),
            written: 512 * (delta(new.sectors_written, old.sectors_written) as u128),
            discarded: 512 * (delta(new.sectors_discarded, old.sectors_discarded) as u128),
        }
    }
}

/// Traffic of one network interface between two readings, in bytes.
#[derive(Clone, Copy, Debug, PartialEq, Eq)]
pub struct NetInterfaceDelta {
    pub rx: u64,
    pub tx: u64,
}

impl NetInterfaceDelta {
    /// What the byte counters grew by from `old` to `new`.
    pub open spec fn spec_between(old: NetInterfaceSnapshot, new: NetInterfaceSnapshot)
        -> NetInterfaceDelta {
        NetInterfaceDelta {
            rx: spec_delta(new.rx_bytes, old.rx_bytes),
            tx: spec_delta(new.tx_bytes, old.tx_bytes),
        }
    }

    /// What the byte counters grew by from `old` to `new`.
    pub fn between(old: &NetInterfaceSnapshot, new: &NetInterfaceSnapshot) -> (r: NetInterfaceDelta)
        ensures
            r == Self::spec_between(*old, *new),
    {
        NetInterfaceDelta {
            rx: delta(new.rx_bytes, old.rx_bytes),
            tx: delta(new.tx_bytes, old.tx_bytes),
        }
    }
}

/// The block devices of `stats` by their names; with `only_partitions`, those
/// that are partitions. Of two devices with one name the later one stays.
pub open spec fn spec_by_device_name(stats: Seq<DiskStats>, only_partitions: bool) -> Map<
    Seq<u8>,
    DiskStats,
>
    decreases stats.len(),
{
    if stats.len() == 0 {
        Map::empty()
    } else {
        let before = spec_by_device_name(stats.drop_last(), only_partitions);
        if !only_partitions || spec_is_partition(stats.last()) {
            before.insert(stats.last().device_name@, stats.last())
        } else {
            before
        }
    }
}

/// Collects block devices by their names.
pub fn by_device_name<'a>(stats: &'a Vec<DiskStats>, only_partitions: bool) -> (r: NameMap<
    &'a DiskStats,
>)
    ensures
        r.wf(),
        r@.map_values(|d: &DiskStats| *d) == spec_by_device_name(stats@, only_partitions),
{
    let ghost view = |d: &DiskStats| *d;
    let mut map: NameMap<&'a DiskStats> = NameMap::new();
    let mut i: usize = 0;
    assert(stats@.subrange(0, 0) =~= Seq::<DiskStats>::empty());
    assert(map@.map_values(view) =~= Map::<Seq<u8>, DiskStats>::empty());
    while i < stats.len()
        invariant
            i <= stats@.len(),
            view == |d: &DiskStats| *d,
            map.wf(),
            map@.map_values(view) == spec_by_device_name(
                stats@.subrange(0, i as int),
                only_partitions,
            ),
        decreases stats@.len() - i,
    {
        assert(stats@.subrange(0, i + 1).drop_last() =~= stats@.subrange(0, i as int));
        assert(stats@.subrange(0, i + 1).last() == stats@[i as int]);
        let ghost before = map@;
        let entry: &'a DiskStats = &stats[i];
        if !only_partitions || is_partition(entry) {
            let name: Vec<u8> = entry.device_name.clone();
            assert(name@ =~= entry.device_name@);
            let _ = map.insert(name, entry);
            assert(map@.map_values(view) =~= before.map_values(view).insert(
                entry.device_name@,
                *entry,
            ));
        }
        i += 1;
    }
    assert(stats@.subrange(0, i as int) =~= stats@);
    map
}

/// Whether `next` is the state of an entity after this tick: the entity's
/// previous state, or a fresh default state where it had none, updated by `f` with
/// the entity's old and new reading.
pub open spec fn carried_on<T, U: Default, F: Fn(U, &T, &T) -> U>(
    f: F,
    previous: Option<U>,
    old: T,
    new: T,
    next: U,
) -> bool {
    exists|start: U|
        {
            &&& match previous {
                Some(u) => start == u,
                None => call_ensures(U::default, (), start),
            }
            &&& #[trigger] call_ensures(f, (start, &old, &new), next)
        }
}

/// The previous state of the entity `key`, if it has one.
pub open spec fn previous_of<U>(states: Map<Seq<u8>, U>, key: Seq<u8>) -> Option<U> {
    if states.contains_key(key) {
        Some(states[key])
    } else {
        None
    }
}

/// Brings the per-entity states `ret` up to date with the readings of one tick.
///
/// An entity stays where it has both an old and a new reading. Its state is carried
/// on from its previous state, or from a fresh default state where it is new, by
/// `f`. The states of all other entities are dropped.
pub fn intersect_old_new<T, U: Default, F: Fn(U, &T, &T) -> U>(
    ret: &mut NameMap<U>,
    old_readings: &NameMap<T>,
    new_readings: &NameMap<T>,
    f: F,
)
    requires
        forall|start: U, a: &T, b: &T| call_requires(f, (start, a, b)),
    ensures
        final(ret).wf(),
        final(ret)@.dom() == old_readings@.dom().intersect(new_readings@.dom()),
        forall|key: Seq<u8>| #[trigger]
            final(ret)@.contains_key(key) ==> carried_on(
                f,
                previous_of(old(ret)@, key),
                old_readings@[key],
                new_readings@[key],
                final(ret)@[key],
            ),
{
    let ghost ret0 = ret@;
    let mut out: NameMap<U> = NameMap::new();
    let n: usize = new_readings.len();
    let mut i: usize = 0;
    proof {
        assert(out@.dom() =~= old_readings@.dom().intersect(new_readings.keys().subrange(0, 0).to_set()));
    }
    while i < n
        invariant
            i <= n,
            n == new_readings.keys().len(),
            new_readings.wf(),
            out.wf(),
            forall|start: U, a: &T, b: &T| call_requires(f, (start, a, b)),
            out@.dom() == old_readings@.dom().intersect(new_readings.keys().subrange(0, i as int).to_set()),
            forall|key: Seq<u8>| #[trigger]
                out@.contains_key(key) ==> carried_on(
                    f,
                    previous_of(ret0, key),
                    old_readings@[key],
                    new_readings@[key],
                    out@[key],
                ),
            forall|key: Seq<u8>|
                !new_readings.keys().subrange(0, i as int).contains(key) ==> (#[trigger] ret@.contains_key(
                    key,
                ) == ret0.contains_key(key)),
            forall|key: Seq<u8>|
                !new_readings.keys().subrange(0, i as int).contains(key) && #[trigger] ret@.contains_key(
                    key,
                ) ==> ret@[key] == ret0[key],
        decreases n - i,
    {
        let key: &Vec<u8> = new_readings.key_at(i);
        let ghost seen = new_readings.keys().subrange(0, i as int);
        let ghost now = new_readings.keys().subrange(0, i + 1);
        let ghost out_before = out@;
        let ghost ret_before = ret@;
        proof {
            assert(now =~= seen.push(key@));
            assert(!seen.contains(key@)) by {
                if seen.contains(key@) {
                    let j = seen.index_of(key@);
                    assert(crate::names::bytes_lt(new_readings.keys()[j], new_readings.keys()[i as int]));
                    crate::names::lemma_bytes_lt_irreflexive(key@);
                }
            }
            assert forall|k: Seq<u8>| now.contains(k) <==> seen.contains(k) || k == key@ by {
                crate::text::lemma_contains_push(seen, key@, k);
            }
        }
        match old_readings.get(key.as_slice()) {
            Some(old_reading) => {
                let new_reading: &T = new_readings.value_at(i);
                let start: U = match ret.remove(key.as_slice()) {
                    Some(u) => u,
                    None => U::default(),
                };
                let next: U = f(start, old_reading, new_reading);
                let copy: Vec<u8> = key.clone();
                assert(copy@ =~= key@);
                let _ = out.insert(copy, next);
                proof {
                    assert(carried_on(
                        f,
                        previous_of(ret0, key@),
                        old_readings@[key@],
                        new_readings@[key@],
                        out@[key@],
                    ));
                    assert(out@.dom() =~= old_readings@.dom().intersect(now.to_set()));
                }
            },
            None => {
                proof {
                    assert(out@.dom() =~= old_readings@.dom().intersect(now.to_set()));
                }
            },
        }
        i += 1;
    }
    proof {
        assert(new_readings.keys().subrange(0, n as int) =~= new_readings.keys());
        assert(new_readings.keys().to_set() =~= new_readings@.dom());
    }
    *ret = out;
}

/// Where the partition `key` is mounted, if it is.
pub open spec fn mountpath_of(paths: Map<Seq<u8>, Vec<u8>>, key: Seq<u8>) -> Option<Vec<u8>> {
    if paths.contains_key(key) {
        Some(paths[key])
    } else {
        None
    }
}

/// What a borrowed mount path refers to.
pub open spec fn referred(mountpath: Option<&Vec<u8>>) -> Option<Vec<u8>> {
    match mountpath {
        Some(path) => Some(*path),
        None => None,
    }
}

/// Whether `next` is the state of a partition after this tick: its previous
/// state, or a fresh default state where it had none, updated by `f` with the place
/// where the partition is mounted and its traffic.
pub open spec fn partition_carried_on<U: Default, F: Fn(U, Option<&Vec<u8>>, PartitionDelta) -> U>(
    f: F,
    previous: Option<U>,
    mountpath: Option<Vec<u8>>,
    traffic: PartitionDelta,
    next: U,
) -> bool {
    exists|start: U, borrowed: Option<&Vec<u8>>|
        {
            &&& match previous {
                Some(u) => start == u,
                None => call_ensures(U::default, (), start),
            }
            &&& referred(borrowed) == mountpath
            &&& #[trigger] call_ensures(f, (start, borrowed, traffic), next)
        }
}

/// Brings the per-partition states up to date with the snapshot of this tick.
///
/// A partition stays where the old snapshot lists it as a partition and the new
/// snapshot lists a device of its name. Its state is carried on by `f`, which is
/// told where the partition is mounted and what traffic it had.
pub fn update_partitions<U: Default, F: Fn(U, Option<&Vec<u8>>, PartitionDelta) -> U>(
    by_partition: &mut NameMap<U>,
    new: &Snapshot,
    old_snapshot: &OldSnapshot,
    f: F,
)
    requires
        forall|start: U, mountpath: Option<&Vec<u8>>, traffic: PartitionDelta|
            call_requires(f, (start, mountpath, traffic)),
    ensures
        final(by_partition).wf(),
        final(by_partition)@.dom() == spec_by_device_name(
            old_snapshot.disk_stats@,
            true,
        ).dom().intersect(spec_by_device_name(new.disk_stats@, false).dom()),
        forall|key: Seq<u8>| #[trigger]
            final(by_partition)@.contains_key(key) ==> partition_carried_on(
                f,
                previous_of(old(by_partition)@, key),
                mountpath_of(new.partition_to_mountpath.partition_to_mountpath@, key),
                PartitionDelta::spec_between(
                    spec_by_device_name(old_snapshot.disk_stats@, true)[key],
                    spec_by_device_name(new.disk_stats@, false)[key],
                ),
                final(by_partition)@[key],
            ),
{
    let old_devices = by_device_name(&old_snapshot.disk_stats, true);
    let new_devices = by_device_name(&new.disk_stats, false);
    let ghost view = |d: &DiskStats| *d;
    let ghost before = by_partition@;
    let ghost paths = new.partition_to_mountpath.partition_to_mountpath@;
    proof {
        lemma_named_by_device(new.disk_stats@, false);
    }
    let fr: &F = &f;
    let step = |start: U, old_stats: &&DiskStats, new_stats: &&DiskStats| -> (next: U)
        requires
            forall|start: U, mountpath: Option<&Vec<u8>>, traffic: PartitionDelta|
                call_requires(*fr, (start, mountpath, traffic)),
        ensures
            exists|borrowed: Option<&Vec<u8>>|
                referred(borrowed) == mountpath_of(
                    new.partition_to_mountpath.partition_to_mountpath@,
                    new_stats.device_name@,
                ) && #[trigger] call_ensures(
                    *fr,
                    (start, borrowed, PartitionDelta::spec_between(**old_stats, **new_stats)),
                    next,
                ),
        {
            let mountpath: Option<&Vec<u8>> = new.partition_to_mountpath.partition_to_mountpath.get(
                new_stats.device_name.as_slice(),
            );
            fr(start, mountpath, PartitionDelta::between(old_stats, new_stats))
        };
    intersect_old_new(by_partition, &old_devices, &new_devices, step);
    proof {
        assert(old_devices@.dom() =~= old_devices@.map_values(view).dom());
        assert(new_devices@.dom() =~= new_devices@.map_values(view).dom());
        assert forall|key: Seq<u8>| #[trigger] by_partition@.contains_key(key) implies partition_carried_on(
            f,
            previous_of(before, key),
            mountpath_of(paths, key),
            PartitionDelta::spec_between(
                spec_by_device_name(old_snapshot.disk_stats@, true)[key],
                spec_by_device_name(new.disk_stats@, false)[key],
            ),
            by_partition@[key],
        ) by {
            let o = old_devices@[key];
            let n = new_devices@[key];
            assert(carried_on(step, previous_of(before, key), o, n, by_partition@[key]));
            let start = choose|start: U|
                {
                    &&& match previous_of(before, key) {
                        Some(u) => start == u,
                        None => call_ensures(U::default, (), start),
                    }
                    &&& #[trigger] call_ensures(step, (start, &o, &n), by_partition@[key])
                };
            assert(new_devices@.map_values(view)[key] == *n);
            assert(old_devices@.map_values(view)[key] == *o);
            assert(n.device_name@ == key);
            let borrowed = choose|borrowed: Option<&Vec<u8>>|
                referred(borrowed) == mountpath_of(paths, key) && #[trigger] call_ensures(
                    f,
                    (start, borrowed, PartitionDelta::spec_between(*o, *n)),
                    by_partition@[key],
                );
            assert(call_ensures(
                f,
                (start, borrowed, PartitionDelta::spec_between(*o, *n)),
                by_partition@[key],
            ));
        }
    }
}

/// Every device is collected under its own name.
pub proof fn lemma_named_by_device(stats: Seq<DiskStats>, only_partitions: bool)
    ensures
        forall|key: Seq<u8>| #[trigger]
            spec_by_device_name(stats, only_partitions).contains_key(key) ==> spec_by_device_name(
                stats,
                only_partitions,
            )[key].device_name@ == key,
    decreases stats.len(),
{
    if stats.len() > 0 {
        lemma_named_by_device(stats.drop_last(), only_partitions);
        let before = spec_by_device_name(stats.drop_last(), only_partitions);
        let all = spec_by_device_name(stats, only_partitions);
        assert forall|key: Seq<u8>| #[trigger] all.contains_key(key) implies all[key].device_name@
            == key by {
            if key != stats.last().device_name@ {
                assert(before.contains_key(key));
            }
        }
    }
}

/// Whether `next` is the state of an entity after this tick: its previous state, or
/// a fresh default state where it had none, updated by `f` with `reading`.
pub open spec fn carried_with<A, U: Default, F: Fn(U, A) -> U>(
    f: F,
    previous: Option<U>,
    reading: A,
    next: U,
) -> bool {
    exists|start: U|
        {
            &&& match previous {
                Some(u) => start == u,
                None => call_ensures(U::default, (), start),
            }
            &&& #[trigger] call_ensures(f, (start, reading), next)
        }
}

/// Brings the per-interface states up to date with the snapshot of this tick.
///
/// An interface stays where both snapshots list it. Its state is carried on by
/// `f`, which is told what traffic the interface had.
pub fn update_net_interfaces<U: Default, F: Fn(U, NetInterfaceDelta) -> U>(
    by_net_interface: &mut NameMap<U>,
    new: &Snapshot,
    old_snapshot: &OldSnapshot,
    f: F,
)
    requires
        forall|start: U, traffic: NetInterfaceDelta| call_requires(f, (start, traffic)),
    ensures
        final(by_net_interface).wf(),
        final(by_net_interface)@.dom() == old_snapshot.by_net_interface@.dom().intersect(
            new.by_net_interface@.dom(),
        ),
        forall|key: Seq<u8>| #[trigger]
            final(by_net_interface)@.contains_key(key) ==> carried_with(
                f,
                previous_of(old(by_net_interface)@, key),
                NetInterfaceDelta::spec_between(
                    old_snapshot.by_net_interface@[key],
                    new.by_net_interface@[key],
                ),
                final(by_net_interface)@[key],
            ),
{
    let ghost before = by_net_interface@;
    let fr: &F = &f;
    let step = |start: U, old_reading: &NetInterfaceSnapshot, new_reading: &NetInterfaceSnapshot| -> (next: U)
        requires
            forall|start: U, traffic: NetInterfaceDelta| call_requires(*fr, (start, traffic)),
        ensures
            call_ensures(
                *fr,
                (start, NetInterfaceDelta::spec_between(*old_reading, *new_reading)),
                next,
            ),
        { fr(start, NetInterfaceDelta::between(old_reading, new_reading)) };
    intersect_old_new(
        by_net_interface,
        &old_snapshot.by_net_interface,
        &new.by_net_interface,
        step,
    );
    proof {
        assert forall|key: Seq<u8>| #[trigger] by_net_interface@.contains_key(key) implies carried_with(
            f,
            previous_of(before, key),
            NetInterfaceDelta::spec_between(
                old_snapshot.by_net_interface@[key],
                new.by_net_interface@[key],
            ),
            by_net_interface@[key],
        ) by {
            let o = old_snapshot.by_net_interface@[key];
            let n = new.by_net_interface@[key];
            assert(carried_on(step, previous_of(before, key), o, n, by_net_interface@[key]));
            let start = choose|start: U|
                {
                    &&& match previous_of(before, key) {
                        Some(u) => start == u,
                        None => call_ensures(U::default, (), start),
                    }
                    &&& #[trigger] call_ensures(step, (start, &o, &n), by_net_interface@[key])
                };
            assert(call_ensures(
                f,
                (start, NetInterfaceDelta::spec_between(o, n)),
                by_net_interface@[key],
            ));
        }
    }
}

/// Brings the per-GPU states up to date with the snapshot of this tick.
///
/// The GPUs of the snapshot stay. The state of each is carried on by `f`, which
/// is told the GPU's reading.
pub fn update_gpus<U: Default, F: Fn(U, &GpuSnapshot) -> U>(
    by_gpu: &mut NameMap<U>,
    new: &Snapshot,
    f: F,
)
    requires
        forall|start: U, reading: &GpuSnapshot| call_requires(f, (start, reading)),
    ensures
        final(by_gpu).wf(),
        final(by_gpu)@.dom() == new.by_gpu@.dom(),
        forall|key: Seq<u8>| #[trigger]
            final(by_gpu)@.contains_key(key) ==> carried_with(
                f,
                previous_of(old(by_gpu)@, key),
                &new.by_gpu@[key],
                final(by_gpu)@[key],
            ),
{
    let ghost before = by_gpu@;
    let fr: &F = &f;
    let step = |start: U, old_reading: &GpuSnapshot, new_reading: &GpuSnapshot| -> (next: U)
        requires
            forall|start: U, reading: &GpuSnapshot| call_requires(*fr, (start, reading)),
        ensures
            call_ensures(*fr, (start, new_reading), next),
        { fr(start, new_reading) };
    intersect_old_new(by_gpu, &new.by_gpu, &new.by_gpu, step);
    proof {
        assert(new.by_gpu@.dom().intersect(new.by_gpu@.dom()) =~= new.by_gpu@.dom());
        assert forall|key: Seq<u8>| #[trigger] by_gpu@.contains_key(key) implies carried_with(
            f,
            previous_of(before, key),
            &new.by_gpu@[key],
            by_gpu@[key],
        ) by {
            let n = new.by_gpu@[key];
            assert(carried_on(step, previous_of(before, key), n, n, by_gpu@[key]));
            let start = choose|start: U|
                {
                    &&& match previous_of(before, key) {
                        Some(u) => start == u,
                        None => call_ensures(U::default, (), start),
                    }
                    &&& #[trigger] call_ensures(step, (start, &n, &n), by_gpu@[key])
                };
            assert(call_ensures(f, (start, &n), by_gpu@[key]));
        }
    }
}

/// The previous state of core `i`, if it has one.
pub open spec fn previous_core_state<U>(states: Seq<U>, i: int) -> Option<U> {
    if i < states.len() {
        Some(states[i])
    } else {
        None
    }
}

/// Brings the per-core states up to date with the readings of this tick.
///
/// There is one state per core of the new reading, in the order of the cores. The
/// state of each is carried on by `f`, which is told what time the core spent.
pub fn update_cores<U: Default, F: Fn(U, CpuDelta) -> U>(
    by_cpu: &mut Vec<U>,
    new: &Vec<CpuStat>,
    old_readings: &Vec<CpuStat>,
    f: F,
)
    requires
        forall|start: U, spent: CpuDelta| call_requires(f, (start, spent)),
    ensures
        final(by_cpu)@.len() == new@.len(),
        forall|i: int|
            0 <= i < new@.len() ==> carried_with(
                f,
                previous_core_state(old(by_cpu)@, i),
                CpuDelta::spec_between(new@[i], previous_core(new@, old_readings@, i)),
                #[trigger] final(by_cpu)@[i],
            ),
{
    let ghost before = by_cpu@;
    let deltas: Vec<CpuDelta> = cpu_deltas(new, old_readings);
    let mut rest: Vec<U> = Vec::new();
    std::mem::swap(by_cpu, &mut rest);
    let n: usize = deltas.len();
    let mut i: usize = 0;
    assert(rest@.subrange(0, rest@.len() as int) =~= rest@);
    while i < n
        invariant
            i <= n,
            n == deltas@.len(),
            n == new@.len(),
            forall|start: U, spent: CpuDelta| call_requires(f, (start, spent)),
            forall|k: int|
                0 <= k < n ==> #[trigger] deltas@[k] == CpuDelta::spec_between(
                    new@[k],
                    previous_core(new@, old_readings@, k),
                ),
            by_cpu@.len() == i,
            i <= before.len() ==> rest@ == before.subrange(i as int, before.len() as int),
            i > before.len() ==> rest@.len() == 0,
            forall|k: int|
                0 <= k < i ==> carried_with(
                    f,
                    previous_core_state(before, k),
                    deltas@[k],
                    #[trigger] by_cpu@[k],
                ),
        decreases n - i,
    {
        let start: U = if rest.len() > 0 {
            rest.remove(0)
        } else {
            U::default()
        };
        let next: U = f(start, deltas[i]);
        let ghost done = by_cpu@;
        by_cpu.push(next);
        proof {
            assert(carried_with(f, previous_core_state(before, i as int), deltas@[i as int], next));
            assert forall|k: int| 0 <= k < i + 1 implies carried_with(
                f,
                previous_core_state(before, k),
                deltas@[k],
                #[trigger] by_cpu@[k],
            ) by {
                if k < i {
                    assert(by_cpu@[k] == done[k]);
                }
            }
            if i < before.len() {
                assert(rest@ =~= before.subrange(i + 1, before.len() as int));
            }
        }
        i += 1;
    }
}

} // verus!
