//! The set of open handles to the watched files, and the rules by which it is
//! assembled and rebuilt.
//!
//! The library opens nothing itself: `H` is whatever the caller uses as a handle.

use crate::arena::StringArena;
use crate::maps::NameMap;
use crate::names::{compare, Rank};
use crate::rows::{row_key, sort_rows, stable_sort, Row, RowOrder, SortKey};
use crate::text::{
    ascii, ascii_bytes, bytes_eq, ends_with, has_prefix, has_suffix, starts_with, views,
};
use std::collections::hash_map::DefaultHasher;
use std::hash::Hasher;
use vstd::prelude::*;
use vstd::std_specs::hash::DefaultHasherAdditionalSpecFns;

verus! {

/// Whether the text of a sensor's `name` file is that of a driver for the CPU's
/// temperature: `k10temp` or `coretemp`, each followed by a line feed.
pub open spec fn spec_is_cpu_sensor(name_text: Seq<u8>) -> bool {
    name_text == ascii_bytes("k10temp\n"@) || name_text == ascii_bytes("coretemp\n"@)
}

/// Whether the text of a sensor's `name` file is that of a driver for the CPU's
/// temperature.
pub fn is_cpu_sensor(name_text: &[u8]) -> (r: bool)
    ensures
        r == spec_is_cpu_sensor(name_text@),
{
    proof {
        reveal_strlit("k10temp\n");
        reveal_strlit("coretemp\n");
    }
    bytes_eq(name_text, ascii("k10temp\n")) || bytes_eq(name_text, ascii("coretemp\n"))
}

/// Whether a file of a sensor's directory holds a temperature: its name begins
/// with `temp` and ends with `_input`.
pub open spec fn spec_is_temperature_input(file_name: Seq<u8>) -> bool {
    has_prefix(file_name, ascii_bytes("temp"@)) && has_suffix(file_name, ascii_bytes("_input"@))
}

/// Whether a file of a sensor's directory holds a temperature.
pub fn is_temperature_input(file_name: &[u8]) -> (r: bool)
    ensures
        r == spec_is_temperature_input(file_name@),
{
    proof {
        reveal_strlit("temp");
        reveal_strlit("_input");
    }
    starts_with(file_name, ascii("temp")) && ends_with(file_name, ascii("_input"))
}

/// Whether an entry of `/sys/class/drm` is taken for a GPU: it is not the entry
/// `version`, and one of the entries of its own directory has a name that begins
/// with the entry's name.
pub open spec fn spec_is_gpu_entry(name: Seq<u8>, children: Seq<Seq<u8>>) -> bool {
    name != ascii_bytes("version"@) && exists|i: int|
        0 <= i < children.len() && has_prefix(#[trigger] children[i], name)
}

/// Whether an entry of `/sys/class/drm` is taken for a GPU.
pub fn is_gpu_entry(name: &[u8], children: &Vec<&[u8]>) -> (r: bool)
    ensures
        r == spec_is_gpu_entry(name@, views(children@)),
{
    proof {
        reveal_strlit("version");
    }
    if bytes_eq(name, ascii("version")) {
        return false;
    }
    let mut i: usize = 0;
    while i < children.len()
        invariant
            i <= children@.len(),
            name@ != ascii_bytes("version"@),
            forall|k: int| 0 <= k < i ==> !has_prefix(#[trigger] views(children@)[k], name@),
        decreases children@.len() - i,
    {
        assert(views(children@)[i as int] == children@[i as int]@);
        if starts_with(children[i], name) {
            return true;
        }
        i += 1;
    }
    false
}

/// The name of an entry of a watched directory.
#[derive(Debug)]
pub struct EntryName {
    pub name: Vec<u8>,
}

impl Row for EntryName {
    /// An entry is ordered by its name, whatever the order asked for.
    open spec fn sort_key(&self, order: RowOrder, strings: Seq<Seq<u8>>) -> SortKey {
        SortKey { name: self.name@, number: 0, id: 0 }
    }

    open spec fn named_in(&self, strings: Seq<Seq<u8>>) -> bool {
        true
    }

    fn may_precede(&self, other: &Self, order: RowOrder, strings: &StringArena) -> (r: bool) {
        proof {
            crate::names::lemma_bytes_lt_total(self.name@, other.name@);
            crate::names::lemma_bytes_lt_irreflexive(self.name@);
        }
        match compare(self.name.as_slice(), other.name.as_slice()) {
            Rank::After => false,
            _ => true,
        }
    }
}

/// The function that gives each name its key: the name itself.
pub open spec fn name_key() -> spec_fn(Seq<u8>) -> SortKey {
    |n: Seq<u8>| SortKey { name: n, number: 0, id: 0 }
}

/// The names of the entries.
pub open spec fn entry_names(entries: Seq<EntryName>) -> Seq<Seq<u8>> {
    entries.map_values(|e: EntryName| e.name@)
}

/// The eight bytes of `n`, lowest first.
pub open spec fn le_bytes(n: u64) -> Seq<u8> {
    Seq::new(8, |i: int| ((n >> ((8 * i) as u64)) & 0xff) as u8)
}

/// What is fed to the hasher for the names of one directory: for each name its
/// length and then the name.
pub open spec fn names_written(names: Seq<Seq<u8>>) -> Seq<Seq<u8>>
    decreases names.len(),
{
    if names.len() == 0 {
        Seq::empty()
    } else {
        names_written(names.drop_last()).push(le_bytes(names.last().len() as u64)).push(
            names.last(),
        )
    }
}

/// What is fed to the hasher for the watched directories: for each directory the
/// number of its entries and then their names, sorted.
pub open spec fn listings_written(listings: Seq<Seq<Seq<u8>>>) -> Seq<Seq<u8>>
    decreases listings.len(),
{
    if listings.len() == 0 {
        Seq::empty()
    } else {
        listings_written(listings.drop_last()).push(le_bytes(listings.last().len() as u64))
            + names_written(stable_sort(listings.last(), name_key()))
    }
}

/// The names of the entries of each directory.
pub open spec fn listing_names(listings: Seq<Vec<EntryName>>) -> Seq<Seq<Seq<u8>>> {
    listings.map_values(|l: Vec<EntryName>| entry_names(l@))
}

fn write_number(hasher: &mut DefaultHasher, n: u64)
    ensures
        final(hasher)@ == old(hasher)@.push(le_bytes(n)),
{
    let mut bytes: Vec<u8> = Vec::new();
    let mut i: u64 = 0;
    while i < 8
        invariant
            i <= 8,
            bytes@.len() == i,
            forall|k: int| 0 <= k < i ==> bytes@[k] == ((n >> ((8 * k) as u64)) & 0xff) as u8,
        decreases 8 - i,
    {
        let shift: u64 = 8 * i;
        let low: u64 = (n >> shift) & 0xff;
        assert(low <= 0xff) by (bit_vector)
            requires
                low == (n >> shift) & 0xff,
        ;
        bytes.push(low as u8);
        i += 1;
    }
    assert(bytes@ =~= le_bytes(n));
    hasher.write(bytes.as_slice());
}

/// The fingerprint of the watched directories: the standard library's default
/// hash over the names of the entries of each directory, sorted, in the order of
/// the directories.
pub fn hash_environment(listings: Vec<Vec<EntryName>>) -> (r: u64)
    ensures
        r == DefaultHasher::spec_finish(listings_written(listing_names(listings@))),
{
    let mut listings = listings;
    let ghost all = listing_names(listings@);
    let strings: StringArena = StringArena::default();
    let mut hasher: DefaultHasher = DefaultHasher::new();
    let n: usize = listings.len();
    let mut d: usize = 0;
    assert(all.subrange(0, 0) =~= Seq::<Seq<Seq<u8>>>::empty());
    while d < n
        invariant
            d <= n,
            n == listings@.len(),
            all.len() == n,
            forall|k: int| d <= k < n ==> all[k] == entry_names(#[trigger] listings@[k]@),
            hasher@ == listings_written(all.subrange(0, d as int)),
        decreases n - d,
    {
        let mut names: Vec<EntryName> = Vec::new();
        std::mem::swap(&mut names, &mut listings[d]);
        let ghost unsorted = names@;
        assert(entry_names(unsorted) == all[d as int]);
        sort_rows(&mut names, RowOrder::Name, &strings);
        proof {
            crate::rows::lemma_sort_commutes(
                unsorted,
                |e: EntryName| e.name@,
                row_key::<EntryName>(RowOrder::Name, strings@),
                name_key(),
            );
            crate::rows::lemma_stable_sort(unsorted, row_key::<EntryName>(RowOrder::Name, strings@));
            assert(all.subrange(0, d + 1).drop_last() =~= all.subrange(0, d as int));
            assert(all.subrange(0, d + 1).last() == all[d as int]);
        }
        let ghost sorted_names = entry_names(names@);
        write_number(&mut hasher, names.len() as u64);
        let ghost base = hasher@;
        let mut i: usize = 0;
        assert(sorted_names.subrange(0, 0) =~= Seq::<Seq<u8>>::empty());
        assert(hasher@ =~= base + names_written(sorted_names.subrange(0, 0)));
        while i < names.len()
            invariant
                i <= names@.len(),
                sorted_names == entry_names(names@),
                hasher@ == base + names_written(sorted_names.subrange(0, i as int)),
            decreases names@.len() - i,
        {
            let ghost before = names_written(sorted_names.subrange(0, i as int));
            assert(sorted_names.subrange(0, i + 1).drop_last() =~= sorted_names.subrange(
                0,
                i as int,
            ));
            assert(sorted_names.subrange(0, i + 1).last() == names@[i as int].name@);
            write_number(&mut hasher, names[i].name.len() as u64);
            hasher.write(names[i].name.as_slice());
            assert(hasher@ =~= base + names_written(sorted_names.subrange(0, i + 1)));
            i += 1;
        }
        assert(sorted_names.subrange(0, i as int) =~= sorted_names);
        d += 1;
    }
    assert(all.subrange(0, n as int) =~= all);
    hasher.finish()
}

/// The handles to the counter files of one network interface.
#[derive(Debug)]
pub struct NetInterfaceHandles<H> {
    /// `statistics/rx_bytes`
    pub rx_bytes: H,
    /// `statistics/tx_bytes`
    pub tx_bytes: H,
}

/// The handles to the attribute files of one GPU.
#[derive(Debug)]
pub struct GpuHandles<H> {
    /// `device/mem_info_vram_used`
    pub mem_info_vram_used: H,
    /// `device/mem_info_vram_total`
    pub mem_info_vram_total: H,
    /// `device/mem_busy_percent`
    pub mem_busy_percent: H,
    /// `device/gpu_busy_percent`
    pub gpu_busy_percent: H,
    /// The `temp*_input` files of the GPU's sensor.
    pub temperatures: Vec<H>,
}

impl<H> GpuHandles<H> {
    /// The handles of a GPU from the attribute files that could be opened.
    ///
    /// A device that lacks one of the four attributes is not a GPU that can be
    /// watched: it is left out, and nothing else is affected.
    pub fn from_opened(
        mem_info_vram_used: Option<H>,
        mem_info_vram_total: Option<H>,
        mem_busy_percent: Option<H>,
        gpu_busy_percent: Option<H>,
        temperatures: Vec<H>,
    ) -> (r: Option<GpuHandles<H>>)
        ensures
            r == if mem_info_vram_used is Some && mem_info_vram_total is Some
                && mem_busy_percent is Some && gpu_busy_percent is Some {
                Some(
                    GpuHandles {
                        mem_info_vram_used: mem_info_vram_used->0,
                        mem_info_vram_total: mem_info_vram_total->0,
                        mem_busy_percent: mem_busy_percent->0,
                        gpu_busy_percent: gpu_busy_percent->0,
                        temperatures,
                    },
                )
            } else {
                None
            },
    {
        match (mem_info_vram_used, mem_info_vram_total, mem_busy_percent, gpu_busy_percent) {
            (Some(used), Some(total), Some(mem_busy), Some(gpu_busy)) => Some(
                GpuHandles {
                    mem_info_vram_used: used,
                    mem_info_vram_total: total,
                    mem_busy_percent: mem_busy,
                    gpu_busy_percent: gpu_busy,
                    temperatures,
                },
            ),
            _ => None,
        }
    }
}

/// The handles to all watched files, with the fingerprint of the environment in
/// which they were opened.
#[derive(Debug)]
pub struct Handles<H> {
    /// `/proc/diskstats`
    pub diskstats: H,
    /// `/proc/meminfo`
    pub meminfo: H,
    /// `/proc/mounts`
    pub mounts: H,
    /// `/proc/stat`
    pub stat: H,
    /// `/proc/uptime`
    pub uptime: H,
    /// The `temp*_input` files of the CPU's sensors.
    pub cpu_temperatures: Vec<H>,
    pub by_net_interface: NameMap<NetInterfaceHandles<H>>,
    pub by_gpu: NameMap<GpuHandles<H>>,
    /// The fingerprint of the watched directories when the handles were opened.
    pub environment_hash: u64,
}

impl<H> Handles<H> {
    /// Whether the watched directories changed since the handles were opened, going
    /// by their fingerprint.
    pub fn is_stale(&self, observed_hash: u64) -> (r: bool)
        ensures
            r == (observed_hash != self.environment_hash),
    {
        observed_hash != self.environment_hash
    }

    /// Keeps the handles where the fingerprint of the watched directories is the one
    /// they were opened under, and otherwise replaces all of them by what `rebuild`
    /// opens. Handles are never replaced one by one.
    pub fn update<F: FnOnce() -> Handles<H>>(&mut self, observed_hash: u64, rebuild: F)
        requires
            call_requires(rebuild, ()),
        ensures
            observed_hash == old(self).environment_hash ==> *final(self) == *old(self),
            observed_hash != old(self).environment_hash ==> call_ensures(rebuild, (), *final(self)),
    {
        if self.is_stale(observed_hash) {
            *self = rebuild();
        }
    }
}

} // verus!
