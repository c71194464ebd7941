//! Point-in-time records parsed from the kernel's system-wide pseudo-files.

use crate::maps::NameMap;
use crate::text::{
    ascii, ascii_bytes, find_key, find_line, first_without, has_prefix, lines, lines_of, numbers, parse_bounded, present,
    lemma_try_map_prefix_err, parse_nanos,
    parse_u64, parse_unsigned, skip_prefixed, spec_numbers, spec_parse_nanos,
    spec_parse_u64, split, split_ascii_whitespace, split_on, starts_with, trim, trimmed, try_map,
    views, words_of, Field, ParseError,
};
use vstd::prelude::*;
use vstd::slice::{slice_subrange, slice_to_vec};

verus! {

/// Cumulative jiffies of one core since boot.
#[derive(Clone, Copy, Debug, PartialEq, Eq)]
pub struct CpuStat {
    /// Time in user mode, niced or not.
    pub user: u64,
    /// Time in kernel mode, interrupts and stolen time included.
    pub system: u64,
    /// Time in the idle task.
    pub idle: u64,
    /// Time spent running guests, niced or not.
    pub guest: u64,
}

/// Whether a space-separated piece of a `stat` line precedes the counters: the
/// `cpu<N>` label and the empty pieces that padding leaves.
pub open spec fn is_cpu_label(piece: Seq<u8>) -> bool {
    piece.len() == 0 || has_prefix(piece, ascii_bytes("cpu"@))
}

/// The pieces that follow the leading labels.
pub open spec fn skip_labels(pieces: Seq<Seq<u8>>) -> Seq<Seq<u8>>
    decreases pieces.len(),
{
    if pieces.len() > 0 && is_cpu_label(pieces[0]) {
        skip_labels(pieces.drop_first())
    } else {
        pieces
    }
}

/// The ten counters of a `stat` line; the fifth, time waiting for I/O, is not read.
pub open spec fn cpu_layout() -> Seq<Field> {
    seq![
        Field::U64,
        Field::U64,
        Field::U64,
        Field::U64,
        Field::Skip,
        Field::U64,
        Field::U64,
        Field::U64,
        Field::U64,
        Field::U64,
    ]
}

impl CpuStat {
    /// The record that the counters `n` of a `stat` line give: user and nice make
    /// `user`; system, irq, softirq and steal make `system`; guest and guest_nice
    /// make `guest`.
    pub open spec fn from_counters(n: Seq<u64>) -> Result<CpuStat, ParseError> {
        if n[0] + n[1] <= u64::MAX && n[2] + n[5] + n[6] + n[7] <= u64::MAX && n[8] + n[9]
            <= u64::MAX {
            Ok(
                CpuStat {
                    user: (n[0] + n[1]) as u64,
                    system: (n[2] + n[5] + n[6] + n[7]) as u64,
                    idle: n[3],
                    guest: (n[8] + n[9]) as u64,
                },
            )
        } else {
            Err(ParseError::Overflow)
        }
    }

    /// What a per-core line of `/proc/stat` holds.
    pub open spec fn spec_parse(line: Seq<u8>) -> Result<CpuStat, ParseError> {
        match spec_numbers(skip_labels(split_on(line, 32)), cpu_layout()) {
            Ok(n) => Self::from_counters(n),
            Err(e) => Err(e),
        }
    }

    /// Parses a per-core line of `/proc/stat`, such as `cpu3 3417 151 2626 706482 159 0 8 0 0 0`.
    pub fn parse(line: &[u8]) -> (r: Result<CpuStat, ParseError>)
        ensures
            r == Self::spec_parse(line@),
    {
        let mut pieces: Vec<&[u8]> = split(line, 32);
        let ghost all = views(pieces@);
        let n: usize = pieces.len();
        let mut k: usize = 0;
        proof {
            reveal_strlit("cpu");
            assert(all.subrange(0, n as int) =~= all);
        }
        let label: &[u8] = ascii("cpu");
        while k < n && (pieces[k].len() == 0 || starts_with(pieces[k], label))
            invariant
                k <= n,
                n == pieces@.len(),
                all == views(pieces@),
                label@ == ascii_bytes("cpu"@),
                skip_labels(all) == skip_labels(all.subrange(k as int, n as int)),
            decreases n - k,
        {
            assert(all[k as int] == pieces@[k as int]@);
            assert(all.subrange(k as int, n as int).drop_first() =~= all.subrange(k + 1, n as int));
            k += 1;
        }
        proof {
            if k < n {
                assert(all[k as int] == pieces@[k as int]@);
            }
        }
        let fields: Vec<&[u8]> = pieces.split_off(k);
        assert(views(fields@) =~= all.subrange(k as int, n as int));
        let layout: [Field; 10] = [
            Field::U64,
            Field::U64,
            Field::U64,
            Field::U64,
            Field::Skip,
            Field::U64,
            Field::U64,
            Field::U64,
            Field::U64,
            Field::U64,
        ];
        assert(layout@ =~= cpu_layout());
        let c: Vec<u64> = match numbers(&fields, layout.as_slice()) {
            Ok(c) => c,
            Err(e) => { return Err(e); },
        };
        let user: Option<u64> = c[0].checked_add(c[1]);
        let sys_a: Option<u64> = c[2].checked_add(c[5]);
        let sys_b: Option<u64> = c[6].checked_add(c[7]);
        let guest: Option<u64> = c[8].checked_add(c[9]);
        match (user, sys_a, sys_b, guest) {
            (Some(user), Some(a), Some(b), Some(guest)) => {
                match a.checked_add(b) {
                    Some(system) => Ok(CpuStat { user, system, idle: c[3], guest }),
                    None => Err(ParseError::Overflow),
                }
            },
            _ => Err(ParseError::Overflow),
        }
    }
}

/// Memory figures of `/proc/meminfo`, in kibibytes.
#[derive(Clone, Copy, Debug, PartialEq, Eq)]
pub struct MemInfo {
    pub mem_total: u64,
    pub mem_free: u64,
    pub mem_available: u64,
    pub swap_total: u64,
    pub swap_free: u64,
}

/// The figure of a `meminfo` line: what stands between the key and the two-byte
/// unit at the end of the line, trimmed.
pub open spec fn kilobytes_of(line: Seq<u8>, key: Seq<u8>) -> Result<u64, ParseError> {
    if line.len() < key.len() + 2 {
        Err(ParseError::Malformed)
    } else {
        match spec_parse_u64(trimmed(line.subrange(key.len() as int, line.len() - 2))) {
            Some(v) => Ok(v),
            None => Err(ParseError::InvalidNumber),
        }
    }
}

/// The figure of the first line at or after `from` that begins with `key`, and the
/// index of the line that follows it.
pub open spec fn spec_meminfo_entry(lines: Seq<Seq<u8>>, from: int, key: Seq<u8>) -> Result<
    (u64, int),
    ParseError,
> {
    let at = find_line(lines, from, key);
    if at >= lines.len() {
        Err(ParseError::MissingKey)
    } else {
        match kilobytes_of(lines[at], key) {
            Ok(v) => Ok((v, at + 1)),
            Err(e) => Err(e),
        }
    }
}

fn meminfo_entry(lines: &Vec<&[u8]>, from: usize, key: &[u8]) -> (r: Result<
    (u64, usize),
    ParseError,
>)
    ensures
        match r {
            Ok((v, next)) => spec_meminfo_entry(views(lines@), from as int, key@) == Ok::<
                (u64, int),
                ParseError,
            >((v, next as int)),
            Err(e) => spec_meminfo_entry(views(lines@), from as int, key@) == Err::<
                (u64, int),
                ParseError,
            >(e),
        },
{
    let at: usize = find_key(lines, from, key);
    if at >= lines.len() {
        return Err(ParseError::MissingKey);
    }
    let line: &[u8] = lines[at];
    assert(views(lines@)[at as int] == line@);
    if line.len() < 2 || line.len() - 2 < key.len() {
        return Err(ParseError::Malformed);
    }
    match parse_u64(trim(slice_subrange(line, key.len(), line.len() - 2))) {
        Some(v) => Ok((v, at + 1)),
        None => Err(ParseError::InvalidNumber),
    }
}

impl MemInfo {
    /// What the text of `/proc/meminfo` holds: the five keys are looked for in this
    /// order, each from the line after the previous one.
    pub open spec fn spec_parse(data: Seq<u8>) -> Result<MemInfo, ParseError> {
        let l = lines_of(data);
        match spec_meminfo_entry(l, 0, ascii_bytes("MemTotal:"@)) {
            Err(e) => Err(e),
            Ok((mem_total, from_free)) => match spec_meminfo_entry(l, from_free, ascii_bytes("MemFree:"@)) {
                Err(e) => Err(e),
                Ok((mem_free, from_available)) => match spec_meminfo_entry(
                    l,
                    from_available,
                    ascii_bytes("MemAvailable:"@),
                ) {
                    Err(e) => Err(e),
                    Ok((mem_available, from_swap_total)) => match spec_meminfo_entry(
                        l,
                        from_swap_total,
                        ascii_bytes("SwapTotal:"@),
                    ) {
                        Err(e) => Err(e),
                        Ok((swap_total, from_swap_free)) => match spec_meminfo_entry(
                            l,
                            from_swap_free,
                            ascii_bytes("SwapFree:"@),
                        ) {
                            Err(e) => Err(e),
                            Ok((swap_free, rest)) => Ok(
                                MemInfo { mem_total, mem_free, mem_available, swap_total, swap_free },
                            ),
                        },
                    },
                },
            },
        }
    }

    /// Parses the text of `/proc/meminfo`.
    pub fn parse(data: &[u8]) -> (r: Result<MemInfo, ParseError>)
        ensures
            r == Self::spec_parse(data@),
    {
        proof {
            reveal_strlit("MemTotal:");
            reveal_strlit("MemFree:");
            reveal_strlit("MemAvailable:");
            reveal_strlit("SwapTotal:");
            reveal_strlit("SwapFree:");
        }
        let l: Vec<&[u8]> = lines(data);
        let (mem_total, from_free) = meminfo_entry(&l, 0, ascii("MemTotal:"))?;
        let (mem_free, from_available) = meminfo_entry(&l, from_free, ascii("MemFree:"))?;
        let (mem_available, from_swap_total) = meminfo_entry(&l, from_available, ascii("MemAvailable:"))?;
        let (swap_total, from_swap_free) = meminfo_entry(&l, from_swap_total, ascii("SwapTotal:"))?;
        let (swap_free, _rest) = meminfo_entry(&l, from_swap_free, ascii("SwapFree:"))?;
        Ok(MemInfo { mem_total, mem_free, mem_available, swap_total, swap_free })
    }
}

/// Cumulative I/O counters of one block device, as `/proc/diskstats` lists them.
/// Times are in milliseconds.
#[derive(Clone, Debug)]
pub struct DiskStats {
    pub major_device_number: u16,
    /// Zero for a whole disk, non-zero for a partition.
    pub minor_device_number: u16,
    pub device_name: Vec<u8>,
    pub reads_completed: u64,
    pub reads_merged: u64,
    pub sectors_read: u64,
    pub time_spent_reading: u64,
    pub writes_completed: u64,
    pub writes_merged: u64,
    pub sectors_written: u64,
    pub time_spent_writing: u64,
    pub io_currently_in_progress: u32,
    pub time_spent_io: u64,
    pub weighted_time_spent_io: u64,
    pub discards_completed: u64,
    pub discards_merged: u64,
    pub sectors_discarded: u64,
    pub time_spent_discarding: u64,
    pub flush_requests_completed: u64,
    pub time_spent_flushing: u64,
}

/// What the field at position `i` of a `diskstats` line holds.
pub open spec fn disk_field(i: int) -> Field {
    if i == 0 || i == 1 {
        Field::U16
    } else if i == 2 {
        Field::Skip
    } else if i == 11 {
        Field::U32
    } else {
        Field::U64
    }
}

/// The twenty fields of a `diskstats` line; the third is the device's name.
pub open spec fn disk_layout() -> Seq<Field> {
    Seq::new(20, |i: int| disk_field(i))
}

impl DeepView for DiskStats {
    type V = (Seq<u8>, Seq<u64>);

    /// The device's name and the numbers of the record.
    open spec fn deep_view(&self) -> (Seq<u8>, Seq<u64>) {
        (self.device_name@, self.counters())
    }
}

impl DiskStats {
    /// What a line of `/proc/diskstats` holds: the name in its third field and the
    /// numbers in the others.
    pub open spec fn spec_parse(line: Seq<u8>) -> Result<(Seq<u8>, Seq<u64>), ParseError> {
        match spec_numbers(words_of(line), disk_layout()) {
            Ok(n) => Ok((words_of(line)[2], n)),
            Err(e) => Err(e),
        }
    }

    /// The numbers of the record in the order of the line, zero in the name's place.
    pub open spec fn counters(&self) -> Seq<u64> {
        seq![
            self.major_device_number as u64,
            self.minor_device_number as u64,
            0,
            self.reads_completed,
            self.reads_merged,
            self.sectors_read,
            self.time_spent_reading,
            self.writes_completed,
            self.writes_merged,
            self.sectors_written,
            self.time_spent_writing,
            self.io_currently_in_progress as u64,
            self.time_spent_io,
            self.weighted_time_spent_io,
            self.discards_completed,
            self.discards_merged,
            self.sectors_discarded,
            self.time_spent_discarding,
            self.flush_requests_completed,
            self.time_spent_flushing,
        ]
    }

    /// Parses one line of `/proc/diskstats`: twenty whitespace-separated fields, of
    /// which all but the name are numbers.
    pub fn parse(line: &[u8]) -> (r: Result<DiskStats, ParseError>)
        ensures
            match r {
                Ok(d) => Self::spec_parse(line@) == Ok::<(Seq<u8>, Seq<u64>), ParseError>(
                    d.deep_view(),
                ),
                Err(e) => Self::spec_parse(line@) == Err::<(Seq<u8>, Seq<u64>), ParseError>(e),
            },
    {
        let words: Vec<&[u8]> = split_ascii_whitespace(line);
        let layout: [Field; 20] = [
            Field::U16,
            Field::U16,
            Field::Skip,
            Field::U64,
            Field::U64,
            Field::U64,
            Field::U64,
            Field::U64,
            Field::U64,
            Field::U64,
            Field::U64,
            Field::U32,
            Field::U64,
            Field::U64,
            Field::U64,
            Field::U64,
            Field::U64,
            Field::U64,
            Field::U64,
            Field::U64,
        ];
        assert(layout@ =~= disk_layout());
        let c: Vec<u64> = numbers(&words, layout.as_slice())?;
        assert(forall|i: int| 0 <= i < 20 ==> c@[i] == crate::text::field_value(
            views(words@),
            disk_layout(),
            i,
        ));
        assert(crate::text::field_ok(views(words@), disk_layout(), 0));
        assert(crate::text::field_ok(views(words@), disk_layout(), 1));
        assert(crate::text::field_ok(views(words@), disk_layout(), 11));
        assert(c@[0] <= 0xffff && c@[1] <= 0xffff && c@[11] <= 0xffff_ffff);
        assert(views(words@)[2] == words@[2]@);
        let d = DiskStats {
            major_device_number: c[0] as u16,
            minor_device_number: c[1] as u16,
            device_name: slice_to_vec(words[2]),
            reads_completed: c[3],
            reads_merged: c[4],
            sectors_read: c[5],
            time_spent_reading: c[6],
            writes_completed: c[7],
            writes_merged: c[8],
            sectors_written: c[9],
            time_spent_writing: c[10],
            io_currently_in_progress: c[11] as u32,
            time_spent_io: c[12],
            weighted_time_spent_io: c[13],
            discards_completed: c[14],
            discards_merged: c[15],
            sectors_discarded: c[16],
            time_spent_discarding: c[17],
            flush_requests_completed: c[18],
            time_spent_flushing: c[19],
        };
        assert(d.counters() =~= c@);
        Ok(d)
    }
}

/// Time since boot, in nanoseconds.
#[derive(Clone, Copy, Debug, PartialEq, Eq)]
pub struct Uptime {
    /// Wall-clock time since boot.
    pub since_boot: u64,
    /// Idle time summed over all cores.
    pub idle_cpu_since_boot: u64,
}

impl Uptime {
    /// What the text of `/proc/uptime` holds: two numbers of seconds.
    pub open spec fn spec_parse(data: Seq<u8>) -> Result<Uptime, ParseError> {
        let w = words_of(data);
        if w.len() < 2 {
            Err(ParseError::MissingField)
        } else {
            match (spec_parse_nanos(w[0]), spec_parse_nanos(w[1])) {
                (Some(since_boot), Some(idle_cpu_since_boot)) => Ok(
                    Uptime { since_boot, idle_cpu_since_boot },
                ),
                _ => Err(ParseError::InvalidNumber),
            }
        }
    }

    /// Parses the text of `/proc/uptime`, such as `350735.47 234388.90`.
    pub fn parse(data: &[u8]) -> (r: Result<Uptime, ParseError>)
        ensures
            r == Self::spec_parse(data@),
    {
        let w: Vec<&[u8]> = split_ascii_whitespace(data);
        if w.len() < 2 {
            return Err(ParseError::MissingField);
        }
        assert(views(w@)[0] == w@[0]@ && views(w@)[1] == w@[1]@);
        match (parse_nanos(w[0]), parse_nanos(w[1])) {
            (Some(since_boot), Some(idle_cpu_since_boot)) => Ok(
                Uptime { since_boot, idle_cpu_since_boot },
            ),
            _ => Err(ParseError::InvalidNumber),
        }
    }
}

/// The number that a file of one number holds, if it is at most `max`.
pub open spec fn spec_parse_value(data: Seq<u8>, max: u64) -> Result<u64, ParseError> {
    match parse_unsigned(trimmed(data), max as nat) {
        Some(v) => Ok(v as u64),
        None => Err(ParseError::InvalidNumber),
    }
}

/// Parses the text of a file that holds one number.
pub fn parse_value(data: &[u8], max: u64) -> (r: Result<u64, ParseError>)
    ensures
        r == spec_parse_value(data@, max),
        r matches Ok(v) ==> v <= max,
{
    match parse_bounded(trim(data), max) {
        Some(v) => Ok(v),
        None => Err(ParseError::InvalidNumber),
    }
}

/// The largest of `values`, zero where there is none.
pub open spec fn max_of(values: Seq<u64>) -> u64
    decreases values.len(),
{
    if values.len() == 0 {
        0
    } else if values.last() > max_of(values.drop_last()) {
        values.last()
    } else {
        max_of(values.drop_last())
    }
}

/// The highest of the temperatures that the sensor files `texts` hold, in
/// thousandths of a degree; zero where there is no sensor.
pub open spec fn spec_max_temperature(texts: Seq<Seq<u8>>) -> Result<u32, ParseError> {
    match try_map(texts, |t: Seq<u8>| spec_parse_value(t, 0xffff_ffff)) {
        Ok(values) => Ok(max_of(values) as u32),
        Err(e) => Err(e),
    }
}

/// Parses the sensor files `texts` and picks the highest temperature.
pub fn parse_max_temperature(texts: &Vec<&[u8]>) -> (r: Result<u32, ParseError>)
    ensures
        r == spec_max_temperature(views(texts@)),
{
    let ghost f = |t: Seq<u8>| spec_parse_value(t, 0xffff_ffff);
    let ghost all = views(texts@);
    let ghost mut seen: Seq<u64> = Seq::empty();
    let mut max: u32 = 0;
    let mut i: usize = 0;
    assert(all.subrange(0, 0) =~= Seq::<Seq<u8>>::empty());
    while i < texts.len()
        invariant
            i <= texts@.len(),
            all == views(texts@),
            f == |t: Seq<u8>| spec_parse_value(t, 0xffff_ffff),
            try_map(all.subrange(0, i as int), f) == Ok::<Seq<u64>, ParseError>(seen),
            max == max_of(seen),
        decreases texts@.len() - i,
    {
        assert(all.subrange(0, i + 1).drop_last() =~= all.subrange(0, i as int));
        assert(all[i as int] == texts@[i as int]@);
        match parse_value(texts[i], 0xffff_ffff) {
            Ok(v) => {
                proof {
                    assert(seen.push(v).drop_last() =~= seen);
                    seen = seen.push(v);
                }
                if v > max as u64 {
                    max = v as u32;
                }
            },
            Err(e) => {
                proof {
                    lemma_try_map_prefix_err(all, f, i + 1);
                }
                return Err(e);
            },
        }
        i += 1;
    }
    assert(all.subrange(0, i as int) =~= all);
    Ok(max)
}

/// What the lines of `/proc/diskstats` hold, one record per line.
pub open spec fn spec_parse_disk_stats(data: Seq<u8>) -> Result<
    Seq<(Seq<u8>, Seq<u64>)>,
    ParseError,
> {
    try_map(lines_of(data), |l: Seq<u8>| DiskStats::spec_parse(l))
}

/// Parses the text of `/proc/diskstats`.
pub fn parse_disk_stats(data: &[u8]) -> (r: Result<Vec<DiskStats>, ParseError>)
    ensures
        match r {
            Ok(v) => spec_parse_disk_stats(data@) == Ok::<Seq<(Seq<u8>, Seq<u64>)>, ParseError>(
                v.deep_view(),
            ),
            Err(e) => spec_parse_disk_stats(data@) == Err::<Seq<(Seq<u8>, Seq<u64>)>, ParseError>(
                e,
            ),
        },
{
    let l: Vec<&[u8]> = lines(data);
    let ghost f = |l: Seq<u8>| DiskStats::spec_parse(l);
    let ghost all = views(l@);
    let mut out: Vec<DiskStats> = Vec::new();
    let mut i: usize = 0;
    assert(all.subrange(0, 0) =~= Seq::<Seq<u8>>::empty());
    assert(out.deep_view() =~= Seq::<(Seq<u8>, Seq<u64>)>::empty());
    while i < l.len()
        invariant
            i <= l@.len(),
            all == views(l@),
            all == lines_of(data@),
            f == |l: Seq<u8>| DiskStats::spec_parse(l),
            try_map(all.subrange(0, i as int), f) == Ok::<Seq<(Seq<u8>, Seq<u64>)>, ParseError>(
                out.deep_view(),
            ),
        decreases l@.len() - i,
    {
        assert(all.subrange(0, i + 1).drop_last() =~= all.subrange(0, i as int));
        assert(all[i as int] == l@[i as int]@);
        let ghost before = out.deep_view();
        match DiskStats::parse(l[i]) {
            Ok(d) => {
                out.push(d);
                assert(out.deep_view() =~= before.push(d.deep_view()));
            },
            Err(e) => {
                proof {
                    assert(all.subrange(0, i + 1).last() == all[i as int]);
                    assert(f(all[i as int]) == DiskStats::spec_parse(all[i as int]));
                    assert(try_map(all.subrange(0, i + 1), f) == Err::<
                        Seq<(Seq<u8>, Seq<u64>)>,
                        ParseError,
                    >(e));
                    lemma_try_map_prefix_err(all, f, i + 1);
                }
                return Err(e);
            },
        }
        i += 1;
    }
    assert(all.subrange(0, i as int) =~= all);
    Ok(out)
}

/// The per-core lines of `/proc/stat`: of the lines that begin with `cpu` at the
/// top of the file, those after the leading lines of the aggregate, which begin
/// with `cpu` and a space.
pub open spec fn core_lines(lines: Seq<Seq<u8>>) -> Seq<Seq<u8>> {
    let first = first_without(lines, ascii_bytes("cpu "@), 0);
    let end = first_without(lines, ascii_bytes("cpu"@), first);
    lines.subrange(first, end)
}

/// What the per-core lines of `/proc/stat` hold.
pub open spec fn spec_parse_cpus_stat(data: Seq<u8>) -> Result<Seq<CpuStat>, ParseError> {
    try_map(core_lines(lines_of(data)), |l: Seq<u8>| CpuStat::spec_parse(l))
}

/// Parses the per-core lines of the text of `/proc/stat`.
pub fn parse_cpus_stat(data: &[u8]) -> (r: Result<Vec<CpuStat>, ParseError>)
    ensures
        match r {
            Ok(v) => spec_parse_cpus_stat(data@) == Ok::<Seq<CpuStat>, ParseError>(v@),
            Err(e) => spec_parse_cpus_stat(data@) == Err::<Seq<CpuStat>, ParseError>(e),
        },
{
    let l: Vec<&[u8]> = lines(data);
    proof {
        reveal_strlit("cpu ");
        reveal_strlit("cpu");
    }
    let first: usize = skip_prefixed(&l, ascii("cpu "), 0);
    let end: usize = skip_prefixed(&l, ascii("cpu"), first);
    let ghost f = |l: Seq<u8>| CpuStat::spec_parse(l);
    let ghost all = core_lines(views(l@));
    let mut out: Vec<CpuStat> = Vec::new();
    let mut i: usize = first;
    assert(all.subrange(0, 0) =~= Seq::<Seq<u8>>::empty());
    while i < end
        invariant
            first <= i <= end <= l@.len(),
            all == views(l@).subrange(first as int, end as int),
            all == core_lines(lines_of(data@)),
            f == |l: Seq<u8>| CpuStat::spec_parse(l),
            try_map(all.subrange(0, i - first), f) == Ok::<Seq<CpuStat>, ParseError>(out@),
        decreases end - i,
    {
        assert(all.subrange(0, i + 1 - first).drop_last() =~= all.subrange(0, i - first));
        assert(all[i - first] == l@[i as int]@);
        match CpuStat::parse(l[i]) {
            Ok(c) => {
                out.push(c);
            },
            Err(e) => {
                proof {
                    assert(all.subrange(0, i + 1 - first).last() == all[i - first]);
                    assert(f(all[i - first]) == CpuStat::spec_parse(all[i - first]));
                    assert(try_map(all.subrange(0, i + 1 - first), f) == Err::<
                        Seq<CpuStat>,
                        ParseError,
                    >(e));
                    lemma_try_map_prefix_err(all, f, i + 1 - first);
                }
                return Err(e);
            },
        }
        i += 1;
    }
    assert(all.subrange(0, i - first) =~= all);
    Ok(out)
}

/// Cumulative traffic of one network interface, in bytes.
#[derive(Clone, Copy, Debug, PartialEq, Eq)]
pub struct NetInterfaceSnapshot {
    pub rx_bytes: u64,
    pub tx_bytes: u64,
}

impl NetInterfaceSnapshot {
    /// What the two counter files of an interface hold.
    pub open spec fn spec_parse(rx_bytes: Seq<u8>, tx_bytes: Seq<u8>) -> Result<
        NetInterfaceSnapshot,
        ParseError,
    > {
        match (
            spec_parse_value(rx_bytes, 0xffff_ffff_ffff_ffff),
            spec_parse_value(tx_bytes, 0xffff_ffff_ffff_ffff),
        ) {
            (Ok(rx_bytes), Ok(tx_bytes)) => Ok(NetInterfaceSnapshot { rx_bytes, tx_bytes }),
            _ => Err(ParseError::InvalidNumber),
        }
    }

    /// Parses the texts of `statistics/rx_bytes` and `statistics/tx_bytes`.
    pub fn parse(rx_bytes: &[u8], tx_bytes: &[u8]) -> (r: Result<NetInterfaceSnapshot, ParseError>)
        ensures
            r == Self::spec_parse(rx_bytes@, tx_bytes@),
    {
        let rx_bytes: u64 = parse_value(rx_bytes, 0xffff_ffff_ffff_ffff)?;
        let tx_bytes: u64 = parse_value(tx_bytes, 0xffff_ffff_ffff_ffff)?;
        Ok(NetInterfaceSnapshot { rx_bytes, tx_bytes })
    }
}

/// Memory use, load and temperature of one GPU.
#[derive(Clone, Copy, Debug, PartialEq, Eq)]
pub struct GpuSnapshot {
    pub mem_info_vram_used: u64,
    pub mem_info_vram_total: u64,
    pub mem_busy_percent: u16,
    pub gpu_busy_percent: u16,
    /// Highest sensor reading, in thousandths of a degree.
    pub max_temperature: u32,
}

/// The texts of the attribute files of one GPU.
pub struct GpuText<'a> {
    pub mem_info_vram_used: &'a [u8],
    pub mem_info_vram_total: &'a [u8],
    pub mem_busy_percent: &'a [u8],
    pub gpu_busy_percent: &'a [u8],
    pub temperatures: Vec<&'a [u8]>,
}

impl GpuSnapshot {
    /// What the attribute files of a GPU hold.
    pub open spec fn spec_parse(text: GpuText) -> Result<GpuSnapshot, ParseError> {
        match (
            spec_parse_value(text.mem_info_vram_used@, 0xffff_ffff_ffff_ffff),
            spec_parse_value(text.mem_info_vram_total@, 0xffff_ffff_ffff_ffff),
            spec_parse_value(text.mem_busy_percent@, 0xffff),
            spec_parse_value(text.gpu_busy_percent@, 0xffff),
            spec_max_temperature(views(text.temperatures@)),
        ) {
            (Ok(used), Ok(total), Ok(mem_busy), Ok(gpu_busy), Ok(max_temperature)) => Ok(
                GpuSnapshot {
                    mem_info_vram_used: used,
                    mem_info_vram_total: total,
                    mem_busy_percent: mem_busy as u16,
                    gpu_busy_percent: gpu_busy as u16,
                    max_temperature,
                },
            ),
            _ => Err(ParseError::InvalidNumber),
        }
    }

    /// Parses the texts of the attribute files of a GPU.
    pub fn parse(text: &GpuText) -> (r: Result<GpuSnapshot, ParseError>)
        ensures
            r == Self::spec_parse(*text),
    {
        proof {
            lemma_max_temperature_error(views(text.temperatures@));
        }
        let used: u64 = parse_value(text.mem_info_vram_used, 0xffff_ffff_ffff_ffff)?;
        let total: u64 = parse_value(text.mem_info_vram_total, 0xffff_ffff_ffff_ffff)?;
        let mem_busy: u64 = parse_value(text.mem_busy_percent, 0xffff)?;
        let gpu_busy: u64 = parse_value(text.gpu_busy_percent, 0xffff)?;
        let max_temperature: u32 = parse_max_temperature(&text.temperatures)?;
        Ok(
            GpuSnapshot {
                mem_info_vram_used: used,
                mem_info_vram_total: total,
                mem_busy_percent: mem_busy as u16,
                gpu_busy_percent: gpu_busy as u16,
                max_temperature,
            },
        )
    }
}

/// Sensor files fail to parse in one way only.
pub proof fn lemma_max_temperature_error(texts: Seq<Seq<u8>>)
    ensures
        spec_max_temperature(texts) matches Err(e) ==> e == ParseError::InvalidNumber,
    decreases texts.len(),
{
    if texts.len() > 0 {
        lemma_max_temperature_error(texts.drop_last());
    }
}

/// A mounted device and the directory it is mounted on.
#[derive(Clone, Debug)]
pub struct MountEntry {
    pub device: Vec<u8>,
    pub mountpath: Vec<u8>,
}

impl DeepView for MountEntry {
    type V = (Seq<u8>, Seq<u8>);

    open spec fn deep_view(&self) -> (Seq<u8>, Seq<u8>) {
        (self.device@, self.mountpath@)
    }
}

/// What a line of `/proc/mounts` holds: its first two words, if the first is a path
/// under `/dev`.
pub open spec fn spec_mount_line(line: Seq<u8>) -> Result<Option<(Seq<u8>, Seq<u8>)>, ParseError> {
    let w = words_of(line);
    if w.len() < 2 {
        Err(ParseError::MissingField)
    } else if has_prefix(w[0], ascii_bytes("/dev"@)) {
        Ok(Some((w[0], w[1])))
    } else {
        Ok(None)
    }
}

/// The devices under `/dev` that the text of `/proc/mounts` lists, in its order.
pub open spec fn spec_mount_entries(data: Seq<u8>) -> Result<Seq<(Seq<u8>, Seq<u8>)>, ParseError> {
    match try_map(lines_of(data), |l: Seq<u8>| spec_mount_line(l)) {
        Ok(found) => Ok(present(found)),
        Err(e) => Err(e),
    }
}

/// Parses the text of `/proc/mounts` and keeps the devices under `/dev`.
pub fn mount_entries(data: &[u8]) -> (r: Result<Vec<MountEntry>, ParseError>)
    ensures
        match r {
            Ok(v) => spec_mount_entries(data@) == Ok::<Seq<(Seq<u8>, Seq<u8>)>, ParseError>(
                v.deep_view(),
            ),
            Err(e) => spec_mount_entries(data@) == Err::<Seq<(Seq<u8>, Seq<u8>)>, ParseError>(e),
        },
{
    let l: Vec<&[u8]> = lines(data);
    proof {
        reveal_strlit("/dev");
    }
    let dev: &[u8] = ascii("/dev");
    let ghost f = |l: Seq<u8>| spec_mount_line(l);
    let ghost all = views(l@);
    let ghost mut seen: Seq<Option<(Seq<u8>, Seq<u8>)>> = Seq::empty();
    let mut out: Vec<MountEntry> = Vec::new();
    let mut i: usize = 0;
    assert(all.subrange(0, 0) =~= Seq::<Seq<u8>>::empty());
    assert(out.deep_view() =~= Seq::<(Seq<u8>, Seq<u8>)>::empty());
    while i < l.len()
        invariant
            i <= l@.len(),
            all == views(l@),
            all == lines_of(data@),
            dev@ == ascii_bytes("/dev"@),
            f == |l: Seq<u8>| spec_mount_line(l),
            try_map(all.subrange(0, i as int), f) == Ok::<
                Seq<Option<(Seq<u8>, Seq<u8>)>>,
                ParseError,
            >(seen),
            out.deep_view() == present(seen),
        decreases l@.len() - i,
    {
        assert(all.subrange(0, i + 1).drop_last() =~= all.subrange(0, i as int));
        assert(all.subrange(0, i + 1).last() == all[i as int]);
        assert(all[i as int] == l@[i as int]@);
        assert(f(all[i as int]) == spec_mount_line(all[i as int]));
        let ghost before = out.deep_view();
        let w: Vec<&[u8]> = split_ascii_whitespace(l[i]);
        if w.len() < 2 {
            proof {
                assert(try_map(all.subrange(0, i + 1), f) == Err::<
                    Seq<Option<(Seq<u8>, Seq<u8>)>>,
                    ParseError,
                >(ParseError::MissingField));
                lemma_try_map_prefix_err(all, f, i + 1);
            }
            return Err(ParseError::MissingField);
        }
        assert(views(w@)[0] == w@[0]@ && views(w@)[1] == w@[1]@);
        if starts_with(w[0], dev) {
            let entry = MountEntry { device: slice_to_vec(w[0]), mountpath: slice_to_vec(w[1]) };
            out.push(entry);
            proof {
                assert(out.deep_view() =~= before.push((w@[0]@, w@[1]@)));
                assert(seen.push(Some((w@[0]@, w@[1]@))).drop_last() =~= seen);
                seen = seen.push(Some((w@[0]@, w@[1]@)));
            }
        } else {
            proof {
                assert(seen.push(None).drop_last() =~= seen);
                seen = seen.push(None);
            }
        }
        i += 1;
    }
    assert(all.subrange(0, i as int) =~= all);
    Ok(out)
}

/// The map that inserting `entries` in order gives: of two entries with one name
/// the later one stays.
pub open spec fn spec_mount_map(entries: Seq<(Seq<u8>, Seq<u8>)>) -> Map<Seq<u8>, Seq<u8>>
    decreases entries.len(),
{
    if entries.len() == 0 {
        Map::empty()
    } else {
        spec_mount_map(entries.drop_last()).insert(entries.last().0, entries.last().1)
    }
}

/// Where each partition is mounted, by the partition's device name.
#[derive(Debug)]
pub struct PartitionToMountpath {
    pub partition_to_mountpath: NameMap<Vec<u8>>,
}

impl PartitionToMountpath {
    /// The mount path of each partition.
    pub open spec fn paths(&self) -> Map<Seq<u8>, Seq<u8>> {
        self.partition_to_mountpath@.map_values(|v: Vec<u8>| v@)
    }

    /// Builds the map from mount entries whose `device` is the resolved device name.
    pub fn from_entries(entries: &Vec<MountEntry>) -> (r: Self)
        ensures
            r.partition_to_mountpath.wf(),
            r.paths() == spec_mount_map(entries.deep_view()),
    {
        let ghost all = entries.deep_view();
        let mut map: NameMap<Vec<u8>> = NameMap::new();
        let mut i: usize = 0;
        assert(all.subrange(0, 0) =~= Seq::<(Seq<u8>, Seq<u8>)>::empty());
        assert(map@.map_values(|v: Vec<u8>| v@) =~= Map::<Seq<u8>, Seq<u8>>::empty());
        while i < entries.len()
            invariant
                i <= entries@.len(),
                all == entries.deep_view(),
                map.wf(),
                map@.map_values(|v: Vec<u8>| v@) == spec_mount_map(all.subrange(0, i as int)),
            decreases entries@.len() - i,
        {
            assert(all.subrange(0, i + 1).drop_last() =~= all.subrange(0, i as int));
            assert(all.subrange(0, i + 1).last() == all[i as int]);
            let ghost before = map@;
            let device: Vec<u8> = entries[i].device.clone();
            let mountpath: Vec<u8> = entries[i].mountpath.clone();
            assert(device@ =~= entries@[i as int].device@);
            assert(mountpath@ =~= entries@[i as int].mountpath@);
            let _ = map.insert(device, mountpath);
            assert(map@.map_values(|v: Vec<u8>| v@) =~= before.map_values(|v: Vec<u8>| v@).insert(
                all[i as int].0,
                all[i as int].1,
            ));
            i += 1;
        }
        assert(all.subrange(0, i as int) =~= all);
        PartitionToMountpath { partition_to_mountpath: map }
    }
}

/// The texts of the counter files of one network interface.
pub struct NetInterfaceText<'a> {
    pub rx_bytes: &'a [u8],
    pub tx_bytes: &'a [u8],
}

/// The map that inserting the parsed `entries` in order gives; the first entry
/// that did not parse is the failure.
pub open spec fn collect_named<V>(entries: Seq<(Seq<u8>, Result<V, ParseError>)>) -> Result<
    Map<Seq<u8>, V>,
    ParseError,
>
    decreases entries.len(),
{
    if entries.len() == 0 {
        Ok(Map::empty())
    } else {
        match collect_named(entries.drop_last()) {
            Err(e) => Err(e),
            Ok(m) => match entries.last().1 {
                Err(e) => Err(e),
                Ok(v) => Ok(m.insert(entries.last().0, v)),
            },
        }
    }
}

/// A failure on a prefix of the entries is the failure on all of them.
pub proof fn lemma_collect_named_prefix_err<V>(
    entries: Seq<(Seq<u8>, Result<V, ParseError>)>,
    n: int,
)
    requires
        0 <= n <= entries.len(),
        collect_named(entries.subrange(0, n)) is Err,
    ensures
        collect_named(entries) == collect_named(entries.subrange(0, n)),
    decreases entries.len() - n,
{
    if n == entries.len() {
        assert(entries.subrange(0, n) =~= entries);
    } else {
        assert(entries.subrange(0, n + 1).drop_last() =~= entries.subrange(0, n));
        lemma_collect_named_prefix_err(entries, n + 1);
    }
}

/// The readings of the network interfaces named in `entries`.
pub open spec fn spec_parse_net_interfaces(entries: Seq<(&[u8], NetInterfaceText)>) -> Result<
    Map<Seq<u8>, NetInterfaceSnapshot>,
    ParseError,
> {
    collect_named(
        entries.map_values(
            |e: (&[u8], NetInterfaceText)|
                (e.0@, NetInterfaceSnapshot::spec_parse(e.1.rx_bytes@, e.1.tx_bytes@)),
        ),
    )
}

/// Parses the counter files of the network interfaces named in `entries`.
pub fn parse_net_interfaces(entries: &Vec<(&[u8], NetInterfaceText)>) -> (r: Result<
    NameMap<NetInterfaceSnapshot>,
    ParseError,
>)
    ensures
        match r {
            Ok(m) => m.wf() && spec_parse_net_interfaces(entries@) == Ok::<
                Map<Seq<u8>, NetInterfaceSnapshot>,
                ParseError,
            >(m@),
            Err(e) => spec_parse_net_interfaces(entries@) == Err::<
                Map<Seq<u8>, NetInterfaceSnapshot>,
                ParseError,
            >(e),
        },
{
    let ghost all = entries@.map_values(
        |e: (&[u8], NetInterfaceText)|
            (e.0@, NetInterfaceSnapshot::spec_parse(e.1.rx_bytes@, e.1.tx_bytes@)),
    );
    let mut map: NameMap<NetInterfaceSnapshot> = NameMap::new();
    let mut i: usize = 0;
    assert(all.subrange(0, 0) =~= Seq::<
        (Seq<u8>, Result<NetInterfaceSnapshot, ParseError>),
    >::empty());
    while i < entries.len()
        invariant
            i <= entries@.len(),
            all == entries@.map_values(
                |e: (&[u8], NetInterfaceText)|
                    (e.0@, NetInterfaceSnapshot::spec_parse(e.1.rx_bytes@, e.1.tx_bytes@)),
            ),
            map.wf(),
            collect_named(all.subrange(0, i as int)) == Ok::<
                Map<Seq<u8>, NetInterfaceSnapshot>,
                ParseError,
            >(map@),
        decreases entries@.len() - i,
    {
        assert(all.subrange(0, i + 1).drop_last() =~= all.subrange(0, i as int));
        assert(all.subrange(0, i + 1).last() == all[i as int]);
        match NetInterfaceSnapshot::parse(entries[i].1.rx_bytes, entries[i].1.tx_bytes) {
            Ok(v) => {
                let _ = map.insert(slice_to_vec(entries[i].0), v);
            },
            Err(e) => {
                proof {
                    lemma_collect_named_prefix_err(all, i + 1);
                }
                return Err(e);
            },
        }
        i += 1;
    }
    assert(all.subrange(0, i as int) =~= all);
    Ok(map)
}

/// The readings of the GPUs named in `entries`.
pub open spec fn spec_parse_gpus(entries: Seq<(&[u8], GpuText)>) -> Result<
    Map<Seq<u8>, GpuSnapshot>,
    ParseError,
> {
    collect_named(entries.map_values(|e: (&[u8], GpuText)| (e.0@, GpuSnapshot::spec_parse(e.1))))
}

/// Parses the attribute files of the GPUs named in `entries`.
pub fn parse_gpus(entries: &Vec<(&[u8], GpuText)>) -> (r: Result<NameMap<GpuSnapshot>, ParseError>)
    ensures
        match r {
            Ok(m) => m.wf() && spec_parse_gpus(entries@) == Ok::<
                Map<Seq<u8>, GpuSnapshot>,
                ParseError,
            >(m@),
            Err(e) => spec_parse_gpus(entries@) == Err::<Map<Seq<u8>, GpuSnapshot>, ParseError>(e),
        },
{
    let ghost all = entries@.map_values(
        |e: (&[u8], GpuText)| (e.0@, GpuSnapshot::spec_parse(e.1)),
    );
    let mut map: NameMap<GpuSnapshot> = NameMap::new();
    let mut i: usize = 0;
    assert(all.subrange(0, 0) =~= Seq::<(Seq<u8>, Result<GpuSnapshot, ParseError>)>::empty());
    while i < entries.len()
        invariant
            i <= entries@.len(),
            all == entries@.map_values(
                |e: (&[u8], GpuText)| (e.0@, GpuSnapshot::spec_parse(e.1)),
            ),
            map.wf(),
            collect_named(all.subrange(0, i as int)) == Ok::<Map<Seq<u8>, GpuSnapshot>, ParseError>(
                map@,
            ),
        decreases entries@.len() - i,
    {
        assert(all.subrange(0, i + 1).drop_last() =~= all.subrange(0, i as int));
        assert(all.subrange(0, i + 1).last() == all[i as int]);
        match GpuSnapshot::parse(&entries[i].1) {
            Ok(v) => {
                let _ = map.insert(slice_to_vec(entries[i].0), v);
            },
            Err(e) => {
                proof {
                    lemma_collect_named_prefix_err(all, i + 1);
                }
                return Err(e);
            },
        }
        i += 1;
    }
    assert(all.subrange(0, i as int) =~= all);
    Ok(map)
}

/// What was read at one tick: the texts of the watched files, and the mounted
/// devices with their resolved names.
pub struct SnapshotText<'a> {
    /// `/proc/diskstats`
    pub diskstats: &'a [u8],
    /// `/proc/meminfo`
    pub meminfo: &'a [u8],
    /// The entries of `/proc/mounts`, each with the name that its device resolves to.
    pub mounts: Vec<MountEntry>,
    /// `/proc/stat`
    pub stat: &'a [u8],
    /// `/proc/uptime`
    pub uptime: &'a [u8],
    /// The `temp*_input` files of the CPU's sensors.
    pub cpu_temperatures: Vec<&'a [u8]>,
    /// The counter files of each network interface, by its name.
    pub by_net_interface: Vec<(&'a [u8], NetInterfaceText<'a>)>,
    /// The attribute files of each GPU, by its name.
    pub by_gpu: Vec<(&'a [u8], GpuText<'a>)>,
}

/// All counters as read at one tick.
#[derive(Debug)]
pub struct Snapshot {
    pub disk_stats: Vec<DiskStats>,
    pub mem_info: MemInfo,
    pub partition_to_mountpath: PartitionToMountpath,
    pub cpus_stat: Vec<CpuStat>,
    pub uptime: Uptime,
    pub cpu_max_temp_millicelsius: u32,
    pub by_net_interface: NameMap<NetInterfaceSnapshot>,
    pub by_gpu: NameMap<GpuSnapshot>,
}

/// What of a snapshot the next tick's deltas need.
#[derive(Debug)]
pub struct OldSnapshot {
    pub disk_stats: Vec<DiskStats>,
    pub cpus_stat: Vec<CpuStat>,
    pub by_net_interface: NameMap<NetInterfaceSnapshot>,
}

/// The failure of a result, if it is one.
pub open spec fn failure<T>(r: Result<T, ParseError>) -> Option<ParseError> {
    match r {
        Ok(_) => None,
        Err(e) => Some(e),
    }
}

/// The first failure among `a` and `b`.
pub open spec fn or_else(a: Option<ParseError>, b: Option<ParseError>) -> Option<ParseError> {
    if a is Some {
        a
    } else {
        b
    }
}

impl Snapshot {
    /// Why `text` is no snapshot: the failure of the first part that does not parse.
    /// The parts are taken in this order: disks, cores, memory, uptime, CPU sensors,
    /// network interfaces, GPUs.
    pub open spec fn spec_failure(text: SnapshotText) -> Option<ParseError> {
        or_else(
            failure(spec_parse_disk_stats(text.diskstats@)),
            or_else(
                failure(spec_parse_cpus_stat(text.stat@)),
                or_else(
                    failure(MemInfo::spec_parse(trimmed(text.meminfo@))),
                    or_else(
                        failure(Uptime::spec_parse(trimmed(text.uptime@))),
                        or_else(
                            failure(spec_max_temperature(views(text.cpu_temperatures@))),
                            or_else(
                                failure(spec_parse_net_interfaces(text.by_net_interface@)),
                                failure(spec_parse_gpus(text.by_gpu@)),
                            ),
                        ),
                    ),
                ),
            ),
        )
    }

    /// Whether the snapshot holds what the parts of `text` parse to.
    pub open spec fn holds(&self, text: SnapshotText) -> bool {
        &&& spec_parse_disk_stats(text.diskstats@) == Ok::<
            Seq<(Seq<u8>, Seq<u64>)>,
            ParseError,
        >(self.disk_stats.deep_view())
        &&& spec_parse_cpus_stat(text.stat@) == Ok::<Seq<CpuStat>, ParseError>(self.cpus_stat@)
        &&& MemInfo::spec_parse(trimmed(text.meminfo@)) == Ok::<MemInfo, ParseError>(self.mem_info)
        &&& self.partition_to_mountpath.partition_to_mountpath.wf()
        &&& self.partition_to_mountpath.paths() == spec_mount_map(text.mounts.deep_view())
        &&& Uptime::spec_parse(trimmed(text.uptime@)) == Ok::<Uptime, ParseError>(self.uptime)
        &&& spec_max_temperature(views(text.cpu_temperatures@)) == Ok::<u32, ParseError>(
            self.cpu_max_temp_millicelsius,
        )
        &&& self.by_net_interface.wf()
        &&& spec_parse_net_interfaces(text.by_net_interface@) == Ok::<
            Map<Seq<u8>, NetInterfaceSnapshot>,
            ParseError,
        >(self.by_net_interface@)
        &&& self.by_gpu.wf()
        &&& spec_parse_gpus(text.by_gpu@) == Ok::<Map<Seq<u8>, GpuSnapshot>, ParseError>(
            self.by_gpu@,
        )
    }

    /// Parses everything that was read at one tick. A part that does not parse fails
    /// the whole snapshot.
    pub fn parse(text: &SnapshotText) -> (r: Result<Snapshot, ParseError>)
        ensures
            match r {
                Ok(s) => Self::spec_failure(*text) is None && s.holds(*text),
                Err(e) => Self::spec_failure(*text) == Some(e),
            },
    {
        let disk_stats: Vec<DiskStats> = parse_disk_stats(text.diskstats)?;
        let cpus_stat: Vec<CpuStat> = parse_cpus_stat(text.stat)?;
        let mem_info: MemInfo = MemInfo::parse(trim(text.meminfo))?;
        let partition_to_mountpath = PartitionToMountpath::from_entries(&text.mounts);
        let uptime: Uptime = Uptime::parse(trim(text.uptime))?;
        let cpu_max_temp_millicelsius: u32 = parse_max_temperature(&text.cpu_temperatures)?;
        let by_net_interface = parse_net_interfaces(&text.by_net_interface)?;
        let by_gpu = parse_gpus(&text.by_gpu)?;
        Ok(
            Snapshot {
                disk_stats,
                mem_info,
                partition_to_mountpath,
                cpus_stat,
                uptime,
                cpu_max_temp_millicelsius,
                by_net_interface,
                by_gpu,
            },
        )
    }

    /// Keeps what the next tick's deltas need and drops the rest.
    pub fn retire(self) -> (r: OldSnapshot)
        ensures
            r.disk_stats == self.disk_stats,
            r.cpus_stat == self.cpus_stat,
            r.by_net_interface == self.by_net_interface,
    {
        OldSnapshot {
            disk_stats: self.disk_stats,
            cpus_stat: self.cpus_stat,
            by_net_interface: self.by_net_interface,
        }
    }
}

} // verus!
