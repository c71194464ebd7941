//! Readers for the per-process and per-thread files under `/proc`.

use crate::text::{
    ascii, ascii_bytes, field_ok, field_value, find_key, find_line, has_prefix,
    lemma_try_map_prefix_err, lines, lines_of, numbers, parse_u32, parse_u64, present,
    spec_numbers, spec_parse_u32, spec_parse_u64, split, split_ascii_whitespace, split_on,
    starts_with, strip_leading, trim, trim_start_matches, trimmed, try_map, views, words_of,
    Field, ParseError,
};
use crate::ingest::ThreadReading;
use vstd::prelude::*;
use vstd::slice::{slice_subrange, slice_to_vec};

verus! {

/// A key to look for in a text of `Key: value` lines, and the value found for it.
#[derive(Clone, Copy, Debug)]
pub struct TextualKeyValue<'a> {
    pub key: &'a [u8],
    pub value: u64,
}

/// The value of a line that begins with `key`: after the key comes a colon, then
/// tabs, then spaces, then the number as the first word of the rest.
pub open spec fn keyed_value(line: Seq<u8>, key: Seq<u8>) -> Result<u64, ParseError> {
    let rest = line.subrange(key.len() as int, line.len() as int);
    if rest.len() == 0 || rest[0] != 58 {
        Err(ParseError::Malformed)
    } else {
        let w = words_of(strip_leading(strip_leading(rest.drop_first(), 9), 32));
        if w.len() == 0 {
            Err(ParseError::MissingField)
        } else {
            match spec_parse_u64(w[0]) {
                Some(v) => Ok(v),
                None => Err(ParseError::InvalidNumber),
            }
        }
    }
}

/// The keys of a schema; an entry that is absent asks for nothing.
pub open spec fn schema_keys(schema: Seq<Option<TextualKeyValue>>) -> Seq<Option<Seq<u8>>> {
    schema.map_values(
        |e: Option<TextualKeyValue>|
            match e {
                Some(kv) => Some(kv.key@),
                None => None,
            },
    )
}

/// The values of `keys` in `lines`. Each key is looked for from the line after the
/// one that held the previous key, and the first line that begins with it counts.
pub open spec fn spec_extract(lines: Seq<Seq<u8>>, from: int, keys: Seq<Option<Seq<u8>>>) -> Result<
    Seq<Option<u64>>,
    ParseError,
>
    decreases keys.len(),
{
    if keys.len() == 0 {
        Ok(Seq::empty())
    } else {
        match keys[0] {
            None => prepend(seq![None], spec_extract(lines, from, keys.drop_first())),
            Some(key) => {
                let at = find_line(lines, from, key);
                if at >= lines.len() {
                    Err(ParseError::MissingKey)
                } else {
                    match keyed_value(lines[at], key) {
                        Err(e) => Err(e),
                        Ok(v) => prepend(
                            seq![Some(v)],
                            spec_extract(lines, at + 1, keys.drop_first()),
                        ),
                    }
                }
            },
        }
    }
}

/// The values `done` followed by those of `rest`, where `rest` did not fail.
pub open spec fn prepend(done: Seq<Option<u64>>, rest: Result<Seq<Option<u64>>, ParseError>) -> Result<
    Seq<Option<u64>>,
    ParseError,
> {
    match rest {
        Ok(r) => Ok(done + r),
        Err(e) => Err(e),
    }
}

/// The values that are matched before the first key that is missing or whose line
/// is malformed: one for each entry of the schema up to that key, or for all
/// entries where none fails.
pub open spec fn spec_matched(lines: Seq<Seq<u8>>, from: int, keys: Seq<Option<Seq<u8>>>) -> Seq<
    Option<u64>,
>
    decreases keys.len(),
{
    if keys.len() == 0 {
        Seq::empty()
    } else {
        match keys[0] {
            None => seq![None] + spec_matched(lines, from, keys.drop_first()),
            Some(key) => {
                let at = find_line(lines, from, key);
                if at >= lines.len() {
                    Seq::empty()
                } else {
                    match keyed_value(lines[at], key) {
                        Err(_) => Seq::empty(),
                        Ok(v) => seq![Some(v)] + spec_matched(lines, at + 1, keys.drop_first()),
                    }
                }
            },
        }
    }
}

/// The entry at place `i` of a schema after the values `matched` were filled in: an
/// entry that asks for a key and whose value was matched holds that value; every
/// other entry is as it was.
pub open spec fn filled<'a>(
    entry: Option<TextualKeyValue<'a>>,
    i: int,
    matched: Seq<Option<u64>>,
) -> Option<TextualKeyValue<'a>> {
    if i < matched.len() {
        match (entry, matched[i]) {
            (Some(kv), Some(v)) => Some(TextualKeyValue { key: kv.key, value: v }),
            _ => entry,
        }
    } else {
        entry
    }
}

/// What was matched is one value per schema entry up to the first failure, present
/// where the entry is; where nothing fails it is all the values.
pub proof fn lemma_matched(lines: Seq<Seq<u8>>, from: int, keys: Seq<Option<Seq<u8>>>)
    ensures
        spec_matched(lines, from, keys).len() <= keys.len(),
        forall|j: int|
            0 <= j < spec_matched(lines, from, keys).len() ==> (#[trigger] spec_matched(
                lines,
                from,
                keys,
            )[j] is Some <==> keys[j] is Some),
        spec_extract(lines, from, keys) matches Ok(v) ==> spec_matched(lines, from, keys) == v,
        spec_extract(lines, from, keys) is Err ==> spec_matched(lines, from, keys).len()
            < keys.len(),
    decreases keys.len(),
{
    if keys.len() > 0 {
        let rest = keys.drop_first();
        match keys[0] {
            None => {
                lemma_matched(lines, from, rest);
                let m = spec_matched(lines, from, rest);
                assert forall|j: int| 0 <= j < (seq![None::<u64>] + m).len() implies ((seq![
                    None::<u64>,
                ] + m)[j] is Some <==> keys[j] is Some) by {
                    if j > 0 {
                        assert((seq![None::<u64>] + m)[j] == m[j - 1]);
                        assert(rest[j - 1] == keys[j]);
                    }
                }
            },
            Some(key) => {
                let at = find_line(lines, from, key);
                if at < lines.len() && keyed_value(lines[at], key) is Ok {
                    let v = keyed_value(lines[at], key)->Ok_0;
                    lemma_matched(lines, at + 1, rest);
                    let m = spec_matched(lines, at + 1, rest);
                    assert forall|j: int| 0 <= j < (seq![Some(v)] + m).len() implies ((seq![
                        Some(v),
                    ] + m)[j] is Some <==> keys[j] is Some) by {
                        if j > 0 {
                            assert((seq![Some(v)] + m)[j] == m[j - 1]);
                            assert(rest[j - 1] == keys[j]);
                        }
                    }
                }
            },
        }
    }
}

fn read_keyed_value(line: &[u8], key: &[u8]) -> (r: Result<u64, ParseError>)
    requires
        has_prefix(line@, key@),
    ensures
        r == keyed_value(line@, key@),
{
    let rest: &[u8] = slice_subrange(line, key.len(), line.len());
    if rest.len() == 0 || rest[0] != 58 {
        return Err(ParseError::Malformed);
    }
    let value: &[u8] = trim_start_matches(
        trim_start_matches(slice_subrange(rest, 1, rest.len()), 9),
        32,
    );
    assert(rest@.subrange(1, rest@.len() as int) =~= rest@.drop_first());
    let w: Vec<&[u8]> = split_ascii_whitespace(value);
    if w.len() == 0 {
        return Err(ParseError::MissingField);
    }
    assert(views(w@)[0] == w@[0]@);
    match parse_u64(w[0]) {
        Some(v) => Ok(v),
        None => Err(ParseError::InvalidNumber),
    }
}

/// The values matched in the order of the schema, and the failure that ended the
/// matching, if one did.
fn extract_values(schema: &Vec<Option<TextualKeyValue>>, data: &[u8]) -> (r: (
    Vec<Option<u64>>,
    Option<ParseError>,
))
    ensures
        r.0@ == spec_matched(lines_of(data@), 0, schema_keys(schema@)),
        match r.1 {
            None => spec_extract(lines_of(data@), 0, schema_keys(schema@)) is Ok,
            Some(e) => spec_extract(lines_of(data@), 0, schema_keys(schema@)) == Err::<
                Seq<Option<u64>>,
                ParseError,
            >(e),
        },
{
    let l: Vec<&[u8]> = lines(data);
    let ghost keys = schema_keys(schema@);
    let n: usize = schema.len();
    let mut out: Vec<Option<u64>> = Vec::new();
    let mut pos: usize = 0;
    let mut i: usize = 0;
    proof {
        assert(keys.subrange(0, n as int) =~= keys);
        assert(Seq::<Option<u64>>::empty() + spec_extract(views(l@), 0, keys)->Ok_0
            =~= spec_extract(views(l@), 0, keys)->Ok_0);
        assert(out@ + spec_matched(views(l@), 0, keys) =~= spec_matched(views(l@), 0, keys));
    }
    while i < n
        invariant
            i <= n,
            n == schema@.len(),
            keys == schema_keys(schema@),
            views(l@) == lines_of(data@),
            pos <= l@.len(),
            spec_extract(views(l@), 0, keys) == prepend(
                out@,
                spec_extract(views(l@), pos as int, keys.subrange(i as int, n as int)),
            ),
            spec_matched(views(l@), 0, keys) == out@ + spec_matched(
                views(l@),
                pos as int,
                keys.subrange(i as int, n as int),
            ),
        decreases n - i,
    {
        let ghost rest_keys = keys.subrange(i as int, n as int);
        let ghost tail = spec_extract(views(l@), pos as int, rest_keys);
        let ghost matched_tail = spec_matched(views(l@), pos as int, rest_keys);
        assert(rest_keys[0] == keys[i as int]);
        assert(rest_keys.drop_first() =~= keys.subrange(i + 1, n as int));
        assert(keys[i as int] == match schema@[i as int] {
            Some(kv) => Some(kv.key@),
            None => None,
        });
        let ghost done = out@;
        match &schema[i] {
            None => {
                let ghost next = spec_extract(views(l@), pos as int, keys.subrange(i + 1, n as int));
                let ghost next_matched = spec_matched(
                    views(l@),
                    pos as int,
                    keys.subrange(i + 1, n as int),
                );
                assert(tail == prepend(seq![None], next));
                assert(matched_tail == seq![None::<u64>] + next_matched);
                out.push(None);
                proof {
                    assert(out@.drop_last() =~= done);
                    if next is Ok {
                        assert(out@ + next->Ok_0 =~= out@.drop_last() + (seq![None::<u64>]
                            + next->Ok_0));
                    }
                    assert(out@ + next_matched =~= done + (seq![None::<u64>] + next_matched));
                }
            },
            Some(kv) => {
                let at: usize = find_key(&l, pos, kv.key);
                if at >= l.len() {
                    assert(done + matched_tail =~= done);
                    return (out, Some(ParseError::MissingKey));
                }
                assert(views(l@)[at as int] == l@[at as int]@);
                proof {
                    lemma_find_line_found(views(l@), pos as int, kv.key@);
                }
                match read_keyed_value(l[at], kv.key) {
                    Err(e) => {
                        assert(done + matched_tail =~= done);
                        return (out, Some(e));
                    },
                    Ok(v) => {
                        let ghost next = spec_extract(
                            views(l@),
                            at + 1,
                            keys.subrange(i + 1, n as int),
                        );
                        let ghost next_matched = spec_matched(
                            views(l@),
                            at + 1,
                            keys.subrange(i + 1, n as int),
                        );
                        assert(tail == prepend(seq![Some(v)], next));
                        assert(matched_tail == seq![Some(v)] + next_matched);
                        out.push(Some(v));
                        proof {
                            assert(out@.drop_last() =~= done);
                            if next is Ok {
                                assert(out@ + next->Ok_0 =~= out@.drop_last() + (seq![Some(v)]
                                    + next->Ok_0));
                            }
                            assert(out@ + next_matched =~= done + (seq![Some(v)] + next_matched));
                        }
                        pos = at + 1;
                    },
                }
            },
        }
        i += 1;
    }
    proof {
        assert(keys.subrange(n as int, n as int) =~= Seq::<Option<Seq<u8>>>::empty());
        assert(out@ + Seq::<Option<u64>>::empty() =~= out@);
    }
    (out, None)
}

/// Where a line was found, it begins with the key.
pub proof fn lemma_find_line_found(lines: Seq<Seq<u8>>, from: int, key: Seq<u8>)
    requires
        0 <= from,
    ensures
        from <= find_line(lines, from, key) <= lines.len() || from > lines.len(),
        find_line(lines, from, key) < lines.len() ==> has_prefix(
            lines[find_line(lines, from, key)],
            key,
        ),
    decreases lines.len() - from,
{
    if from < lines.len() && !has_prefix(lines[from], key) {
        lemma_find_line_found(lines, from + 1, key);
    }
}

impl<'a> TextualKeyValue<'a> {
    /// Fills in the values of the keys of `schema` from the lines of `data`.
    ///
    /// The keys must come in the order of the schema. Where a key is missing or its
    /// line is malformed, the call fails; the values of the keys before it are
    /// filled in all the same, the others are left as they were.
    pub fn extract_from(schema: &mut Vec<Option<TextualKeyValue<'a>>>, data: &[u8]) -> (r: Result<
        (),
        ParseError,
    >)
        ensures
            final(schema)@.len() == old(schema)@.len(),
            schema_keys(final(schema)@) == schema_keys(old(schema)@),
            forall|i: int|
                0 <= i < final(schema)@.len() ==> #[trigger] final(schema)@[i] == filled(
                    old(schema)@[i],
                    i,
                    spec_matched(lines_of(data@), 0, schema_keys(old(schema)@)),
                ),
            match r {
                Ok(_) => {
                    &&& spec_extract(lines_of(data@), 0, schema_keys(old(schema)@)) is Ok
                    &&& forall|i: int|
                        0 <= i < final(schema)@.len() ==> (#[trigger] final(schema)@[i] matches Some(
                            kv,
                        ) ==> Some(kv.value) == spec_extract(
                            lines_of(data@),
                            0,
                            schema_keys(old(schema)@),
                        )->Ok_0[i])
                },
                Err(e) => spec_extract(lines_of(data@), 0, schema_keys(old(schema)@)) == Err::<
                    Seq<Option<u64>>,
                    ParseError,
                >(e),
            },
    {
        let (values, failure) = extract_values(schema, data);
        let ghost keys = schema_keys(schema@);
        let ghost matched = spec_matched(lines_of(data@), 0, keys);
        proof {
            lemma_matched(lines_of(data@), 0, keys);
            lemma_extract_len(lines_of(data@), 0, keys);
        }
        let m: usize = values.len();
        let mut i: usize = 0;
        while i < m
            invariant
                i <= m,
                m == values@.len(),
                m <= schema@.len(),
                schema@.len() == old(schema)@.len(),
                values@ == matched,
                keys == schema_keys(old(schema)@),
                schema_keys(schema@) == keys,
                forall|j: int| 0 <= j < m ==> (#[trigger] matched[j] is Some <==> keys[j] is Some),
                forall|j: int| 0 <= j < i ==> #[trigger] schema@[j] == filled(old(schema)@[j], j, matched),
                forall|j: int| i <= j < schema@.len() ==> #[trigger] schema@[j] == old(schema)@[j],
            decreases m - i,
        {
            let ghost before = schema@;
            assert(keys[i as int] == schema_keys(before)[i as int]);
            match (schema[i], values[i]) {
                (Some(kv), Some(v)) => {
                    schema[i] = Some(TextualKeyValue { key: kv.key, value: v });
                    assert(schema_keys(schema@) =~= schema_keys(before));
                },
                _ => {},
            }
            i += 1;
        }
        proof {
            assert forall|k: int| 0 <= k < schema@.len() implies #[trigger] schema@[k] == filled(
                old(schema)@[k],
                k,
                matched,
            ) by {}
            if failure is None {
                assert forall|k: int| 0 <= k < schema@.len() implies (#[trigger] schema@[k] matches Some(
                    kv,
                ) ==> Some(kv.value) == matched[k]) by {
                    assert(schema_keys(schema@)[k] == keys[k]);
                }
            }
        }
        match failure {
            None => Ok(()),
            Some(e) => Err(e),
        }
    }
}

/// Extraction gives one value per schema entry, present where the entry is.
pub proof fn lemma_extract_len(lines: Seq<Seq<u8>>, from: int, keys: Seq<Option<Seq<u8>>>)
    ensures
        spec_extract(lines, from, keys) matches Ok(v) ==> v.len() == keys.len() && forall|j: int|
            0 <= j < keys.len() ==> (#[trigger] v[j] is Some <==> keys[j] is Some),
    decreases keys.len(),
{
    if keys.len() > 0 {
        match keys[0] {
            None => {
                lemma_extract_len(lines, from, keys.drop_first());
            },
            Some(key) => {
                let at = find_line(lines, from, key);
                lemma_extract_len(lines, at + 1, keys.drop_first());
            },
        }
    }
}

/// The keys read from a process's `status` file. A kernel thread has no resident
/// memory, so `VmRSS` is not asked of it.
pub open spec fn status_keys(is_kernel: bool) -> Seq<Option<Seq<u8>>> {
    seq![
        Some(ascii_bytes("Uid"@)),
        Some(ascii_bytes("Gid"@)),
        if is_kernel {
            None
        } else {
            Some(ascii_bytes("VmRSS"@))
        },
        Some(ascii_bytes("Threads"@)),
    ]
}

/// User id, group id, resident memory in kibibytes and number of threads that a
/// `status` file holds. The ids are cut to 16 bits and the count to 32. A file that
/// lacks a key belongs to a process that is going away and gives nothing.
pub open spec fn spec_uid_gid_vm_rss_kb_threads(data: Seq<u8>, is_kernel: bool) -> Result<
    Option<(u16, u16, u64, u32)>,
    ParseError,
> {
    match spec_extract(lines_of(data), 0, status_keys(is_kernel)) {
        Err(ParseError::MissingKey) => Ok(None),
        Err(e) => Err(e),
        Ok(v) => Ok(
            Some(
                (
                    (v[0]->0 % 0x1_0000) as u16,
                    (v[1]->0 % 0x1_0000) as u16,
                    if is_kernel {
                        0
                    } else {
                        v[2]->0
                    },
                    (v[3]->0 % 0x1_0000_0000) as u32,
                ),
            ),
        ),
    }
}

/// Reads user id, group id, resident memory and thread count from the text of
/// `/proc/<pid>/status`.
pub fn get_uid_gid_vm_rss_kb_threads(data: &[u8], is_kernel: bool) -> (r: Result<
    Option<(u16, u16, u64, u32)>,
    ParseError,
>)
    ensures
        r == spec_uid_gid_vm_rss_kb_threads(data@, is_kernel),
{
    proof {
        reveal_strlit("Uid");
        reveal_strlit("Gid");
        reveal_strlit("VmRSS");
        reveal_strlit("Threads");
    }
    let mut schema: Vec<Option<TextualKeyValue>> = Vec::new();
    schema.push(Some(TextualKeyValue { key: ascii("Uid"), value: 0 }));
    schema.push(Some(TextualKeyValue { key: ascii("Gid"), value: 0 }));
    if is_kernel {
        schema.push(None);
    } else {
        schema.push(Some(TextualKeyValue { key: ascii("VmRSS"), value: 0 }));
    }
    schema.push(Some(TextualKeyValue { key: ascii("Threads"), value: 0 }));
    assert(schema_keys(schema@) =~= status_keys(is_kernel));
    let ghost keys = schema_keys(schema@);
    match TextualKeyValue::extract_from(&mut schema, data) {
        Err(ParseError::MissingKey) => { return Ok(None); },
        Err(e) => { return Err(e); },
        Ok(_) => {},
    }
    proof {
        lemma_extract_len(lines_of(data@), 0, keys);
        assert(schema_keys(schema@)[0] == keys[0]);
        assert(schema_keys(schema@)[1] == keys[1]);
        assert(schema_keys(schema@)[2] == keys[2]);
        assert(schema_keys(schema@)[3] == keys[3]);
        assert(schema_keys(schema@).len() == 4);
    }
    let uid: u64 = match schema[0] {
        Some(kv) => kv.value,
        None => 0,
    };
    let gid: u64 = match schema[1] {
        Some(kv) => kv.value,
        None => 0,
    };
    let vm_rss_kb: u64 = match schema[2] {
        Some(kv) => kv.value,
        None => 0,
    };
    let threads: u64 = match schema[3] {
        Some(kv) => kv.value,
        None => 0,
    };
    Ok(
        Some(
            (
                (uid % 0x1_0000) as u16,
                (gid % 0x1_0000) as u16,
                vm_rss_kb,
                (threads % 0x1_0000_0000) as u32,
            ),
        ),
    )
}

/// The keys read from a thread's `io` file.
pub open spec fn io_keys() -> Seq<Option<Seq<u8>>> {
    seq![Some(ascii_bytes("read_bytes"@)), Some(ascii_bytes("write_bytes"@))]
}

/// The cumulative bytes read and written that an `io` file holds; nothing where a
/// key is missing.
pub open spec fn spec_cumulative_read_write_bytes(data: Seq<u8>) -> Result<
    Option<(u64, u64)>,
    ParseError,
> {
    match spec_extract(lines_of(data), 0, io_keys()) {
        Err(ParseError::MissingKey) => Ok(None),
        Err(e) => Err(e),
        Ok(v) => Ok(Some((v[0]->0, v[1]->0))),
    }
}

/// Reads the cumulative bytes read and written from the text of
/// `/proc/<pid>/task/<tid>/io`.
pub fn get_cumulative_read_write_bytes(data: &[u8]) -> (r: Result<Option<(u64, u64)>, ParseError>)
    ensures
        r == spec_cumulative_read_write_bytes(data@),
{
    proof {
        reveal_strlit("read_bytes");
        reveal_strlit("write_bytes");
    }
    let mut schema: Vec<Option<TextualKeyValue>> = Vec::new();
    schema.push(Some(TextualKeyValue { key: ascii("read_bytes"), value: 0 }));
    schema.push(Some(TextualKeyValue { key: ascii("write_bytes"), value: 0 }));
    assert(schema_keys(schema@) =~= io_keys());
    let ghost keys = schema_keys(schema@);
    match TextualKeyValue::extract_from(&mut schema, data) {
        Err(ParseError::MissingKey) => { return Ok(None); },
        Err(e) => { return Err(e); },
        Ok(_) => {},
    }
    proof {
        lemma_extract_len(lines_of(data@), 0, keys);
        assert(schema_keys(schema@)[0] == keys[0]);
        assert(schema_keys(schema@)[1] == keys[1]);
        assert(schema_keys(schema@).len() == 2);
    }
    let read: u64 = match schema[0] {
        Some(kv) => kv.value,
        None => 0,
    };
    let write: u64 = match schema[1] {
        Some(kv) => kv.value,
        None => 0,
    };
    Ok(Some((read, write)))
}

/// The tick rate of the kernel that all conversions of time rest on: 100 jiffies to
/// the second.
pub const USER_HZ: u32 = 100;

/// Milliseconds in a jiffy at that tick rate.
pub const MILLIS_PER_JIFFY: u64 = 10;

/// Whether the text that the system gives for its tick rate spells the one that
/// the conversions of time rest on.
pub fn check_user_hz(text: &[u8]) -> (ok: bool)
    ensures
        ok == (spec_parse_u32(trimmed(text@)) == Some(USER_HZ)),
{
    match parse_u32(trim(text)) {
        Some(hz) => hz == USER_HZ,
        None => false,
    }
}

/// What the space-separated field at position `i` of a thread's `stat` file holds:
/// the session id at 5, the times in user and kernel mode at 13 and 14 and the
/// thread's own guest time at 42, all times in jiffies. Places count from 0.
pub open spec fn tid_stat_field(i: int) -> Field {
    if i == 5 {
        Field::U32
    } else if i == 13 || i == 14 || i == 42 {
        Field::U64
    } else {
        Field::Skip
    }
}

/// The leading fields of a thread's `stat` file.
pub open spec fn tid_stat_layout() -> Seq<Field> {
    Seq::new(43, |i: int| tid_stat_field(i))
}

/// Session id and cumulative user, system and guest time in milliseconds that a
/// thread's `stat` file holds. A jiffy is ten milliseconds.
pub open spec fn spec_sid_cumulative_user_system_guest_time(data: Seq<u8>) -> Result<
    (u32, u64, u64, u64),
    ParseError,
> {
    match spec_numbers(split_on(data, 32), tid_stat_layout()) {
        Err(e) => Err(e),
        Ok(n) => if n[13] * MILLIS_PER_JIFFY <= u64::MAX && n[14] * MILLIS_PER_JIFFY <= u64::MAX
            && n[42] * MILLIS_PER_JIFFY <= u64::MAX {
            Ok(
                (
                    n[5] as u32,
                    (n[13] * MILLIS_PER_JIFFY) as u64,
                    (n[14] * MILLIS_PER_JIFFY) as u64,
                    (n[42] * MILLIS_PER_JIFFY) as u64,
                ),
            )
        } else {
            Err(ParseError::Overflow)
        },
    }
}

/// Reads session id and cumulative times from the text of
/// `/proc/<pid>/task/<tid>/stat`.
pub fn get_sid_cumulative_user_system_guest_time(data: &[u8]) -> (r: Result<
    (u32, u64, u64, u64),
    ParseError,
>)
    ensures
        r == spec_sid_cumulative_user_system_guest_time(data@),
{
    let fields: Vec<&[u8]> = split(data, 32);
    let layout: [Field; 43] = [
            Field::Skip, Field::Skip, Field::Skip, Field::Skip,
            Field::Skip, Field::U32, Field::Skip, Field::Skip,
            Field::Skip, Field::Skip, Field::Skip, Field::Skip,
            Field::Skip, Field::U64, Field::U64, Field::Skip,
            Field::Skip, Field::Skip, Field::Skip, Field::Skip,
            Field::Skip, Field::Skip, Field::Skip, Field::Skip,
            Field::Skip, Field::Skip, Field::Skip, Field::Skip,
            Field::Skip, Field::Skip, Field::Skip, Field::Skip,
            Field::Skip, Field::Skip, Field::Skip, Field::Skip,
            Field::Skip, Field::Skip, Field::Skip, Field::Skip,
            Field::Skip, Field::Skip, Field::U64,
    ];
    assert(layout@ =~= tid_stat_layout());
    let n: Vec<u64> = numbers(&fields, layout.as_slice())?;
    assert(field_ok(views(fields@), tid_stat_layout(), 5));
    assert(n@[5] == field_value(views(fields@), tid_stat_layout(), 5));
    match (
        n[13].checked_mul(MILLIS_PER_JIFFY),
        n[14].checked_mul(MILLIS_PER_JIFFY),
        n[42].checked_mul(MILLIS_PER_JIFFY),
    ) {
        (Some(user), Some(system), Some(guest)) => Ok((n[5] as u32, user, system, guest)),
        _ => Err(ParseError::Overflow),
    }
}

/// The text with every NUL byte turned into a space.
pub open spec fn nul_to_space(data: Seq<u8>) -> Seq<u8> {
    data.map_values(
        |b: u8|
            if b == 0 {
                32u8
            } else {
                b
            },
    )
}

/// Whether a process is a kernel thread, its name and its command line, from the
/// texts of its `cmdline` and `status` files. A process without a command line is a
/// kernel thread and its name is put in square brackets; otherwise the command
/// line's NUL separators become spaces.
pub open spec fn spec_is_kernel_name_cmdline(cmdline: Seq<u8>, status: Seq<u8>) -> Result<
    (bool, Seq<u8>, Option<Seq<u8>>),
    ParseError,
> {
    let l = lines_of(status);
    if l.len() == 0 {
        Err(ParseError::MissingField)
    } else if !has_prefix(l[0], ascii_bytes("Name:\t"@)) {
        Err(ParseError::Malformed)
    } else {
        let name = trimmed(l[0].subrange(6, l[0].len() as int));
        if cmdline.len() == 0 {
            Ok((true, seq![91u8] + name + seq![93u8], None))
        } else {
            Ok((false, name, Some(nul_to_space(cmdline))))
        }
    }
}

/// Classifies a process from the texts of `/proc/<pid>/cmdline` and
/// `/proc/<pid>/status`.
pub fn get_is_kernel_name_cmdline(cmdline: &[u8], status: &[u8]) -> (r: Result<
    (bool, Vec<u8>, Option<Vec<u8>>),
    ParseError,
>)
    ensures
        match r {
            Ok(found) => spec_is_kernel_name_cmdline(cmdline@, status@) == Ok::<
                (bool, Seq<u8>, Option<Seq<u8>>),
                ParseError,
            >(found.deep_view()),
            Err(e) => spec_is_kernel_name_cmdline(cmdline@, status@) == Err::<
                (bool, Seq<u8>, Option<Seq<u8>>),
                ParseError,
            >(e),
        },
{
    let l: Vec<&[u8]> = lines(status);
    if l.len() == 0 {
        return Err(ParseError::MissingField);
    }
    proof {
        reveal_strlit("Name:\t");
    }
    assert(views(l@)[0] == l@[0]@);
    if !starts_with(l[0], ascii("Name:\t")) {
        return Err(ParseError::Malformed);
    }
    let name: &[u8] = trim(slice_subrange(l[0], 6, l[0].len()));
    if cmdline.len() == 0 {
        let mut bracketed: Vec<u8> = Vec::new();
        bracketed.push(91);
        let mut i: usize = 0;
        while i < name.len()
            invariant
                i <= name@.len(),
                bracketed@ == seq![91u8] + name@.subrange(0, i as int),
            decreases name@.len() - i,
        {
            bracketed.push(name[i]);
            assert(seq![91u8] + name@.subrange(0, i + 1) =~= (seq![91u8] + name@.subrange(
                0,
                i as int,
            )).push(name@[i as int]));
            i += 1;
        }
        bracketed.push(93);
        assert(bracketed@ =~= seq![91u8] + name@ + seq![93u8]);
        assert(bracketed.deep_view() =~= bracketed@);
        Ok((true, bracketed, None))
    } else {
        let mut spaced: Vec<u8> = Vec::new();
        let mut i: usize = 0;
        while i < cmdline.len()
            invariant
                i <= cmdline@.len(),
                spaced@ == nul_to_space(cmdline@.subrange(0, i as int)),
            decreases cmdline@.len() - i,
        {
            let b: u8 = cmdline[i];
            spaced.push(if b == 0 { 32 } else { b });
            assert(spaced@ =~= nul_to_space(cmdline@.subrange(0, i + 1)));
            i += 1;
        }
        assert(cmdline@.subrange(0, i as int) =~= cmdline@);
        let owned: Vec<u8> = slice_to_vec(name);
        assert(owned.deep_view() =~= owned@);
        assert(spaced.deep_view() =~= spaced@);
        Ok((false, owned, Some(spaced)))
    }
}

/// The process ids among the names of the entries of `/proc`: the names that are
/// decimal numbers of 32 bits.
pub open spec fn spec_live_pids(names: Seq<Seq<u8>>) -> Seq<u32> {
    present(names.map_values(|n: Seq<u8>| spec_parse_u32(n)))
}

/// Picks the process ids from the names of the entries of `/proc`.
pub fn get_live_pids(names: &Vec<&[u8]>) -> (r: Vec<u32>)
    ensures
        r@ == spec_live_pids(views(names@)),
{
    let ghost all = views(names@).map_values(|n: Seq<u8>| spec_parse_u32(n));
    let mut out: Vec<u32> = Vec::new();
    let mut i: usize = 0;
    assert(all.subrange(0, 0) =~= Seq::<Option<u32>>::empty());
    while i < names.len()
        invariant
            i <= names@.len(),
            all == views(names@).map_values(|n: Seq<u8>| spec_parse_u32(n)),
            out@ == present(all.subrange(0, i as int)),
        decreases names@.len() - i,
    {
        assert(all.subrange(0, i + 1).drop_last() =~= all.subrange(0, i as int));
        assert(all.subrange(0, i + 1).last() == all[i as int]);
        assert(views(names@)[i as int] == names@[i as int]@);
        match parse_u32(names[i]) {
            Some(pid) => {
                out.push(pid);
            },
            None => {},
        }
        i += 1;
    }
    assert(all.subrange(0, i as int) =~= all);
    out
}

/// The thread ids that the names of the entries of a `task` directory spell; every
/// name has to be a decimal number of 32 bits.
pub open spec fn spec_live_tids(names: Seq<Seq<u8>>) -> Result<Seq<u32>, ParseError> {
    try_map(
        names,
        |n: Seq<u8>|
            match spec_parse_u32(n) {
                Some(tid) => Ok(tid),
                None => Err(ParseError::InvalidNumber),
            },
    )
}

/// Reads the thread ids from the names of the entries of `/proc/<pid>/task`.
pub fn get_live_tids(names: &Vec<&[u8]>) -> (r: Result<Vec<u32>, ParseError>)
    ensures
        match r {
            Ok(v) => spec_live_tids(views(names@)) == Ok::<Seq<u32>, ParseError>(v@),
            Err(e) => spec_live_tids(views(names@)) == Err::<Seq<u32>, ParseError>(e),
        },
{
    let ghost f = |n: Seq<u8>|
        match spec_parse_u32(n) {
            Some(tid) => Ok::<u32, ParseError>(tid),
            None => Err::<u32, ParseError>(ParseError::InvalidNumber),
        };
    let ghost all = views(names@);
    let mut out: Vec<u32> = Vec::new();
    let mut i: usize = 0;
    assert(all.subrange(0, 0) =~= Seq::<Seq<u8>>::empty());
    while i < names.len()
        invariant
            i <= names@.len(),
            all == views(names@),
            f == |n: Seq<u8>|
                match spec_parse_u32(n) {
                    Some(tid) => Ok::<u32, ParseError>(tid),
                    None => Err::<u32, ParseError>(ParseError::InvalidNumber),
                },
            try_map(all.subrange(0, i as int), f) == Ok::<Seq<u32>, ParseError>(out@),
        decreases names@.len() - i,
    {
        assert(all.subrange(0, i + 1).drop_last() =~= all.subrange(0, i as int));
        assert(all.subrange(0, i + 1).last() == all[i as int]);
        assert(all[i as int] == names@[i as int]@);
        match parse_u32(names[i]) {
            Some(tid) => {
                out.push(tid);
            },
            None => {
                proof {
                    assert(try_map(all.subrange(0, i + 1), f) == Err::<Seq<u32>, ParseError>(
                        ParseError::InvalidNumber,
                    ));
                    lemma_try_map_prefix_err(all, f, i + 1);
                }
                return Err(ParseError::InvalidNumber);
            },
        }
        i += 1;
    }
    assert(all.subrange(0, i as int) =~= all);
    Ok(out)
}

/// Whether the threads of a process need not be listed: a process with one thread
/// has its own id as the id of that thread.
pub fn is_single_threaded(threads: u32) -> (r: bool)
    ensures
        r == (threads == 1),
{
    threads == 1
}

/// Why a file under `/proc` could not be opened or read.
#[derive(Clone, Copy, Debug, PartialEq, Eq)]
pub enum IoFailure {
    /// The file is not there.
    NotFound,
    /// The process or thread is gone.
    NoSuchProcess,
    /// The file may not be read by this user.
    PermissionDenied,
    /// Anything else.
    Other,
}

/// Whether a failure to open a file is part of the normal churn of processes: the
/// entity is then dropped for this tick. Any other failure is fatal.
pub fn check_io_err(err: IoFailure) -> (expected: bool)
    ensures
        expected == (err is NotFound || err is PermissionDenied),
{
    match err {
        IoFailure::NotFound => true,
        IoFailure::PermissionDenied => true,
        _ => false,
    }
}

/// Whether a failure to read an open file is part of the normal churn of
/// processes. Any other failure is fatal.
pub fn check_read_err(err: IoFailure) -> (expected: bool)
    ensures
        expected == (err is NotFound || err is NoSuchProcess || err is PermissionDenied),
{
    match err {
        IoFailure::Other => false,
        _ => true,
    }
}

/// The bytes that a thread has read and written, as far as its I/O accounting
/// tells. `io` is what came of reading the accounting: nothing where the thread has
/// no accounting that this user may read, else the failure of the read or what the
/// text held.
///
/// Accounting that may not be read counts as zero. A thread that went away, or
/// whose accounting lacks a key, gives nothing. Any other failure is fatal.
pub open spec fn spec_io_bytes(io: Option<Result<Option<(u64, u64)>, IoFailure>>) -> Result<
    Option<(u64, u64)>,
    IoFailure,
> {
    match io {
        None => Ok(Some((0, 0))),
        Some(Err(IoFailure::PermissionDenied)) => Ok(Some((0, 0))),
        Some(Err(IoFailure::NotFound)) => Ok(None),
        Some(Err(IoFailure::NoSuchProcess)) => Ok(None),
        Some(Err(IoFailure::Other)) => Err(IoFailure::Other),
        Some(Ok(bytes)) => Ok(bytes),
    }
}

/// The reading of one thread from what came of reading its files, the I/O
/// accounting first.
///
/// A thread that went away between the listing and a read is dropped on its own:
/// it gives no reading, and the other threads of its process are not affected.
/// Accounting that may not be read does not drop the thread. A failure that is
/// not part of the normal churn of threads is handed back: it is fatal.
pub open spec fn spec_thread_reading(
    stat: Result<(u32, u64, u64, u64), IoFailure>,
    io: Option<Result<Option<(u64, u64)>, IoFailure>>,
) -> Result<Option<ThreadReading>, IoFailure> {
    match spec_io_bytes(io) {
        Err(failure) => Err(failure),
        Ok(None) => Ok(None),
        Ok(Some(bytes)) => match stat {
            Err(IoFailure::Other) => Err(IoFailure::Other),
            Err(_) => Ok(None),
            Ok(times) => Ok(
                Some(
                    ThreadReading {
                        sid: times.0,
                        cumulative_user_time_ms: times.1,
                        cumulative_system_time_ms: times.2,
                        cumulative_guest_time_ms: times.3,
                        cumulative_read_bytes: bytes.0,
                        cumulative_write_bytes: bytes.1,
                    },
                ),
            ),
        },
    }
}

/// Decides what becomes of one thread from what came of reading its `stat` file
/// and its I/O accounting.
pub fn thread_reading(
    stat: Result<(u32, u64, u64, u64), IoFailure>,
    io: Option<Result<Option<(u64, u64)>, IoFailure>>,
) -> (r: Result<Option<ThreadReading>, IoFailure>)
    ensures
        r == spec_thread_reading(stat, io),
{
    let bytes: (u64, u64) = match io {
        None => (0, 0),
        Some(Err(failure)) => match failure {
            IoFailure::PermissionDenied => (0, 0),
            IoFailure::Other => { return Err(IoFailure::Other); },
            _ => { return Ok(None); },
        },
        Some(Ok(None)) => { return Ok(None); },
        Some(Ok(Some(bytes))) => bytes,
    };
    match stat {
        Err(failure) => match failure {
            IoFailure::Other => Err(IoFailure::Other),
            _ => Ok(None),
        },
        Ok(times) => Ok(
            Some(
                ThreadReading {
                    sid: times.0,
                    cumulative_user_time_ms: times.1,
                    cumulative_system_time_ms: times.2,
                    cumulative_guest_time_ms: times.3,
                    cumulative_read_bytes: bytes.0,
                    cumulative_write_bytes: bytes.1,
                },
            ),
        ),
    }
}

} // verus!
