//! Byte-level text handling for the kernel's pseudo-files.
//!
//! The kernel's text formats are ASCII apart from names, which are passed
//! through untouched, so everything here works on bytes.

use vstd::prelude::*;
use vstd::slice::slice_subrange;
use vstd::string::StringSliceAdditionalSpecFns;

verus! {

/// ASCII whitespace: space, tab, line feed, form feed, carriage return.
pub open spec fn is_space(b: u8) -> bool {
    b == 32 || b == 9 || b == 10 || b == 12 || b == 13
}

/// The views of a vector of slices.
pub open spec fn views(v: Seq<&[u8]>) -> Seq<Seq<u8>> {
    v.map_values(|w: &[u8]| w@)
}

/// The pieces of `s` between occurrences of `sep`. There is always at least one
/// piece, and pieces may be empty.
pub open spec fn split_on(s: Seq<u8>, sep: u8) -> Seq<Seq<u8>>
    decreases s.len(),
{
    if s.len() == 0 {
        seq![Seq::empty()]
    } else {
        let init = split_on(s.drop_last(), sep);
        if s.last() == sep {
            init.push(Seq::empty())
        } else {
            init.drop_last().push(init.last().push(s.last()))
        }
    }
}

/// The maximal runs of bytes of `s` that hold no ASCII whitespace, in order.
pub open spec fn words_of(s: Seq<u8>) -> Seq<Seq<u8>>
    decreases s.len(),
{
    if s.len() == 0 {
        Seq::empty()
    } else {
        let init = words_of(s.drop_last());
        if is_space(s.last()) {
            init
        } else if s.len() >= 2 && !is_space(s[s.len() - 2]) {
            init.drop_last().push(init.last().push(s.last()))
        } else {
            init.push(seq![s.last()])
        }
    }
}

/// A line without the carriage return that preceded its line feed.
pub open spec fn strip_cr(line: Seq<u8>) -> Seq<u8> {
    if line.len() > 0 && line.last() == 13 {
        line.drop_last()
    } else {
        line
    }
}

/// The lines of `s`: it is split at line feeds, a carriage return before a line
/// feed goes with it, and a last line need not end in a line feed.
pub open spec fn lines_of(s: Seq<u8>) -> Seq<Seq<u8>> {
    let pieces = split_on(s, 10);
    let ended = pieces.drop_last().map_values(|l: Seq<u8>| strip_cr(l));
    if pieces.last().len() == 0 {
        ended
    } else {
        ended.push(pieces.last())
    }
}

/// Splits `data` at every occurrence of `sep`.
pub fn split<'a>(data: &'a [u8], sep: u8) -> (r: Vec<&'a [u8]>)
    ensures
        views(r@) == split_on(data@, sep),
        r@.len() >= 1,
{
    let mut out: Vec<&'a [u8]> = Vec::new();
    let mut start: usize = 0;
    let mut i: usize = 0;
    assert(data@.subrange(0, 0) =~= Seq::<u8>::empty());
    assert(views(out@).push(data@.subrange(0, 0)) =~= seq![Seq::<u8>::empty()]);
    while i < data.len()
        invariant
            start <= i <= data@.len(),
            split_on(data@.subrange(0, i as int), sep) == views(out@).push(
                data@.subrange(start as int, i as int),
            ),
        decreases data@.len() - i,
    {
        let ghost before = views(out@);
        let ghost piece = data@.subrange(start as int, i as int);
        let ghost prefix = data@.subrange(0, i + 1);
        assert(prefix.drop_last() =~= data@.subrange(0, i as int));
        if data[i] == sep {
            out.push(slice_subrange(data, start, i));
            start = i + 1;
            assert(views(out@) =~= before.push(piece));
            assert(data@.subrange(start as int, i + 1) =~= Seq::<u8>::empty());
        } else {
            assert(before.push(piece).drop_last() =~= before);
            assert(data@.subrange(start as int, i + 1) =~= piece.push(data@[i as int]));
        }
        i += 1;
    }
    assert(data@.subrange(0, i as int) =~= data@);
    let ghost before = views(out@);
    out.push(slice_subrange(data, start, i));
    assert(views(out@) =~= before.push(data@.subrange(start as int, i as int)));
    out
}

/// Splits `data` into its whitespace-separated words.
pub fn split_ascii_whitespace<'a>(data: &'a [u8]) -> (r: Vec<&'a [u8]>)
    ensures
        views(r@) == words_of(data@),
{
    let mut out: Vec<&'a [u8]> = Vec::new();
    let mut start: usize = 0;
    let mut in_word: bool = false;
    let mut i: usize = 0;
    assert(data@.subrange(0, 0) =~= Seq::<u8>::empty());
    assert(views(out@) =~= Seq::<Seq<u8>>::empty());
    while i < data.len()
        invariant
            start <= i <= data@.len(),
            in_word ==> start < i && !is_space(data@[i - 1]) && words_of(
                data@.subrange(0, i as int),
            ) == views(out@).push(data@.subrange(start as int, i as int)),
            !in_word ==> (i == 0 || is_space(data@[i - 1])) && words_of(
                data@.subrange(0, i as int),
            ) == views(out@),
        decreases data@.len() - i,
    {
        let ghost before = views(out@);
        let ghost piece = data@.subrange(start as int, i as int);
        let ghost prefix = data@.subrange(0, i + 1);
        assert(prefix.drop_last() =~= data@.subrange(0, i as int));
        let b: u8 = data[i];
        if b == 32 || b == 9 || b == 10 || b == 12 || b == 13 {
            if in_word {
                out.push(slice_subrange(data, start, i));
                assert(views(out@) =~= before.push(piece));
                in_word = false;
            }
        } else if in_word {
            assert(before.push(piece).drop_last() =~= before);
            assert(data@.subrange(start as int, i + 1) =~= piece.push(b));
        } else {
            start = i;
            in_word = true;
            assert(data@.subrange(start as int, i + 1) =~= seq![b]);
        }
        i += 1;
    }
    assert(data@.subrange(0, i as int) =~= data@);
    if in_word {
        let ghost before = views(out@);
        out.push(slice_subrange(data, start, i));
        assert(views(out@) =~= before.push(data@.subrange(start as int, i as int)));
    }
    out
}

/// Splits `data` into its lines.
pub fn lines<'a>(data: &'a [u8]) -> (r: Vec<&'a [u8]>)
    ensures
        views(r@) == lines_of(data@),
{
    let pieces: Vec<&'a [u8]> = split(data, 10);
    let n: usize = pieces.len();
    let mut out: Vec<&'a [u8]> = Vec::new();
    let mut i: usize = 0;
    let ghost spec_pieces = split_on(data@, 10);
    let ghost ended = spec_pieces.drop_last().map_values(|l: Seq<u8>| strip_cr(l));
    assert(views(out@) =~= ended.subrange(0, 0));
    while i + 1 < n
        invariant
            n == pieces@.len(),
            n >= 1,
            i + 1 <= n,
            views(pieces@) == spec_pieces,
            ended == spec_pieces.drop_last().map_values(|l: Seq<u8>| strip_cr(l)),
            views(out@) == ended.subrange(0, i as int),
        decreases n - i,
    {
        let ghost before = views(out@);
        let piece: &'a [u8] = pieces[i];
        assert(piece@ == spec_pieces[i as int]) by {
            assert(views(pieces@)[i as int] == pieces@[i as int]@);
        }
        let len: usize = piece.len();
        if len > 0 && piece[len - 1] == 13 {
            out.push(slice_subrange(piece, 0, len - 1));
        } else {
            out.push(piece);
        }
        assert(out@.last()@ =~= strip_cr(piece@));
        assert(views(out@) =~= before.push(strip_cr(piece@)));
        assert(ended.subrange(0, i + 1) =~= ended.subrange(0, i as int).push(ended[i as int]));
        i += 1;
    }
    assert(ended.subrange(0, i as int) =~= ended);
    let tail: &'a [u8] = pieces[n - 1];
    assert(tail@ == spec_pieces.last()) by {
        assert(views(pieces@)[n - 1] == pieces@[n - 1]@);
    }
    if tail.len() > 0 {
        let ghost before = views(out@);
        out.push(tail);
        assert(views(out@) =~= before.push(tail@));
    }
    out
}

/// The bytes of a text that holds ASCII characters only.
pub open spec fn ascii_bytes(s: Seq<char>) -> Seq<u8> {
    Seq::new(s.len(), |i: int| s[i] as u8)
}

/// The bytes of `s`.
pub fn ascii<'a>(s: &'a str) -> (r: &'a [u8])
    ensures
        r@ == s.spec_bytes(),
        s.is_ascii() ==> r@ == ascii_bytes(s@),
{
    broadcast use vstd::string::is_ascii_spec_bytes;

    s.as_bytes()
}

/// Whether `b` is an ASCII decimal digit.
pub open spec fn is_digit(b: u8) -> bool {
    48 <= b <= 57
}

/// Whether `s` holds decimal digits only.
pub open spec fn all_digits(s: Seq<u8>) -> bool {
    forall|i: int| 0 <= i < s.len() ==> is_digit(#[trigger] s[i])
}

/// The number that the decimal digits `s` spell; a byte that is no digit counts as zero.
pub open spec fn digits_value(s: Seq<u8>) -> nat
    decreases s.len(),
{
    if s.len() == 0 {
        0
    } else {
        let d: nat = if is_digit(s.last()) {
            (s.last() - 48) as nat
        } else {
            0
        };
        digits_value(s.drop_last()) * 10 + d
    }
}

/// The digits of an unsigned decimal number: an optional leading `+` is dropped.
pub open spec fn unsigned_digits(s: Seq<u8>) -> Seq<u8> {
    if s.len() > 0 && s[0] == 43 {
        s.drop_first()
    } else {
        s
    }
}

/// The value of `s` read as an unsigned decimal number of at most `max`: an optional
/// `+`, then one or more digits and nothing else.
pub open spec fn parse_unsigned(s: Seq<u8>, max: nat) -> Option<nat> {
    let d = unsigned_digits(s);
    if d.len() > 0 && all_digits(d) && digits_value(d) <= max {
        Some(digits_value(d))
    } else {
        None
    }
}

/// `s` read as a `u64`.
pub open spec fn spec_parse_u64(s: Seq<u8>) -> Option<u64> {
    match parse_unsigned(s, u64::MAX as nat) {
        Some(v) => Some(v as u64),
        None => None,
    }
}

/// `s` read as a `u32`.
pub open spec fn spec_parse_u32(s: Seq<u8>) -> Option<u32> {
    match parse_unsigned(s, u32::MAX as nat) {
        Some(v) => Some(v as u32),
        None => None,
    }
}

/// `s` read as a `u16`.
pub open spec fn spec_parse_u16(s: Seq<u8>) -> Option<u16> {
    match parse_unsigned(s, u16::MAX as nat) {
        Some(v) => Some(v as u16),
        None => None,
    }
}

/// A number never gets smaller when digits are appended.
pub proof fn lemma_digits_value_prefix(s: Seq<u8>, i: int)
    requires
        0 <= i <= s.len(),
    ensures
        digits_value(s.subrange(0, i)) <= digits_value(s),
    decreases s.len() - i,
{
    if i == s.len() {
        assert(s.subrange(0, i) =~= s);
    } else {
        lemma_digits_value_prefix(s, i + 1);
        assert(s.subrange(0, i + 1).drop_last() =~= s.subrange(0, i));
    }
}

/// Reads `word` as an unsigned decimal number that is at most `max`.
pub fn parse_bounded(word: &[u8], max: u64) -> (r: Option<u64>)
    ensures
        match r {
            Some(v) => parse_unsigned(word@, max as nat) == Some(v as nat),
            None => parse_unsigned(word@, max as nat) is None,
        },
{
    let n: usize = word.len();
    let mut i: usize = 0;
    if n > 0 && word[0] == 43 {
        i = 1;
    }
    let first: usize = i;
    let ghost d = unsigned_digits(word@);
    assert(d =~= word@.subrange(first as int, n as int));
    if i == n {
        return None;
    }
    let mut acc: u64 = 0;
    assert(d.subrange(0, 0) =~= Seq::<u8>::empty());
    while i < n
        invariant
            first <= i <= n,
            n == word@.len(),
            d == word@.subrange(first as int, n as int),
            d == unsigned_digits(word@),
            acc == digits_value(d.subrange(0, i - first)),
            acc <= max,
            all_digits(d.subrange(0, i - first)),
        decreases n - i,
    {
        let b: u8 = word[i];
        assert(d[i - first] == b);
        if b < 48 || b > 57 {
            assert(!is_digit(d[i - first]));
            return None;
        }
        let digit: u64 = (b - 48) as u64;
        proof {
            assert(d.subrange(0, i + 1 - first).drop_last() =~= d.subrange(0, i - first));
            assert(digits_value(d.subrange(0, i + 1 - first)) == acc * 10 + digit);
        }
        if digit > max || acc > (max - digit) / 10 {
            proof {
                lemma_digits_value_prefix(d, i + 1 - first);
            }
            return None;
        }
        acc = acc * 10 + digit;
        i += 1;
    }
    assert(d.subrange(0, n - first) =~= d);
    Some(acc)
}

/// Reads `word` as a `u64`.
pub fn parse_u64(word: &[u8]) -> (r: Option<u64>)
    ensures
        r == spec_parse_u64(word@),
{
    parse_bounded(word, u64::MAX)
}

/// Reads `word` as a `u32`.
pub fn parse_u32(word: &[u8]) -> (r: Option<u32>)
    ensures
        r == spec_parse_u32(word@),
{
    match parse_bounded(word, 0xffff_ffff) {
        Some(v) => Some(v as u32),
        None => None,
    }
}

/// Reads `word` as a `u16`.
pub fn parse_u16(word: &[u8]) -> (r: Option<u16>)
    ensures
        r == spec_parse_u16(word@),
{
    match parse_bounded(word, 0xffff) {
        Some(v) => Some(v as u16),
        None => None,
    }
}

/// Whether `data` begins with `prefix`.
pub open spec fn has_prefix(data: Seq<u8>, prefix: Seq<u8>) -> bool {
    prefix.len() <= data.len() && data.subrange(0, prefix.len() as int) == prefix
}

/// Whether `data` ends with `suffix`.
pub open spec fn has_suffix(data: Seq<u8>, suffix: Seq<u8>) -> bool {
    suffix.len() <= data.len() && data.subrange(data.len() - suffix.len(), data.len() as int)
        == suffix
}

/// Whether `a` and `b` hold the same bytes.
pub fn bytes_eq(a: &[u8], b: &[u8]) -> (r: bool)
    ensures
        r == (a@ == b@),
{
    if a.len() != b.len() {
        return false;
    }
    let mut i: usize = 0;
    while i < a.len()
        invariant
            a@.len() == b@.len(),
            i <= a@.len(),
            a@.subrange(0, i as int) == b@.subrange(0, i as int),
        decreases a@.len() - i,
    {
        if a[i] != b[i] {
            return false;
        }
        assert(a@.subrange(0, i + 1) =~= a@.subrange(0, i as int).push(a@[i as int]));
        assert(b@.subrange(0, i + 1) =~= b@.subrange(0, i as int).push(b@[i as int]));
        i += 1;
    }
    assert(a@.subrange(0, i as int) =~= a@);
    assert(b@.subrange(0, i as int) =~= b@);
    true
}

/// Whether `data` begins with `prefix`.
pub fn starts_with(data: &[u8], prefix: &[u8]) -> (r: bool)
    ensures
        r == has_prefix(data@, prefix@),
{
    if prefix.len() > data.len() {
        return false;
    }
    bytes_eq(slice_subrange(data, 0, prefix.len()), prefix)
}

/// Whether `data` ends with `suffix`.
pub fn ends_with(data: &[u8], suffix: &[u8]) -> (r: bool)
    ensures
        r == has_suffix(data@, suffix@),
{
    if suffix.len() > data.len() {
        return false;
    }
    bytes_eq(slice_subrange(data, data.len() - suffix.len(), data.len()), suffix)
}

/// Whitespace that trimming removes: tab, line feed, vertical tab, form feed,
/// carriage return and space.
pub open spec fn is_blank(b: u8) -> bool {
    9 <= b <= 13 || b == 32
}

/// `s` without its leading blanks.
pub open spec fn trim_start_of(s: Seq<u8>) -> Seq<u8>
    decreases s.len(),
{
    if s.len() > 0 && is_blank(s[0]) {
        trim_start_of(s.drop_first())
    } else {
        s
    }
}

/// `s` without its trailing blanks.
pub open spec fn trim_end_of(s: Seq<u8>) -> Seq<u8>
    decreases s.len(),
{
    if s.len() > 0 && is_blank(s.last()) {
        trim_end_of(s.drop_last())
    } else {
        s
    }
}

/// `s` without its leading and trailing blanks.
pub open spec fn trimmed(s: Seq<u8>) -> Seq<u8> {
    trim_end_of(trim_start_of(s))
}

/// `s` without its leading run of the byte `b`.
pub open spec fn strip_leading(s: Seq<u8>, b: u8) -> Seq<u8>
    decreases s.len(),
{
    if s.len() > 0 && s[0] == b {
        strip_leading(s.drop_first(), b)
    } else {
        s
    }
}

/// Removes the leading blanks of `data`.
pub fn trim_start<'a>(data: &'a [u8]) -> (r: &'a [u8])
    ensures
        r@ == trim_start_of(data@),
{
    let n: usize = data.len();
    let mut i: usize = 0;
    assert(data@.subrange(0, n as int) =~= data@);
    while i < n && (data[i] == 32 || (9 <= data[i] && data[i] <= 13))
        invariant
            i <= n,
            n == data@.len(),
            trim_start_of(data@) == trim_start_of(data@.subrange(i as int, n as int)),
        decreases n - i,
    {
        assert(data@.subrange(i as int, n as int).drop_first() =~= data@.subrange(
            i + 1,
            n as int,
        ));
        i += 1;
    }
    slice_subrange(data, i, n)
}

/// Removes the trailing blanks of `data`.
pub fn trim_end<'a>(data: &'a [u8]) -> (r: &'a [u8])
    ensures
        r@ == trim_end_of(data@),
{
    let mut n: usize = data.len();
    assert(data@.subrange(0, n as int) =~= data@);
    while n > 0 && (data[n - 1] == 32 || (9 <= data[n - 1] && data[n - 1] <= 13))
        invariant
            n <= data@.len(),
            trim_end_of(data@) == trim_end_of(data@.subrange(0, n as int)),
        decreases n,
    {
        assert(data@.subrange(0, n as int).drop_last() =~= data@.subrange(0, n - 1));
        n -= 1;
    }
    slice_subrange(data, 0, n)
}

/// Removes the leading and trailing blanks of `data`.
pub fn trim<'a>(data: &'a [u8]) -> (r: &'a [u8])
    ensures
        r@ == trimmed(data@),
{
    trim_end(trim_start(data))
}

/// Removes the leading run of the byte `b` from `data`.
pub fn trim_start_matches<'a>(data: &'a [u8], b: u8) -> (r: &'a [u8])
    ensures
        r@ == strip_leading(data@, b),
{
    let n: usize = data.len();
    let mut i: usize = 0;
    assert(data@.subrange(0, n as int) =~= data@);
    while i < n && data[i] == b
        invariant
            i <= n,
            n == data@.len(),
            strip_leading(data@, b) == strip_leading(data@.subrange(i as int, n as int), b),
        decreases n - i,
    {
        assert(data@.subrange(i as int, n as int).drop_first() =~= data@.subrange(
            i + 1,
            n as int,
        ));
        i += 1;
    }
    slice_subrange(data, i, n)
}

/// Why a text was not accepted.
#[derive(Clone, Copy, Debug, PartialEq, Eq)]
pub enum ParseError {
    /// A record has fewer fields than its layout asks for.
    MissingField,
    /// A field that holds a number is no decimal number of its width.
    InvalidNumber,
    /// A number derived from the fields does not fit its type.
    Overflow,
    /// No line carries a key that was asked for.
    MissingKey,
    /// A line lacks the punctuation of its format.
    Malformed,
}

/// What a field of a record holds.
#[derive(Clone, Copy, Debug, PartialEq, Eq)]
pub enum Field {
    /// Anything; it is not read.
    Skip,
    /// A decimal number that fits `u16`.
    U16,
    /// A decimal number that fits `u32`.
    U32,
    /// A decimal number that fits `u64`.
    U64,
}

impl Field {
    /// The largest number that the field may hold.
    pub open spec fn spec_max(self) -> u64 {
        match self {
            Field::Skip => 0,
            Field::U16 => 0xffff,
            Field::U32 => 0xffff_ffff,
            Field::U64 => 0xffff_ffff_ffff_ffff,
        }
    }
}

/// Whether field `i` of `fields` agrees with `layout`.
pub open spec fn field_ok(fields: Seq<Seq<u8>>, layout: Seq<Field>, i: int) -> bool {
    layout[i] is Skip || parse_unsigned(fields[i], layout[i].spec_max() as nat) is Some
}

/// The number in field `i` of `fields`; zero where the field is skipped.
pub open spec fn field_value(fields: Seq<Seq<u8>>, layout: Seq<Field>, i: int) -> u64 {
    if layout[i] is Skip {
        0
    } else {
        parse_unsigned(fields[i], layout[i].spec_max() as nat)->0 as u64
    }
}

/// The numbers that the leading fields of a record hold, one per entry of `layout`.
/// Fields beyond the layout are ignored.
pub open spec fn spec_numbers(fields: Seq<Seq<u8>>, layout: Seq<Field>) -> Result<
    Seq<u64>,
    ParseError,
> {
    if fields.len() < layout.len() {
        Err(ParseError::MissingField)
    } else if !(forall|i: int| 0 <= i < layout.len() ==> field_ok(fields, layout, i)) {
        Err(ParseError::InvalidNumber)
    } else {
        Ok(Seq::new(layout.len(), |i: int| field_value(fields, layout, i)))
    }
}

/// Reads the numbers that the leading fields of a record hold.
pub fn numbers(fields: &Vec<&[u8]>, layout: &[Field]) -> (r: Result<Vec<u64>, ParseError>)
    ensures
        match r {
            Ok(v) => spec_numbers(views(fields@), layout@) == Ok::<Seq<u64>, ParseError>(v@),
            Err(e) => spec_numbers(views(fields@), layout@) == Err::<Seq<u64>, ParseError>(e),
        },
{
    let n: usize = layout.len();
    if fields.len() < n {
        return Err(ParseError::MissingField);
    }
    let ghost f = views(fields@);
    let mut out: Vec<u64> = Vec::new();
    let mut i: usize = 0;
    while i < n
        invariant
            i <= n,
            n == layout@.len(),
            n <= fields@.len(),
            f == views(fields@),
            out@.len() == i,
            forall|j: int| 0 <= j < i ==> field_ok(f, layout@, j),
            forall|j: int| 0 <= j < i ==> out@[j] == field_value(f, layout@, j),
        decreases n - i,
    {
        assert(f[i as int] == fields@[i as int]@);
        let max: u64 = match layout[i] {
            Field::Skip => {
                out.push(0);
                i += 1;
                continue ;
            },
            Field::U16 => 0xffff,
            Field::U32 => 0xffff_ffff,
            Field::U64 => 0xffff_ffff_ffff_ffff,
        };
        match parse_bounded(fields[i], max) {
            Some(v) => {
                out.push(v);
            },
            None => {
                assert(!field_ok(f, layout@, i as int));
                return Err(ParseError::InvalidNumber);
            },
        }
        i += 1;
    }
    assert(out@ =~= Seq::new(layout@.len(), |i: int| field_value(f, layout@, i)));
    Ok(out)
}

/// What a sequence holds after a push: what it held and the new item.
pub proof fn lemma_contains_push<T>(s: Seq<T>, x: T, p: T)
    ensures
        s.push(x).contains(p) <==> s.contains(p) || p == x,
{
    if s.contains(p) {
        let j = s.index_of(p);
        assert(s.push(x)[j] == p);
    }
    if p == x {
        assert(s.push(x)[s.len() as int] == p);
    }
    if s.push(x).contains(p) {
        let j = s.push(x).index_of(p);
        if j < s.len() {
            assert(s[j] == p);
        }
    }
}

/// The items of `items` that are present, in order.
pub open spec fn present<T>(items: Seq<Option<T>>) -> Seq<T>
    decreases items.len(),
{
    if items.len() == 0 {
        Seq::empty()
    } else {
        match items.last() {
            Some(t) => present(items.drop_last()).push(t),
            None => present(items.drop_last()),
        }
    }
}

/// Applies `f` to every item of `items` in order; the first failure is the result.
pub open spec fn try_map<A, B>(items: Seq<A>, f: spec_fn(A) -> Result<B, ParseError>) -> Result<
    Seq<B>,
    ParseError,
>
    decreases items.len(),
{
    if items.len() == 0 {
        Ok(Seq::empty())
    } else {
        match try_map(items.drop_last(), f) {
            Err(e) => Err(e),
            Ok(init) => match f(items.last()) {
                Err(e) => Err(e),
                Ok(b) => Ok(init.push(b)),
            },
        }
    }
}

/// A failure on a prefix of the items is the failure on all of them.
pub proof fn lemma_try_map_prefix_err<A, B>(
    items: Seq<A>,
    f: spec_fn(A) -> Result<B, ParseError>,
    n: int,
)
    requires
        0 <= n <= items.len(),
        try_map(items.subrange(0, n), f) is Err,
    ensures
        try_map(items, f) == try_map(items.subrange(0, n), f),
    decreases items.len() - n,
{
    if n == items.len() {
        assert(items.subrange(0, n) =~= items);
    } else {
        assert(items.subrange(0, n + 1).drop_last() =~= items.subrange(0, n));
        lemma_try_map_prefix_err(items, f, n + 1);
    }
}

/// Index of the first line at or after `from` that does not begin with `key`, or
/// the number of lines where all do.
pub open spec fn first_without(lines: Seq<Seq<u8>>, key: Seq<u8>, from: int) -> int
    decreases lines.len() - from,
{
    if from >= lines.len() {
        lines.len() as int
    } else if !has_prefix(lines[from], key) {
        from
    } else {
        first_without(lines, key, from + 1)
    }
}

/// Index of the first line at or after `from` that does not begin with `key`.
pub fn skip_prefixed(lines: &Vec<&[u8]>, key: &[u8], from: usize) -> (at: usize)
    requires
        from <= lines@.len(),
    ensures
        at == first_without(views(lines@), key@, from as int),
        from <= at <= lines@.len(),
{
    let n: usize = lines.len();
    let mut at: usize = from;
    while at < n && starts_with(lines[at], key)
        invariant
            n == lines@.len(),
            from <= at <= n,
            first_without(views(lines@), key@, from as int) == first_without(
                views(lines@),
                key@,
                at as int,
            ),
        decreases n - at,
    {
        assert(views(lines@)[at as int] == lines@[at as int]@);
        at += 1;
    }
    proof {
        if at < n {
            assert(views(lines@)[at as int] == lines@[at as int]@);
        }
    }
    at
}

/// Index of the first line at or after `from` that begins with `key`, or the number
/// of lines where there is none.
pub open spec fn find_line(lines: Seq<Seq<u8>>, from: int, key: Seq<u8>) -> int
    decreases lines.len() - from,
{
    if from >= lines.len() {
        lines.len() as int
    } else if has_prefix(lines[from], key) {
        from
    } else {
        find_line(lines, from + 1, key)
    }
}

/// Index of the first line at or after `from` that begins with `key`.
pub fn find_key(lines: &Vec<&[u8]>, from: usize, key: &[u8]) -> (at: usize)
    ensures
        at == find_line(views(lines@), from as int, key@),
        at <= lines@.len(),
{
    let n: usize = lines.len();
    let mut at: usize = from;
    while at < n && !starts_with(lines[at], key)
        invariant
            n == lines@.len(),
            from <= at,
            at <= n || at == from,
            find_line(views(lines@), from as int, key@) == find_line(
                views(lines@),
                at as int,
                key@,
            ),
        decreases n - at,
    {
        assert(views(lines@)[at as int] == lines@[at as int]@);
        at += 1;
    }
    proof {
        if at < n {
            assert(views(lines@)[at as int] == lines@[at as int]@);
        }
    }
    if at > n {
        n
    } else {
        at
    }
}

/// The value of a number written with a decimal point, in units of 10^-9: the
/// whole part is an unsigned decimal number, the optional fraction holds digits
/// only, of which those after the ninth are dropped.
pub open spec fn spec_parse_nanos(word: Seq<u8>) -> Option<u64> {
    let parts = split_on(word, 46);
    if parts.len() > 2 {
        None
    } else {
        let fraction = if parts.len() == 2 {
            parts[1]
        } else {
            Seq::empty()
        };
        match parse_unsigned(parts[0], 18_446_744_073) {
            None => None,
            Some(whole) => if !all_digits(fraction) || whole * 1_000_000_000 + fraction_nanos(
                fraction,
            ) > u64::MAX {
                None
            } else {
                Some((whole * 1_000_000_000 + fraction_nanos(fraction)) as u64)
            },
        }
    }
}

/// A fraction's digits as a count of 10^-9: the first nine digits, with zeros for
/// those that are missing.
pub open spec fn fraction_nanos(fraction: Seq<u8>) -> nat {
    digits_value((fraction + Seq::new(9, |i: int| 48u8)).subrange(0, 9))
}

/// One followed by `k` zeros, for `k` up to nine.
pub open spec fn power_of_ten(k: int) -> nat {
    if k <= 0 {
        1
    } else if k == 1 {
        10
    } else if k == 2 {
        100
    } else if k == 3 {
        1_000
    } else if k == 4 {
        10_000
    } else if k == 5 {
        100_000
    } else if k == 6 {
        1_000_000
    } else if k == 7 {
        10_000_000
    } else if k == 8 {
        100_000_000
    } else {
        1_000_000_000
    }
}

/// Whether `data` holds decimal digits only.
pub fn is_all_digits(data: &[u8]) -> (r: bool)
    ensures
        r == all_digits(data@),
{
    let mut i: usize = 0;
    while i < data.len()
        invariant
            i <= data@.len(),
            forall|j: int| 0 <= j < i ==> is_digit(#[trigger] data@[j]),
        decreases data@.len() - i,
    {
        if data[i] < 48 || data[i] > 57 {
            assert(!is_digit(data@[i as int]));
            return false;
        }
        i += 1;
    }
    true
}

/// Reads a number written with a decimal point as a count of 10^-9.
pub fn parse_nanos(word: &[u8]) -> (r: Option<u64>)
    ensures
        r == spec_parse_nanos(word@),
{
    let parts: Vec<&[u8]> = split(word, 46);
    if parts.len() > 2 {
        return None;
    }
    assert(views(parts@)[0] == parts@[0]@);
    let whole: u64 = match parse_bounded(parts[0], 18_446_744_073) {
        Some(w) => w,
        None => { return None; },
    };
    let empty: [u8; 0] = [];
    let fraction: &[u8] = if parts.len() == 2 {
        assert(views(parts@)[1] == parts@[1]@);
        parts[1]
    } else {
        assert(empty@ =~= Seq::<u8>::empty());
        empty.as_slice()
    };
    if !is_all_digits(fraction) {
        return None;
    }
    let ghost padded = (fraction@ + Seq::new(9, |i: int| 48u8)).subrange(0, 9);
    let mut acc: u64 = 0;
    let mut k: usize = 0;
    assert(padded.subrange(0, 0) =~= Seq::<u8>::empty());
    while k < 9
        invariant
            k <= 9,
            all_digits(fraction@),
            padded == (fraction@ + Seq::new(9, |i: int| 48u8)).subrange(0, 9),
            acc == digits_value(padded.subrange(0, k as int)),
            acc < power_of_ten(k as int),
        decreases 9 - k,
    {
        let digit: u64 = if k < fraction.len() {
            (fraction[k] - 48) as u64
        } else {
            0
        };
        proof {
            assert(padded.subrange(0, k + 1).drop_last() =~= padded.subrange(0, k as int));
            assert(is_digit(padded[k as int]));
            assert(padded[k as int] - 48 == digit);
        }
        acc = acc * 10 + digit;
        k += 1;
    }
    assert(padded.subrange(0, 9) =~= padded);
    let nanos: u128 = whole as u128 * 1_000_000_000u128 + acc as u128;
    if nanos > 0xffff_ffff_ffff_ffff {
        None
    } else {
        Some(nanos as u64)
    }
}

} // verus!
