//! The text grammar of the composite map.
//!
//! ```text
//! file   := block*
//! block  := filename "?" record* "!"
//! record := object_path "," entry_id "," offset "," size ",|"
//! ```
//!
//! Reading is lenient. A number that does not read as a decimal number counts
//! as 0. Reading stops, and keeps what it has, at the first block that lacks
//! its `?` or its `!` and at the first record that has fewer than four fields;
//! [`ParsedMap::truncated`] tells whether that happened.

use crate::entry::{entry_views, CompositeEntry, EntryView};
use crate::text::{str_to_chars, string_from_chars};
use vstd::prelude::*;

verus! {

/// The first index in `from..to` at which `s` holds `c`, or `to` where it
/// holds none there.
pub open spec fn find_char(s: Seq<char>, c: char, from: int, to: int) -> int
    decreases to - from,
{
    if from >= to {
        to
    } else if s[from] == c {
        from
    } else {
        find_char(s, c, from + 1, to)
    }
}

/// The first index in `from..to` at which the record separator `,|` starts
/// and ends before `to`, or `to` where there is none.
pub open spec fn find_separator(s: Seq<char>, from: int, to: int) -> int
    decreases to - from,
{
    if from + 1 >= to {
        to
    } else if s[from] == ',' && s[from + 1] == '|' {
        from
    } else {
        find_separator(s, from + 1, to)
    }
}

/// A search that starts inside its range ends inside it.
pub proof fn lemma_find_char_bounds(s: Seq<char>, c: char, from: int, to: int)
    requires
        from <= to,
    ensures
        from <= find_char(s, c, from, to) <= to,
        find_char(s, c, from, to) < to ==> s[find_char(s, c, from, to)] == c,
    decreases to - from,
{
    if from < to && s[from] != c {
        lemma_find_char_bounds(s, c, from + 1, to);
    }
}

/// A search that starts inside its range ends inside it.
pub proof fn lemma_find_separator_bounds(s: Seq<char>, from: int, to: int)
    requires
        from <= to,
    ensures
        from <= find_separator(s, from, to) <= to,
        find_separator(s, from, to) < to ==> find_separator(s, from, to) + 2 <= to,
    decreases to - from,
{
    if from + 1 < to && !(s[from] == ',' && s[from + 1] == '|') {
        lemma_find_separator_bounds(s, from + 1, to);
    }
}

/// Whether `c` is one of the ASCII digits.
pub open spec fn is_digit(c: char) -> bool {
    48 <= c as int <= 57
}

/// The number that the decimal digits `s` write.
pub open spec fn digits_value(s: Seq<char>) -> nat
    decreases s.len(),
{
    if s.len() == 0 {
        0
    } else {
        (digits_value(s.drop_last()) * 10 + (s.last() as int - 48)) as nat
    }
}

/// The digits of a number text: the text without one leading `+`.
pub open spec fn unsigned_digits(s: Seq<char>) -> Seq<char> {
    if s.len() > 0 && s[0] == '+' {
        s.subrange(1, s.len() as int)
    } else {
        s
    }
}

/// Whether `s` reads as a number: an optional `+`, then one or more ASCII
/// digits whose value fits the machine word.
pub open spec fn reads_as_number(s: Seq<char>) -> bool {
    let d = unsigned_digits(s);
    d.len() > 0 && (forall|i: int| 0 <= i < d.len() ==> is_digit(#[trigger] d[i])) && digits_value(d)
        <= usize::MAX
}

/// The value of a number field: what it reads as, and 0 for any other text.
pub open spec fn number(s: Seq<char>) -> usize {
    if reads_as_number(s) {
        digits_value(unsigned_digits(s)) as usize
    } else {
        0
    }
}

/// The record in `s[lo..hi]`, in the block of the container `filename`:
/// four fields parted by commas, of which the last may be followed by more.
/// `None` where there are fewer than four.
pub open spec fn record_at(s: Seq<char>, filename: Seq<char>, lo: int, hi: int) -> Option<
    EntryView,
> {
    let c1 = find_char(s, ',', lo, hi);
    let c2 = find_char(s, ',', c1 + 1, hi);
    let c3 = find_char(s, ',', c2 + 1, hi);
    let c4 = find_char(s, ',', c3 + 1, hi);
    if c1 >= hi || c2 >= hi || c3 >= hi {
        None
    } else {
        Some(
            EntryView {
                filename,
                object_path: s.subrange(lo, c1),
                composite_name: s.subrange(c1 + 1, c2),
                offset: number(s.subrange(c2 + 1, c3)),
                size: number(s.subrange(c3 + 1, c4)),
            },
        )
    }
}

/// What reading gives: the entries in the order of the text, and whether
/// reading stopped before the end of the text.
pub struct ParsedView {
    pub entries: Seq<EntryView>,
    pub truncated: bool,
}

/// `first`, followed by `rest` unless reading stopped in `first`.
pub open spec fn then_parsed(first: ParsedView, rest: ParsedView) -> ParsedView {
    if first.truncated {
        first
    } else {
        ParsedView { entries: first.entries + rest.entries, truncated: rest.truncated }
    }
}

/// The records of `s[pos..to]`, the inside of a block: each ends with `,|`,
/// and what follows the last `,|` is dropped.
pub open spec fn records_from(s: Seq<char>, filename: Seq<char>, pos: int, to: int) -> ParsedView
    decreases to - pos,
    via records_from_decreases
{
    let sep = find_separator(s, pos, to);
    if pos > to || sep >= to {
        ParsedView { entries: Seq::empty(), truncated: false }
    } else {
        match record_at(s, filename, pos, sep) {
            None => ParsedView { entries: Seq::empty(), truncated: true },
            Some(e) => then_parsed(
                ParsedView { entries: seq![e], truncated: false },
                records_from(s, filename, sep + 2, to),
            ),
        }
    }
}

#[via_fn]
proof fn records_from_decreases(s: Seq<char>, filename: Seq<char>, pos: int, to: int) {
    if pos <= to {
        lemma_find_separator_bounds(s, pos, to);
    }
}

/// The blocks of `s` from `cursor` on.
pub open spec fn blocks_from(s: Seq<char>, cursor: int) -> ParsedView
    decreases s.len() - cursor,
    via blocks_from_decreases
{
    let q = find_char(s, '?', cursor, s.len() as int);
    let excl = find_char(s, '!', q + 1, s.len() as int);
    if cursor < 0 || cursor >= s.len() {
        ParsedView { entries: Seq::empty(), truncated: false }
    } else if q >= s.len() || excl >= s.len() {
        ParsedView { entries: Seq::empty(), truncated: true }
    } else {
        then_parsed(
            records_from(s, s.subrange(cursor, q), q + 1, excl),
            blocks_from(s, excl + 1),
        )
    }
}

#[via_fn]
proof fn blocks_from_decreases(s: Seq<char>, cursor: int) {
    if 0 <= cursor < s.len() {
        lemma_find_char_bounds(s, '?', cursor, s.len() as int);
        let q = find_char(s, '?', cursor, s.len() as int);
        if q < s.len() {
            lemma_find_char_bounds(s, '!', q + 1, s.len() as int);
        }
    }
}

/// What the text `s` of a composite map reads as.
pub open spec fn parsed(s: Seq<char>) -> ParsedView {
    blocks_from(s, 0)
}


/// A longer run of digits writes a number that is at least as large.
pub proof fn lemma_digits_value_grows(d: Seq<char>, k: int)
    requires
        0 <= k <= d.len(),
        forall|i: int| 0 <= i < d.len() ==> is_digit(#[trigger] d[i]),
    ensures
        digits_value(d.take(k)) <= digits_value(d),
    decreases d.len(),
{
    if k < d.len() {
        let shorter = d.drop_last();
        assert(shorter.take(k) =~= d.take(k));
        lemma_digits_value_grows(shorter, k);
    } else {
        assert(d.take(k) =~= d);
    }
}

/// Reading in two steps is reading at once.
pub proof fn lemma_then_parsed_assoc(a: ParsedView, b: ParsedView, c: ParsedView)
    ensures
        then_parsed(a, then_parsed(b, c)) == then_parsed(then_parsed(a, b), c),
{
    if !a.truncated && !b.truncated {
        assert(a.entries + (b.entries + c.entries) =~= (a.entries + b.entries) + c.entries);
    }
}

fn find_char_in(chars: &[char], c: char, from: usize, to: usize) -> (at: usize)
    requires
        from <= to <= chars.len(),
    ensures
        at == find_char(chars@, c, from as int, to as int),
        from <= at <= to,
{
    let mut i: usize = from;
    while i < to
        invariant
            from <= i <= to,
            to <= chars.len(),
            find_char(chars@, c, from as int, to as int) == find_char(chars@, c, i as int, to as int),
        decreases to - i,
    {
        if chars[i] == c {
            return i;
        }
        i += 1;
    }
    to
}

fn find_separator_in(chars: &[char], from: usize, to: usize) -> (at: usize)
    requires
        from <= to <= chars.len(),
    ensures
        at == find_separator(chars@, from as int, to as int),
        from <= at <= to,
        at < to ==> at + 2 <= to,
{
    let mut i: usize = from;
    while to - i >= 2
        invariant
            from <= i <= to,
            to <= chars.len(),
            find_separator(chars@, from as int, to as int) == find_separator(
                chars@,
                i as int,
                to as int,
            ),
        decreases to - i,
    {
        if chars[i] == ',' && chars[i + 1] == '|' {
            return i;
        }
        i += 1;
    }
    to
}

/// The value of the ASCII digit `c`.
fn digit_of(c: char) -> (digit: Option<usize>)
    ensures
        match digit {
            Some(d) => is_digit(c) && d == c as int - 48,
            None => !is_digit(c),
        },
{
    let code = c as u32;
    if 48 <= code && code <= 57 {
        Some((code - 48) as usize)
    } else {
        None
    }
}

/// Reads the number field `chars[lo..hi]`.
fn read_number(chars: &[char], lo: usize, hi: usize) -> (n: usize)
    requires
        lo <= hi <= chars.len(),
    ensures
        n == number(chars@.subrange(lo as int, hi as int)),
{
    let ghost field = chars@.subrange(lo as int, hi as int);
    let start: usize = if lo < hi && chars[lo] == '+' {
        lo + 1
    } else {
        lo
    };
    let ghost d = unsigned_digits(field);
    assert(d =~= chars@.subrange(start as int, hi as int));
    if start >= hi {
        return 0;
    }
    let mut acc: usize = 0;
    let mut i: usize = start;
    while i < hi
        invariant
            start <= i <= hi,
            hi <= chars.len(),
            d == chars@.subrange(start as int, hi as int),
            d == unsigned_digits(field),
            field == chars@.subrange(lo as int, hi as int),
            lo <= start,
            d.len() > 0,
            acc == digits_value(d.take(i - start)),
            forall|k: int| 0 <= k < i - start ==> is_digit(#[trigger] d[k]),
        decreases hi - i,
    {
        let c: char = chars[i];
        assert(d[i - start] == c);
        let digit = match digit_of(c) {
            None => {
                return 0;
            },
            Some(digit) => digit,
        };
        proof {
            assert(d.take(i - start + 1).drop_last() =~= d.take(i - start));
            assert(digits_value(d.take(i - start + 1)) == acc * 10 + digit);
            if reads_as_number(field) {
                lemma_digits_value_grows(d, i - start + 1);
            }
        }
        match acc.checked_mul(10) {
            None => {
                return 0;
            },
            Some(shifted) => match shifted.checked_add(digit) {
                None => {
                    return 0;
                },
                Some(next) => {
                    acc = next;
                },
            },
        }
        i += 1;
    }
    assert(d.take(hi - start) =~= d);
    acc
}

/// Reads the record `chars[lo..hi]` of the block whose container is named by
/// `chars[name_lo..name_hi]`.
fn read_record(chars: &[char], name_lo: usize, name_hi: usize, lo: usize, hi: usize) -> (record:
    Option<CompositeEntry>)
    requires
        name_lo <= name_hi <= chars.len(),
        lo <= hi <= chars.len(),
    ensures
        match record {
            Some(e) => record_at(
                chars@,
                chars@.subrange(name_lo as int, name_hi as int),
                lo as int,
                hi as int,
            ) == Some(e@),
            None => record_at(
                chars@,
                chars@.subrange(name_lo as int, name_hi as int),
                lo as int,
                hi as int,
            ) is None,
        },
{
    let c1 = find_char_in(chars, ',', lo, hi);
    if c1 >= hi {
        return None;
    }
    let c2 = find_char_in(chars, ',', c1 + 1, hi);
    if c2 >= hi {
        return None;
    }
    let c3 = find_char_in(chars, ',', c2 + 1, hi);
    if c3 >= hi {
        return None;
    }
    let c4 = find_char_in(chars, ',', c3 + 1, hi);
    Some(
        CompositeEntry {
            filename: string_from_chars(chars, name_lo, name_hi),
            object_path: string_from_chars(chars, lo, c1),
            composite_name: string_from_chars(chars, c1 + 1, c2),
            offset: read_number(chars, c2 + 1, c3),
            size: read_number(chars, c3 + 1, c4),
        },
    )
}

/// Reads the records of the block inside `chars[pos..to]` onto the end of
/// `entries`. Tells whether every record had its four fields.
fn read_records(
    chars: &[char],
    name_lo: usize,
    name_hi: usize,
    pos: usize,
    to: usize,
    entries: &mut Vec<CompositeEntry>,
) -> (complete: bool)
    requires
        name_lo <= name_hi <= chars.len(),
        pos <= to <= chars.len(),
    ensures
        (ParsedView { entries: entry_views(final(entries)@), truncated: !complete }) == then_parsed(
            ParsedView { entries: entry_views(old(entries)@), truncated: false },
            records_from(
                chars@,
                chars@.subrange(name_lo as int, name_hi as int),
                pos as int,
                to as int,
            ),
        ),
{
    let ghost name = chars@.subrange(name_lo as int, name_hi as int);
    let ghost whole = then_parsed(
        ParsedView { entries: entry_views(entries@), truncated: false },
        records_from(chars@, name, pos as int, to as int),
    );
    let mut at: usize = pos;
    loop
        invariant
            name_lo <= name_hi <= chars.len(),
            at <= to <= chars.len(),
            name == chars@.subrange(name_lo as int, name_hi as int),
            whole == then_parsed(
                ParsedView { entries: entry_views(old(entries)@), truncated: false },
                records_from(chars@, name, pos as int, to as int),
            ),
            whole == then_parsed(
                ParsedView { entries: entry_views(entries@), truncated: false },
                records_from(chars@, name, at as int, to as int),
            ),
        decreases to - at,
    {
        let sep = find_separator_in(chars, at, to);
        if sep >= to {
            assert(entry_views(entries@) + Seq::<EntryView>::empty() =~= entry_views(entries@));
            return true;
        }
        match read_record(chars, name_lo, name_hi, at, sep) {
            None => {
                return false;
            },
            Some(e) => {
                proof {
                    let acc = ParsedView { entries: entry_views(entries@), truncated: false };
                    let one = ParsedView { entries: seq![e@], truncated: false };
                    let rest = records_from(chars@, name, sep + 2, to as int);
                    lemma_then_parsed_assoc(acc, one, rest);
                    assert(entry_views(entries@.push(e)) =~= entry_views(entries@) + seq![e@]);
                }
                entries.push(e);
                at = sep + 2;
            },
        }
    }
}

/// What reading a composite map gives.
pub struct ParsedMap {
    /// The entries, in the order of the text.
    pub entries: Vec<CompositeEntry>,
    /// Whether reading stopped before the end of the text.
    pub truncated: bool,
}

impl View for ParsedMap {
    type V = ParsedView;

    open spec fn view(&self) -> ParsedView {
        ParsedView { entries: entry_views(self.entries@), truncated: self.truncated }
    }
}

/// Reads the text of a composite map.
pub fn parse_composite_map(text: &str) -> (map: ParsedMap)
    ensures
        map@ == parsed(text@),
{
    let chars_vec = str_to_chars(text);
    let chars = chars_vec.as_slice();
    let len = chars.len();
    let mut entries: Vec<CompositeEntry> = Vec::new();
    let mut cursor: usize = 0;
    assert(entry_views(entries@) + blocks_from(chars@, 0).entries =~= blocks_from(
        chars@,
        0,
    ).entries);
    while cursor < len
        invariant
            cursor <= len,
            len == chars.len(),
            chars@ == text@,
            parsed(text@) == then_parsed(
                ParsedView { entries: entry_views(entries@), truncated: false },
                blocks_from(chars@, cursor as int),
            ),
        decreases len - cursor,
    {
        let q = find_char_in(chars, '?', cursor, len);
        if q >= len {
            assert(entry_views(entries@) + Seq::<EntryView>::empty() =~= entry_views(entries@));
            return ParsedMap { entries, truncated: true };
        }
        let excl = find_char_in(chars, '!', q + 1, len);
        if excl >= len {
            assert(entry_views(entries@) + Seq::<EntryView>::empty() =~= entry_views(entries@));
            return ParsedMap { entries, truncated: true };
        }
        proof {
            lemma_then_parsed_assoc(
                ParsedView { entries: entry_views(entries@), truncated: false },
                records_from(chars@, chars@.subrange(cursor as int, q as int), q + 1, excl as int),
                blocks_from(chars@, excl + 1),
            );
        }
        let complete = read_records(chars, cursor, q, q + 1, excl, &mut entries);
        if !complete {
            return ParsedMap { entries, truncated: true };
        }
        cursor = excl + 1;
    }
    assert(entry_views(entries@) + Seq::<EntryView>::empty() =~= entry_views(entries@));
    ParsedMap { entries, truncated: false }
}

} // verus!
