//! Reading back what was written.
//!
//! A composite map whose names, paths and identifiers hold none of the
//! characters that the grammar gives a meaning reads back from its text as
//! the same entries, block after block, each block in ascending offset.

use crate::codec::{
    blocks_from, digits_value, find_char, find_separator, is_digit, number, parsed, reads_as_number,
    record_at, records_from, then_parsed, unsigned_digits, ParsedView,
};
use crate::composite_mapper::{map_file_bytes, unique_ids, upserted_all};
use crate::entry::EntryView;
use crate::serializer::{
    block_text, blocks_text, containers, decimal_text, digit_char, entries_of, insert_by_offset,
    lemma_group_names, lemma_insert_by_offset, lemma_sorted_by_offset, record_text, records_text,
    serialized, sorted_by_offset,
};
use vstd::prelude::*;

verus! {

/// Whether `c` has no meaning in the grammar.
pub open spec fn is_plain_char(c: char) -> bool {
    c != ',' && c != '|' && c != '!' && c != '?'
}

/// Whether `s` holds only characters without a meaning in the grammar.
pub open spec fn plain(s: Seq<char>) -> bool {
    forall|i: int| 0 <= i < s.len() ==> is_plain_char(#[trigger] s[i])
}

/// Whether the container, the path and the identifier of `e` are plain.
pub open spec fn writable(e: EntryView) -> bool {
    plain(e.filename) && plain(e.object_path) && plain(e.composite_name)
}

/// Whether every entry of `entries` is writable.
pub open spec fn all_writable(entries: Seq<EntryView>) -> bool {
    forall|i: int| 0 <= i < entries.len() ==> writable(#[trigger] entries[i])
}

/// The entries in the order in which the text holds them: the groups of the
/// containers `names`, one behind the other, each in ascending offset; the
/// group of the container without name is left out.
pub open spec fn written_order(entries: Seq<EntryView>, names: Seq<Seq<char>>) -> Seq<EntryView>
    decreases names.len(),
{
    if names.len() == 0 {
        Seq::empty()
    } else {
        written_order(entries, names.drop_last()) + if names.last().len() == 0 {
            Seq::empty()
        } else {
            sorted_by_offset(entries_of(entries, names.last()))
        }
    }
}

/// The text of a record without the separator that ends it.
pub open spec fn record_body(e: EntryView) -> Seq<char> {
    e.object_path + seq![','] + e.composite_name + seq![','] + decimal_text(e.offset as nat)
        + seq![','] + decimal_text(e.size as nat)
}

/// A search finds the first occurrence.
pub proof fn lemma_find_char_at(s: Seq<char>, c: char, from: int, at: int, to: int)
    requires
        from <= at <= to,
        forall|k: int| from <= k < at ==> s[k] != c,
        at < to ==> s[at] == c,
    ensures
        find_char(s, c, from, to) == at,
    decreases at - from,
{
    if from < at {
        lemma_find_char_at(s, c, from + 1, at, to);
    }
}

/// A search for the separator finds the first occurrence.
pub proof fn lemma_find_separator_at(s: Seq<char>, from: int, at: int, to: int)
    requires
        from <= at,
        at + 2 <= to,
        forall|k: int| from <= k < at ==> !((#[trigger] s[k]) == ',' && s[k + 1] == '|'),
        s[at] == ',' && s[at + 1] == '|',
    ensures
        find_separator(s, from, to) == at,
    decreases at - from,
{
    if from < at {
        lemma_find_separator_at(s, from + 1, at, to);
    }
}

/// The decimal digits of a number are digits and write that number.
pub proof fn lemma_decimal_text(n: nat)
    ensures
        decimal_text(n).len() > 0,
        forall|i: int| 0 <= i < decimal_text(n).len() ==> is_digit(#[trigger] decimal_text(n)[i]),
        digits_value(decimal_text(n)) == n,
    decreases n,
{
    if n < 10 {
        let t = decimal_text(n);
        assert(t.drop_last() =~= Seq::<char>::empty());
        assert(digits_value(t.drop_last()) == 0);
        assert(t.last() == digit_char(n as int));
    } else {
        lemma_decimal_text(n / 10);
        let t = decimal_text(n);
        assert(t.drop_last() =~= decimal_text(n / 10));
        assert(t.last() == digit_char((n % 10) as int));
    }
}

/// A number that is written in decimal digits reads back as itself.
pub proof fn lemma_number_of_decimal(n: usize)
    ensures
        number(decimal_text(n as nat)) == n,
        plain(decimal_text(n as nat)),
        decimal_text(n as nat).len() > 0,
        decimal_text(n as nat).last() != ',',
{
    lemma_decimal_text(n as nat);
    let t = decimal_text(n as nat);
    assert(is_digit(t[0]));
    assert(unsigned_digits(t) == t);
    assert(reads_as_number(t));
    assert forall|i: int| 0 <= i < t.len() implies is_plain_char(#[trigger] t[i]) by {
        assert(is_digit(t[i]));
    }
    assert(is_digit(t[t.len() - 1]));
}

/// The record that was written reads back.
pub proof fn lemma_record_at(s: Seq<char>, filename: Seq<char>, lo: int, e: EntryView)
    requires
        0 <= lo,
        lo + record_body(e).len() <= s.len(),
        s.subrange(lo, lo + record_body(e).len()) == record_body(e),
        plain(e.object_path),
        plain(e.composite_name),
        e.filename == filename,
    ensures
        record_at(s, filename, lo, lo + record_body(e).len()) == Some(e),
{
    let body = record_body(e);
    let hi = lo + body.len();
    let offset_text = decimal_text(e.offset as nat);
    let size_text = decimal_text(e.size as nat);
    lemma_number_of_decimal(e.offset);
    lemma_number_of_decimal(e.size);
    let c1 = lo + e.object_path.len();
    let c2 = c1 + 1 + e.composite_name.len();
    let c3 = c2 + 1 + offset_text.len();
    assert(hi == c3 + 1 + size_text.len());
    assert forall|k: int| lo <= k < hi implies s[k] == body[k - lo] by {
        assert(s.subrange(lo, hi)[k - lo] == s[k]);
    }
    assert forall|k: int| lo <= k < c1 implies s[k] != ',' by {
        assert(body[k - lo] == e.object_path[k - lo]);
        assert(is_plain_char(e.object_path[k - lo]));
    }
    assert(body[c1 - lo] == ',');
    lemma_find_char_at(s, ',', lo, c1, hi);
    assert forall|k: int| c1 + 1 <= k < c2 implies s[k] != ',' by {
        assert(body[k - lo] == e.composite_name[k - c1 - 1]);
        assert(is_plain_char(e.composite_name[k - c1 - 1]));
    }
    assert(body[c2 - lo] == ',');
    lemma_find_char_at(s, ',', c1 + 1, c2, hi);
    assert forall|k: int| c2 + 1 <= k < c3 implies s[k] != ',' by {
        assert(body[k - lo] == offset_text[k - c2 - 1]);
        assert(is_plain_char(offset_text[k - c2 - 1]));
    }
    assert(body[c3 - lo] == ',');
    lemma_find_char_at(s, ',', c2 + 1, c3, hi);
    assert forall|k: int| c3 + 1 <= k < hi implies s[k] != ',' by {
        assert(body[k - lo] == size_text[k - c3 - 1]);
        assert(is_plain_char(size_text[k - c3 - 1]));
    }
    lemma_find_char_at(s, ',', c3 + 1, hi, hi);
    assert(s.subrange(lo, c1) =~= e.object_path);
    assert(s.subrange(c1 + 1, c2) =~= e.composite_name);
    assert(s.subrange(c2 + 1, c3) =~= offset_text);
    assert(s.subrange(c3 + 1, hi) =~= size_text);
}


/// The text of a run of records is the text of its parts, one behind the
/// other.
pub proof fn lemma_records_text_concat(a: Seq<EntryView>, b: Seq<EntryView>)
    ensures
        records_text(a + b) == records_text(a) + records_text(b),
    decreases b.len(),
{
    if b.len() == 0 {
        assert(a + b =~= a);
        assert(records_text(a) + records_text(b) =~= records_text(a));
    } else {
        assert((a + b).drop_last() =~= a + b.drop_last());
        assert((a + b).last() == b.last());
        lemma_records_text_concat(a, b.drop_last());
        assert(records_text(a) + records_text(b.drop_last()) + record_text(b.last())
            =~= records_text(a) + (records_text(b.drop_last()) + record_text(b.last())));
    }
}

/// The text of a run of blocks is the text of its parts, one behind the
/// other, and so is the order in which the entries are written.
pub proof fn lemma_blocks_text_concat(entries: Seq<EntryView>, a: Seq<Seq<char>>, b: Seq<Seq<char>>)
    ensures
        blocks_text(entries, a + b) == blocks_text(entries, a) + blocks_text(entries, b),
        written_order(entries, a + b) == written_order(entries, a) + written_order(entries, b),
    decreases b.len(),
{
    if b.len() == 0 {
        assert(a + b =~= a);
        assert(blocks_text(entries, a) + blocks_text(entries, b) =~= blocks_text(entries, a));
        assert(written_order(entries, a) + written_order(entries, b) =~= written_order(
            entries,
            a,
        ));
    } else {
        assert((a + b).drop_last() =~= a + b.drop_last());
        assert((a + b).last() == b.last());
        lemma_blocks_text_concat(entries, a, b.drop_last());
        assert(blocks_text(entries, a) + blocks_text(entries, b.drop_last()) + block_text(
            entries,
            b.last(),
        ) =~= blocks_text(entries, a) + (blocks_text(entries, b.drop_last()) + block_text(
            entries,
            b.last(),
        )));
        let group = if b.last().len() == 0 {
            Seq::<EntryView>::empty()
        } else {
            sorted_by_offset(entries_of(entries, b.last()))
        };
        assert(written_order(entries, a) + written_order(entries, b.drop_last()) + group
            =~= written_order(entries, a) + (written_order(entries, b.drop_last()) + group));
    }
}

/// The text of one record, and of one block, as a run of its own.
pub proof fn lemma_text_of_one(entries: Seq<EntryView>, e: EntryView, name: Seq<char>)
    ensures
        records_text(seq![e]) == record_text(e),
        blocks_text(entries, seq![name]) == block_text(entries, name),
        written_order(entries, seq![name]) == if name.len() == 0 {
            Seq::<EntryView>::empty()
        } else {
            sorted_by_offset(entries_of(entries, name))
        },
{
    assert(seq![e].drop_last() =~= Seq::<EntryView>::empty());
    assert(records_text(seq![e].drop_last()) =~= Seq::<char>::empty());
    assert(records_text(seq![e]) =~= record_text(e));
    assert(seq![name].drop_last() =~= Seq::<Seq<char>>::empty());
    assert(blocks_text(entries, seq![name].drop_last()) =~= Seq::<char>::empty());
    assert(blocks_text(entries, seq![name]) =~= block_text(entries, name));
    assert(written_order(entries, seq![name].drop_last()) =~= Seq::<EntryView>::empty());
    let group = if name.len() == 0 {
        Seq::<EntryView>::empty()
    } else {
        sorted_by_offset(entries_of(entries, name))
    };
    assert(written_order(entries, seq![name]) =~= group);
}

/// The body of a record whose path and identifier are plain holds no `|`,
/// no `!` and no `?`, and does not end with a comma.
pub proof fn lemma_record_body_chars(e: EntryView)
    requires
        plain(e.object_path),
        plain(e.composite_name),
    ensures
        record_body(e).len() > 0,
        record_body(e).last() != ',',
        forall|i: int|
            0 <= i < record_body(e).len() ==> (#[trigger] record_body(e)[i]) != '|' && record_body(
                e,
            )[i] != '!' && record_body(e)[i] != '?',
        record_text(e) == record_body(e) + seq![',', '|'],
{
    let body = record_body(e);
    let offset_text = decimal_text(e.offset as nat);
    let size_text = decimal_text(e.size as nat);
    lemma_number_of_decimal(e.offset);
    lemma_number_of_decimal(e.size);
    let c1 = e.object_path.len() as int;
    let c2 = c1 + 1 + e.composite_name.len();
    let c3 = c2 + 1 + offset_text.len();
    assert forall|i: int| 0 <= i < body.len() implies (#[trigger] body[i]) != '|' && body[i] != '!'
        && body[i] != '?' by {
        if i < c1 {
            assert(body[i] == e.object_path[i]);
            assert(is_plain_char(e.object_path[i]));
        } else if i == c1 {
        } else if i < c2 {
            assert(body[i] == e.composite_name[i - c1 - 1]);
            assert(is_plain_char(e.composite_name[i - c1 - 1]));
        } else if i == c2 {
        } else if i < c3 {
            assert(body[i] == offset_text[i - c2 - 1]);
            assert(is_plain_char(offset_text[i - c2 - 1]));
        } else if i == c3 {
        } else {
            assert(body[i] == size_text[i - c3 - 1]);
            assert(is_plain_char(size_text[i - c3 - 1]));
        }
    }
    assert(body.last() == size_text.last());
    assert(record_text(e) =~= body + seq![',', '|']);
}

/// The text of records whose paths and identifiers are plain holds no `!`.
pub proof fn lemma_records_text_chars(group: Seq<EntryView>)
    requires
        forall|i: int|
            0 <= i < group.len() ==> plain((#[trigger] group[i]).object_path) && plain(
                group[i].composite_name,
            ),
    ensures
        forall|i: int| 0 <= i < records_text(group).len() ==> (#[trigger] records_text(group)[i]) != '!',
    decreases group.len(),
{
    if group.len() > 0 {
        let shorter = group.drop_last();
        assert forall|i: int| 0 <= i < shorter.len() implies plain(
            (#[trigger] shorter[i]).object_path,
        ) && plain(shorter[i].composite_name) by {
            assert(shorter[i] == group[i]);
        }
        lemma_records_text_chars(shorter);
        let e = group.last();
        assert(e == group[group.len() - 1]);
        lemma_record_body_chars(e);
        let before = records_text(shorter);
        let body = record_body(e);
        let text = records_text(group);
        assert(text =~= before + (body + seq![',', '|']));
        assert forall|i: int| 0 <= i < text.len() implies (#[trigger] text[i]) != '!' by {
            if i < before.len() {
                assert(text[i] == before[i]);
            } else if i < before.len() + body.len() {
                assert(text[i] == body[i - before.len()]);
            }
        }
    }
}

/// The records that were written read back.
pub proof fn lemma_records_from(
    s: Seq<char>,
    filename: Seq<char>,
    pos: int,
    to: int,
    group: Seq<EntryView>,
)
    requires
        0 <= pos <= to <= s.len(),
        s.subrange(pos, to) == records_text(group),
        forall|i: int|
            0 <= i < group.len() ==> (#[trigger] group[i]).filename == filename && plain(
                group[i].object_path,
            ) && plain(group[i].composite_name),
    ensures
        records_from(s, filename, pos, to) == (ParsedView { entries: group, truncated: false }),
    decreases group.len(),
{
    if group.len() == 0 {
        assert(s.subrange(pos, to).len() == 0);
        assert(group =~= Seq::<EntryView>::empty());
    } else {
        let e = group[0];
        let rest = group.subrange(1, group.len() as int);
        assert(group =~= seq![e] + rest);
        lemma_records_text_concat(seq![e], rest);
        lemma_text_of_one(Seq::empty(), e, Seq::empty());
        lemma_record_body_chars(e);
        let body = record_body(e);
        let text = records_text(group);
        assert(text =~= body + seq![',', '|'] + records_text(rest));
        let sep = pos + body.len();
        assert forall|k: int| pos <= k < to implies s[k] == text[k - pos] by {
            assert(s.subrange(pos, to)[k - pos] == s[k]);
        }
        assert(s.subrange(pos, sep) =~= body);
        lemma_record_at(s, filename, pos, e);
        assert forall|k: int| pos <= k < sep implies !((#[trigger] s[k]) == ',' && s[k + 1]
            == '|') by {
            if k + 1 < sep {
                assert(s[k + 1] == body[k + 1 - pos]);
            } else {
                assert(s[k] == body[body.len() - 1]);
            }
        }
        assert(s[sep] == text[body.len() as int]);
        assert(s[sep + 1] == text[body.len() as int + 1]);
        lemma_find_separator_at(s, pos, sep, to);
        assert(s.subrange(sep + 2, to) =~= records_text(rest));
        assert forall|i: int| 0 <= i < rest.len() implies (#[trigger] rest[i]).filename == filename
            && plain(rest[i].object_path) && plain(rest[i].composite_name) by {
            assert(rest[i] == group[i + 1]);
        }
        lemma_records_from(s, filename, sep + 2, to, rest);
        assert(seq![e] + rest =~= group);
    }
}

/// Every entry of the entries in order of offset is one of the entries.
pub proof fn lemma_sorted_elements(entries: Seq<EntryView>)
    ensures
        forall|k: int|
            0 <= k < sorted_by_offset(entries).len() ==> entries.contains(
                #[trigger] sorted_by_offset(entries)[k],
            ),
    decreases entries.len(),
{
    if entries.len() > 0 {
        let shorter = entries.drop_last();
        lemma_sorted_elements(shorter);
        lemma_sorted_by_offset(shorter);
        lemma_insert_by_offset(sorted_by_offset(shorter), entries.last());
        let sorted = sorted_by_offset(entries);
        assert forall|k: int| 0 <= k < sorted.len() implies entries.contains(
            #[trigger] sorted[k],
        ) by {
            if sorted[k] == entries.last() {
                assert(entries[entries.len() - 1] == sorted[k]);
            } else {
                let inner = sorted_by_offset(shorter);
                assert(inner.contains(sorted[k]));
                let at = choose|at: int| 0 <= at < inner.len() && inner[at] == sorted[k];
                assert(shorter.contains(inner[at]));
                let j = choose|j: int| 0 <= j < shorter.len() && shorter[j] == inner[at];
                assert(entries[j] == sorted[k]);
            }
        }
    }
}

/// Every entry of the group of a container is one of the entries.
pub proof fn lemma_group_elements(entries: Seq<EntryView>, name: Seq<char>)
    ensures
        forall|k: int|
            0 <= k < entries_of(entries, name).len() ==> entries.contains(
                #[trigger] entries_of(entries, name)[k],
            ),
    decreases entries.len(),
{
    if entries.len() > 0 {
        let shorter = entries.drop_last();
        lemma_group_elements(shorter, name);
        let group = entries_of(entries, name);
        let before = entries_of(shorter, name);
        assert forall|k: int| 0 <= k < group.len() implies entries.contains(#[trigger] group[k]) by {
            if k < before.len() {
                assert(group[k] == before[k]);
                let j = choose|j: int| 0 <= j < shorter.len() && shorter[j] == before[k];
                assert(entries[j] == group[k]);
            } else {
                assert(entries[entries.len() - 1] == group[k]);
            }
        }
    }
}

/// A block whose name ends at the first `?` and whose records end at the
/// first `!` reads as its records, and reading goes on behind it.
pub proof fn lemma_block_at(s: Seq<char>, cursor: int, q: int, excl: int)
    requires
        0 <= cursor <= q < excl < s.len(),
        forall|k: int| cursor <= k < q ==> s[k] != '?',
        s[q] == '?',
        forall|k: int| q + 1 <= k < excl ==> s[k] != '!',
        s[excl] == '!',
    ensures
        blocks_from(s, cursor) == then_parsed(
            records_from(s, s.subrange(cursor, q), q + 1, excl),
            blocks_from(s, excl + 1),
        ),
{
    lemma_find_char_at(s, '?', cursor, q, s.len() as int);
    lemma_find_char_at(s, '!', q + 1, excl, s.len() as int);
}

/// The characters of a text that is a name, a `?`, records, a `!` and a
/// tail.
pub proof fn lemma_block_layout(name: Seq<char>, records: Seq<char>, tail: Seq<char>)
    ensures
        ({
            let text = name + seq!['?'] + records + seq!['!'] + tail;
            let q = name.len() as int;
            let excl = q + 1 + records.len();
            &&& text.len() == excl + 1 + tail.len()
            &&& text.subrange(0, q) == name
            &&& text[q] == '?'
            &&& text.subrange(q + 1, excl) == records
            &&& text[excl] == '!'
            &&& text.subrange(excl + 1, text.len() as int) == tail
        }),
{
    let text = name + seq!['?'] + records + seq!['!'] + tail;
    let q = name.len() as int;
    let excl = q + 1 + records.len();
    assert(text.subrange(0, q) =~= name);
    assert(text.subrange(q + 1, excl) =~= records);
    assert(text.subrange(excl + 1, text.len() as int) =~= tail);
}

/// The first block that was written reads back, and reading goes on behind
/// it.
pub proof fn lemma_first_block(
    s: Seq<char>,
    cursor: int,
    entries: Seq<EntryView>,
    name: Seq<char>,
    tail: Seq<char>,
)
    requires
        0 <= cursor <= s.len(),
        s.subrange(cursor, s.len() as int) == block_text(entries, name) + tail,
        all_writable(entries),
        plain(name),
        name.len() > 0,
    ensures
        cursor + block_text(entries, name).len() <= s.len(),
        s.subrange(cursor + block_text(entries, name).len(), s.len() as int) == tail,
        blocks_from(s, cursor) == then_parsed(
            ParsedView {
                entries: sorted_by_offset(entries_of(entries, name)),
                truncated: false,
            },
            blocks_from(s, cursor + block_text(entries, name).len()),
        ),
{
    let len = s.len() as int;
    let group = sorted_by_offset(entries_of(entries, name));
    let records = records_text(group);
    let text = name + seq!['?'] + records + seq!['!'] + tail;
    assert(block_text(entries, name) + tail =~= text);
    lemma_block_layout(name, records, tail);
    let q = cursor + name.len();
    let excl = q + 1 + records.len();
    assert(len - cursor == text.len());
    assert forall|k: int| cursor <= k < len implies s[k] == #[trigger] text[k - cursor] by {
        assert(s.subrange(cursor, len)[k - cursor] == s[k]);
    }
    assert(s.subrange(cursor, q) =~= text.subrange(0, name.len() as int));
    assert(s.subrange(q + 1, excl) =~= text.subrange(q + 1 - cursor, excl - cursor));
    assert(s.subrange(excl + 1, len) =~= text.subrange(excl + 1 - cursor, text.len() as int));
    assert forall|k: int| cursor <= k < q implies s[k] != '?' by {
        assert(s[k] == text[k - cursor]);
        assert(text.subrange(0, name.len() as int)[k - cursor] == text[k - cursor]);
        assert(is_plain_char(name[k - cursor]));
    }
    assert(s[q] == text[q - cursor]);
    lemma_group_is_writable(entries, name);
    lemma_records_text_chars(group);
    assert forall|k: int| q + 1 <= k < excl implies s[k] != '!' by {
        assert(s[k] == text[k - cursor]);
        assert(text.subrange(q + 1 - cursor, excl - cursor)[k - q - 1] == text[k - cursor]);
    }
    assert(s[excl] == text[excl - cursor]);
    lemma_block_at(s, cursor, q, excl);
    lemma_records_from(s, name, q + 1, excl, group);
}

/// The entries of the group of a container, in order of offset, are in that
/// container and are writable where all entries are.
pub proof fn lemma_group_is_writable(entries: Seq<EntryView>, name: Seq<char>)
    requires
        all_writable(entries),
    ensures
        forall|i: int|
            0 <= i < sorted_by_offset(entries_of(entries, name)).len() ==> (
            #[trigger] sorted_by_offset(entries_of(entries, name))[i]).filename == name && plain(
                sorted_by_offset(entries_of(entries, name))[i].object_path,
            ) && plain(sorted_by_offset(entries_of(entries, name))[i].composite_name),
{
    let inner = entries_of(entries, name);
    let group = sorted_by_offset(inner);
    lemma_sorted_elements(inner);
    lemma_group_elements(entries, name);
    lemma_group_names(entries, name);
    assert forall|i: int| 0 <= i < group.len() implies (#[trigger] group[i]).filename == name
        && plain(group[i].object_path) && plain(group[i].composite_name) by {
        assert(inner.contains(group[i]));
        let at = choose|at: int| 0 <= at < inner.len() && inner[at] == group[i];
        assert(entries.contains(inner[at]));
        let j = choose|j: int| 0 <= j < entries.len() && entries[j] == inner[at];
        assert(writable(entries[j]));
    }
}

/// The blocks that were written read back.
pub proof fn lemma_blocks_from(
    s: Seq<char>,
    cursor: int,
    entries: Seq<EntryView>,
    names: Seq<Seq<char>>,
)
    requires
        0 <= cursor <= s.len(),
        s.subrange(cursor, s.len() as int) == blocks_text(entries, names),
        all_writable(entries),
        forall|i: int| 0 <= i < names.len() ==> plain(#[trigger] names[i]),
    ensures
        blocks_from(s, cursor) == (ParsedView {
            entries: written_order(entries, names),
            truncated: false,
        }),
    decreases names.len(),
{
    let len = s.len() as int;
    if names.len() == 0 {
        assert(s.subrange(cursor, len).len() == 0);
    } else {
        let name = names[0];
        let rest = names.subrange(1, names.len() as int);
        assert(names =~= seq![name] + rest);
        lemma_blocks_text_concat(entries, seq![name], rest);
        lemma_text_of_one(entries, entries[0], name);
        assert forall|i: int| 0 <= i < rest.len() implies plain(#[trigger] rest[i]) by {
            assert(rest[i] == names[i + 1]);
        }
        if name.len() == 0 {
            assert(block_text(entries, name) =~= Seq::<char>::empty());
            assert(blocks_text(entries, names) =~= blocks_text(entries, rest));
            lemma_blocks_from(s, cursor, entries, rest);
            assert(written_order(entries, names) =~= written_order(entries, rest));
        } else {
            assert(plain(names[0]));
            lemma_first_block(s, cursor, entries, name, blocks_text(entries, rest));
            lemma_blocks_from(s, cursor + block_text(entries, name).len(), entries, rest);
        }
    }
}

/// Every container is the container of some entry.
pub proof fn lemma_container_of_entry(entries: Seq<EntryView>, g: int)
    requires
        0 <= g < containers(entries).len(),
    ensures
        exists|j: int| 0 <= j < entries.len() && (#[trigger] entries[j]).filename == containers(
            entries,
        )[g],
    decreases entries.len(),
{
    if entries.len() > 0 {
        let shorter = entries.drop_last();
        if g < containers(shorter).len() {
            lemma_container_of_entry(shorter, g);
            let j = choose|j: int|
                0 <= j < shorter.len() && (#[trigger] shorter[j]).filename == containers(
                    shorter,
                )[g];
            assert(entries[j].filename == containers(entries)[g]);
        } else {
            assert(entries[entries.len() - 1].filename == containers(entries)[g]);
        }
    }
}

/// The text of a composite map reads back as its entries, block after block
/// in the order in which the containers first occur, each block in ascending
/// offset, entries of equal offset in the order they had; nothing is dropped
/// but the entries of the container without name, and reading does not stop
/// early. This holds of every map whose containers, paths and identifiers
/// hold none of the characters `,`, `|`, `!` and `?`.
pub proof fn lemma_parse_serialized(entries: Seq<EntryView>)
    requires
        all_writable(entries),
    ensures
        parsed(serialized(entries)) == (ParsedView {
            entries: written_order(entries, containers(entries)),
            truncated: false,
        }),
{
    let names = containers(entries);
    let s = serialized(entries);
    assert forall|i: int| 0 <= i < names.len() implies plain(#[trigger] names[i]) by {
        lemma_container_of_entry(entries, i);
        let j = choose|j: int|
            0 <= j < entries.len() && (#[trigger] entries[j]).filename == names[i];
        assert(writable(entries[j]));
    }
    assert(s.subrange(0, s.len() as int) =~= s);
    lemma_blocks_from(s, 0, entries, names);
}


/// Whether no entry of `entries` has the identifier `id`.
pub open spec fn lacks_id(entries: Seq<EntryView>, id: Seq<char>) -> bool {
    forall|i: int| 0 <= i < entries.len() ==> (#[trigger] entries[i]).composite_name != id
}

/// An entry that is put into an ordered run goes to some place of it.
pub proof fn lemma_insert_by_offset_place(sorted: Seq<EntryView>, e: EntryView) -> (at: int)
    ensures
        0 <= at <= sorted.len(),
        insert_by_offset(sorted, e) == sorted.insert(at, e),
    decreases sorted.len(),
{
    if sorted.len() == 0 {
        assert(seq![e] =~= sorted.insert(0, e));
        0
    } else if sorted.last().offset <= e.offset {
        assert(sorted.push(e) =~= sorted.insert(sorted.len() as int, e));
        sorted.len() as int
    } else {
        let at = lemma_insert_by_offset_place(sorted.drop_last(), e);
        assert(sorted.drop_last().insert(at, e).push(sorted.last()) =~= sorted.insert(at, e));
        at
    }
}

/// The entries in order of offset have distinct identifiers where the
/// entries have.
pub proof fn lemma_sorted_unique(entries: Seq<EntryView>)
    requires
        unique_ids(entries),
    ensures
        unique_ids(sorted_by_offset(entries)),
    decreases entries.len(),
{
    if entries.len() > 0 {
        let shorter = entries.drop_last();
        let e = entries.last();
        assert(unique_ids(shorter)) by {
            assert forall|i: int, j: int|
                0 <= i < shorter.len() && 0 <= j < shorter.len() && i != j implies (
            #[trigger] shorter[i]).composite_name != (#[trigger] shorter[j]).composite_name by {
                assert(shorter[i] == entries[i] && shorter[j] == entries[j]);
            }
        }
        lemma_sorted_unique(shorter);
        lemma_sorted_elements(shorter);
        let inner = sorted_by_offset(shorter);
        assert(lacks_id(inner, e.composite_name)) by {
            assert forall|i: int| 0 <= i < inner.len() implies (#[trigger] inner[i]).composite_name
                != e.composite_name by {
                assert(shorter.contains(inner[i]));
                let j = choose|j: int| 0 <= j < shorter.len() && shorter[j] == inner[i];
                assert(entries[j].composite_name != entries[entries.len() - 1].composite_name);
            }
        }
        let at = lemma_insert_by_offset_place(inner, e);
        let after = inner.insert(at, e);
        assert forall|i: int, j: int|
            0 <= i < after.len() && 0 <= j < after.len() && i != j implies (
        #[trigger] after[i]).composite_name != (#[trigger] after[j]).composite_name by {
            let i0 = if i < at { i } else { i - 1 };
            let j0 = if j < at { j } else { j - 1 };
            if i != at {
                assert(after[i] == inner[i0]);
            }
            if j != at {
                assert(after[j] == inner[j0]);
            }
        }
    }
}

/// The group of a container has distinct identifiers where the entries
/// have.
pub proof fn lemma_group_unique(entries: Seq<EntryView>, name: Seq<char>)
    requires
        unique_ids(entries),
    ensures
        unique_ids(entries_of(entries, name)),
    decreases entries.len(),
{
    if entries.len() > 0 {
        let shorter = entries.drop_last();
        let e = entries.last();
        assert(unique_ids(shorter)) by {
            assert forall|i: int, j: int|
                0 <= i < shorter.len() && 0 <= j < shorter.len() && i != j implies (
            #[trigger] shorter[i]).composite_name != (#[trigger] shorter[j]).composite_name by {
                assert(shorter[i] == entries[i] && shorter[j] == entries[j]);
            }
        }
        lemma_group_unique(shorter, name);
        lemma_group_elements(shorter, name);
        let before = entries_of(shorter, name);
        let group = entries_of(entries, name);
        assert forall|i: int, j: int|
            0 <= i < group.len() && 0 <= j < group.len() && i != j implies (
        #[trigger] group[i]).composite_name != (#[trigger] group[j]).composite_name by {
            if i < before.len() {
                assert(group[i] == before[i]);
                let k = choose|k: int| 0 <= k < shorter.len() && shorter[k] == before[i];
                assert(entries[k] == group[i]);
            }
            if j < before.len() {
                assert(group[j] == before[j]);
                let k = choose|k: int| 0 <= k < shorter.len() && shorter[k] == before[j];
                assert(entries[k] == group[j]);
            }
            if i >= before.len() {
                assert(group[i] == entries[entries.len() - 1]);
            }
            if j >= before.len() {
                assert(group[j] == entries[entries.len() - 1]);
            }
        }
    }
}

/// Every entry in written order is one of the entries, and its container is
/// one of the containers that are written.
pub proof fn lemma_written_elements(entries: Seq<EntryView>, names: Seq<Seq<char>>)
    ensures
        forall|k: int|
            0 <= k < written_order(entries, names).len() ==> entries.contains(
                #[trigger] written_order(entries, names)[k],
            ) && names.contains(written_order(entries, names)[k].filename),
    decreases names.len(),
{
    if names.len() > 0 {
        let name = names.last();
        let rest = names.drop_last();
        lemma_written_elements(entries, rest);
        let before = written_order(entries, rest);
        let inner = entries_of(entries, name);
        let group = sorted_by_offset(inner);
        lemma_sorted_elements(inner);
        lemma_group_elements(entries, name);
        lemma_group_names(entries, name);
        let all = written_order(entries, names);
        assert forall|k: int| 0 <= k < all.len() implies entries.contains(#[trigger] all[k])
            && names.contains(all[k].filename) by {
            if k < before.len() {
                assert(all[k] == before[k]);
                let g = choose|g: int| 0 <= g < rest.len() && rest[g] == before[k].filename;
                assert(names[g] == all[k].filename);
            } else {
                assert(all[k] == group[k - before.len()]);
                assert(inner.contains(group[k - before.len()]));
                let at = choose|at: int| 0 <= at < inner.len() && inner[at] == all[k];
                assert(entries.contains(inner[at]));
                assert(names[names.len() - 1] == all[k].filename);
            }
        }
    }
}

/// The entries in written order have distinct identifiers where the entries
/// have and no container is written twice.
pub proof fn lemma_written_unique(entries: Seq<EntryView>, names: Seq<Seq<char>>)
    requires
        unique_ids(entries),
        names.no_duplicates(),
    ensures
        unique_ids(written_order(entries, names)),
    decreases names.len(),
{
    if names.len() > 0 {
        let name = names.last();
        let rest = names.drop_last();
        assert(rest.no_duplicates()) by {
            assert forall|i: int, j: int|
                0 <= i < rest.len() && 0 <= j < rest.len() && i != j implies rest[i] != rest[j] by {
                assert(rest[i] == names[i] && rest[j] == names[j]);
            }
        }
        lemma_written_unique(entries, rest);
        lemma_written_elements(entries, rest);
        let before = written_order(entries, rest);
        let inner = entries_of(entries, name);
        let group = if name.len() == 0 {
            Seq::<EntryView>::empty()
        } else {
            sorted_by_offset(inner)
        };
        lemma_group_unique(entries, name);
        lemma_sorted_unique(inner);
        lemma_sorted_elements(inner);
        lemma_group_elements(entries, name);
        lemma_group_names(entries, name);
        let all = written_order(entries, names);
        assert(all =~= before + group);
        assert forall|i: int, j: int|
            0 <= i < all.len() && 0 <= j < all.len() && i != j implies (
        #[trigger] all[i]).composite_name != (#[trigger] all[j]).composite_name by {
            if i < before.len() && j < before.len() {
                assert(all[i] == before[i] && all[j] == before[j]);
            } else if i >= before.len() && j >= before.len() {
                assert(all[i] == group[i - before.len()] && all[j] == group[j - before.len()]);
            } else {
                let old_one = if i < before.len() { i } else { j };
                let new_one = if i < before.len() { j } else { i };
                let a = all[old_one];
                let b = all[new_one];
                assert(a == before[old_one]);
                assert(b == group[new_one - before.len()]);
                assert(inner.contains(b));
                let at = choose|at: int| 0 <= at < inner.len() && inner[at] == b;
                assert(b.filename == name);
                assert(entries.contains(inner[at]));
                let g = choose|g: int| 0 <= g < rest.len() && rest[g] == a.filename;
                assert(names[g] == a.filename);
                assert(names[names.len() - 1] == name);
                assert(a.filename != b.filename);
                let x = choose|x: int| 0 <= x < entries.len() && entries[x] == a;
                let y = choose|y: int| 0 <= y < entries.len() && entries[y] == b;
                assert(x != y);
            }
        }
    } else {
        assert(written_order(entries, names) =~= Seq::<EntryView>::empty());
    }
}

/// A map that is written to a file and read from it again holds its entries
/// in written order. For every map of distinct identifiers whose containers,
/// paths and identifiers are plain, the bytes of its file decrypt to text
/// that is well-formed UTF-8 and reads as the entries in written order.
pub proof fn lemma_saved_map_reads_back(entries: Seq<EntryView>)
    requires
        all_writable(entries),
        unique_ids(entries),
    ensures
        vstd::utf8::valid_utf8(
            crate::cipher::decrypted(map_file_bytes(entries)),
        ),
        upserted_all(
            Seq::empty(),
            parsed(
                vstd::utf8::decode_utf8(
                    crate::cipher::decrypted(map_file_bytes(entries)),
                ),
            ).entries,
        ) == written_order(entries, containers(entries)),
{
    crate::cipher::lemma_text_round_trip(serialized(entries));
    lemma_parse_serialized(entries);
    crate::serializer::lemma_containers_complete(entries);
    lemma_written_unique(entries, containers(entries));
    crate::composite_mapper::lemma_upserted_all_of_unique(
        written_order(entries, containers(entries)),
    );
}

} // verus!
