//! Writing a composite map as text.
//!
//! The entries are grouped by container. The groups stand in the order in
//! which their containers first occur among the entries, each group is
//! ordered by offset, entries of equal offset keeping their order, and a group
//! whose container has the empty name is left out.

use crate::composite_mapper::CompositeMapperFile;
use crate::entry::{CompositeEntry, EntryView};
use crate::entry_map::{
    entry_map_get_index, entry_map_len, map_pairs, slot_map_get, slot_map_insert, slot_map_new,
    slot_pairs,
};
use crate::text::push_char;
use indexmap::IndexMap;
use vstd::prelude::*;
use vstd::string::StringExecFns;

verus! {

/// The values of the pairs of a map, in its order.
pub open spec fn pair_values(pairs: Seq<(Seq<char>, EntryView)>) -> Seq<EntryView> {
    pairs.map_values(|p: (Seq<char>, EntryView)| p.1)
}

/// The values of a sequence of borrowed entries.
pub open spec fn ref_views(entries: Seq<&CompositeEntry>) -> Seq<EntryView> {
    entries.map_values(|e: &CompositeEntry| e@)
}

/// The containers of `entries`, each once, in the order of first occurrence.
pub open spec fn containers(entries: Seq<EntryView>) -> Seq<Seq<char>>
    decreases entries.len(),
{
    if entries.len() == 0 {
        Seq::empty()
    } else {
        let before = containers(entries.drop_last());
        if before.contains(entries.last().filename) {
            before
        } else {
            before.push(entries.last().filename)
        }
    }
}

/// The entries of the container `name`, in their order.
pub open spec fn entries_of(entries: Seq<EntryView>, name: Seq<char>) -> Seq<EntryView>
    decreases entries.len(),
{
    if entries.len() == 0 {
        Seq::empty()
    } else {
        let before = entries_of(entries.drop_last(), name);
        if entries.last().filename == name {
            before.push(entries.last())
        } else {
            before
        }
    }
}

/// `sorted` with `e` put behind the last entry whose offset is not greater.
pub open spec fn insert_by_offset(sorted: Seq<EntryView>, e: EntryView) -> Seq<EntryView>
    decreases sorted.len(),
{
    if sorted.len() == 0 {
        seq![e]
    } else if sorted.last().offset <= e.offset {
        sorted.push(e)
    } else {
        insert_by_offset(sorted.drop_last(), e).push(sorted.last())
    }
}

/// `entries` in ascending order of offset, entries of equal offset in the
/// order they had.
pub open spec fn sorted_by_offset(entries: Seq<EntryView>) -> Seq<EntryView>
    decreases entries.len(),
{
    if entries.len() == 0 {
        Seq::empty()
    } else {
        insert_by_offset(sorted_by_offset(entries.drop_last()), entries.last())
    }
}

/// The character of the decimal digit `d`.
pub open spec fn digit_char(d: int) -> char {
    ((48 + d) as u8) as char
}

/// `n` in decimal digits, without leading zeros.
pub open spec fn decimal_text(n: nat) -> Seq<char>
    decreases n,
{
    if n < 10 {
        seq![digit_char(n as int)]
    } else {
        decimal_text(n / 10).push(digit_char((n % 10) as int))
    }
}

/// The text of one record.
pub open spec fn record_text(e: EntryView) -> Seq<char> {
    e.object_path + seq![','] + e.composite_name + seq![','] + decimal_text(e.offset as nat)
        + seq![','] + decimal_text(e.size as nat) + seq![',', '|']
}

/// The text of the records `entries`, one behind the other.
pub open spec fn records_text(entries: Seq<EntryView>) -> Seq<char>
    decreases entries.len(),
{
    if entries.len() == 0 {
        Seq::empty()
    } else {
        records_text(entries.drop_last()) + record_text(entries.last())
    }
}

/// The text of the block of the container `name`; nothing for the empty name.
pub open spec fn block_text(entries: Seq<EntryView>, name: Seq<char>) -> Seq<char> {
    if name.len() == 0 {
        Seq::empty()
    } else {
        name + seq!['?'] + records_text(sorted_by_offset(entries_of(entries, name))) + seq!['!']
    }
}

/// The text of the blocks of the containers `names`, one behind the other.
pub open spec fn blocks_text(entries: Seq<EntryView>, names: Seq<Seq<char>>) -> Seq<char>
    decreases names.len(),
{
    if names.len() == 0 {
        Seq::empty()
    } else {
        blocks_text(entries, names.drop_last()) + block_text(entries, names.last())
    }
}

/// The text of a composite map that holds `entries`.
pub open spec fn serialized(entries: Seq<EntryView>) -> Seq<char> {
    blocks_text(entries, containers(entries))
}

/// The container of every entry is among the containers, and no container is
/// listed twice.
pub proof fn lemma_containers_complete(entries: Seq<EntryView>)
    ensures
        forall|j: int|
            0 <= j < entries.len() ==> containers(entries).contains((#[trigger] entries[j]).filename),
        containers(entries).no_duplicates(),
    decreases entries.len(),
{
    if entries.len() > 0 {
        let shorter = entries.drop_last();
        let before = containers(shorter);
        let name = entries.last().filename;
        lemma_containers_complete(shorter);
        let all = containers(entries);
        assert forall|j: int| 0 <= j < entries.len() implies all.contains(
            (#[trigger] entries[j]).filename,
        ) by {
            if j < shorter.len() {
                assert(shorter[j] == entries[j]);
                let g = choose|g: int| 0 <= g < before.len() && before[g] == shorter[j].filename;
                assert(all[g] == entries[j].filename);
            } else if before.contains(name) {
            } else {
                assert(all[before.len() as int] == name);
            }
        }
    }
}

/// Where no entry is in the container `name`, its group is empty.
pub proof fn lemma_entries_of_absent(entries: Seq<EntryView>, name: Seq<char>)
    requires
        !containers(entries).contains(name),
    ensures
        entries_of(entries, name) == Seq::<EntryView>::empty(),
    decreases entries.len(),
{
    if entries.len() > 0 {
        lemma_containers_complete(entries);
        let shorter = entries.drop_last();
        assert(entries[entries.len() - 1].filename != name);
        assert(!containers(shorter).contains(name)) by {
            if containers(shorter).contains(name) {
                let g = choose|g: int|
                    0 <= g < containers(shorter).len() && containers(shorter)[g] == name;
                assert(containers(entries)[g] == name);
            }
        }
        lemma_entries_of_absent(shorter, name);
    }
}

/// Every entry of the group of `name` is in the container `name`, and the
/// group of a container that some entry is in holds an entry.
pub proof fn lemma_group_names(entries: Seq<EntryView>, name: Seq<char>)
    ensures
        forall|j: int|
            0 <= j < entries_of(entries, name).len() ==> (#[trigger] entries_of(
                entries,
                name,
            )[j]).filename == name,
        containers(entries).contains(name) ==> entries_of(entries, name).len() > 0,
    decreases entries.len(),
{
    if entries.len() > 0 {
        let shorter = entries.drop_last();
        lemma_group_names(shorter, name);
        let before = entries_of(shorter, name);
        let group = entries_of(entries, name);
        assert forall|j: int| 0 <= j < group.len() implies (#[trigger] group[j]).filename
            == name by {
            if j < before.len() {
                assert(group[j] == before[j]);
            }
        }
        if containers(entries).contains(name) && entries.last().filename != name {
            let g = choose|g: int| 0 <= g < containers(entries).len() && containers(entries)[g] == name;
            assert(containers(shorter)[g] == name);
        }
    }
}

/// Whether the offsets of `entries` never fall.
pub open spec fn ordered_by_offset(entries: Seq<EntryView>) -> bool {
    forall|i: int, j: int|
        0 <= i < j < entries.len() ==> (#[trigger] entries[i]).offset <= (
        #[trigger] entries[j]).offset
}

/// Putting an entry into an ordered run keeps the run ordered and adds that
/// entry and no other.
pub proof fn lemma_insert_by_offset(sorted: Seq<EntryView>, e: EntryView)
    requires
        ordered_by_offset(sorted),
    ensures
        ordered_by_offset(insert_by_offset(sorted, e)),
        insert_by_offset(sorted, e).len() == sorted.len() + 1,
        insert_by_offset(sorted, e).to_multiset() == sorted.to_multiset().insert(e),
        forall|k: int|
            0 <= k < insert_by_offset(sorted, e).len() ==> (#[trigger] insert_by_offset(
                sorted,
                e,
            )[k]) == e || sorted.contains(insert_by_offset(sorted, e)[k]),
    decreases sorted.len(),
{
    broadcast use vstd::seq_lib::group_to_multiset_ensures;

    let after = insert_by_offset(sorted, e);
    if sorted.len() == 0 {
        assert(after =~= sorted.push(e));
    } else if sorted.last().offset <= e.offset {
        assert forall|k: int| 0 <= k < after.len() implies (#[trigger] after[k]) == e
            || sorted.contains(after[k]) by {
            if k < sorted.len() {
                assert(after[k] == sorted[k]);
            }
        }
    } else {
        let shorter = sorted.drop_last();
        let inner = insert_by_offset(shorter, e);
        assert(ordered_by_offset(shorter)) by {
            assert forall|i: int, j: int| 0 <= i < j < shorter.len() implies (
            #[trigger] shorter[i]).offset <= (#[trigger] shorter[j]).offset by {
                assert(shorter[i] == sorted[i] && shorter[j] == sorted[j]);
            }
        }
        lemma_insert_by_offset(shorter, e);
        assert(sorted =~= shorter.push(sorted.last()));
        assert forall|i: int, j: int| 0 <= i < j < after.len() implies (
        #[trigger] after[i]).offset <= (#[trigger] after[j]).offset by {
            if j < inner.len() {
                assert(after[i] == inner[i] && after[j] == inner[j]);
            } else {
                assert(after[i] == inner[i]);
                if inner[i] != e {
                    let at = choose|at: int| 0 <= at < shorter.len() && shorter[at] == inner[i];
                    assert(sorted[at] == inner[i]);
                }
            }
        }
        assert forall|k: int| 0 <= k < after.len() implies (#[trigger] after[k]) == e
            || sorted.contains(after[k]) by {
            if k < inner.len() {
                assert(after[k] == inner[k]);
                if inner[k] != e {
                    let at = choose|at: int| 0 <= at < shorter.len() && shorter[at] == inner[k];
                    assert(sorted[at] == inner[k]);
                }
            } else {
                assert(after[k] == sorted[sorted.len() - 1]);
            }
        }
        assert(after.to_multiset() =~= sorted.to_multiset().insert(e));
    }
}

/// The entries in order of offset are the same entries, as often, and their
/// offsets never fall.
pub proof fn lemma_sorted_by_offset(entries: Seq<EntryView>)
    ensures
        ordered_by_offset(sorted_by_offset(entries)),
        sorted_by_offset(entries).len() == entries.len(),
        sorted_by_offset(entries).to_multiset() == entries.to_multiset(),
    decreases entries.len(),
{
    broadcast use vstd::seq_lib::group_to_multiset_ensures;

    if entries.len() > 0 {
        let shorter = entries.drop_last();
        lemma_sorted_by_offset(shorter);
        lemma_insert_by_offset(sorted_by_offset(shorter), entries.last());
        assert(entries =~= shorter.push(entries.last()));
    } else {
        assert(sorted_by_offset(entries) =~= entries);
    }
}

/// Where `e` goes when it is put into a run ordered by offset.
pub proof fn lemma_insert_position(sorted: Seq<EntryView>, e: EntryView, at: int)
    requires
        0 <= at <= sorted.len(),
        forall|j: int| at <= j < sorted.len() ==> (#[trigger] sorted[j]).offset > e.offset,
        at == 0 || sorted[at - 1].offset <= e.offset,
    ensures
        insert_by_offset(sorted, e) == sorted.insert(at, e),
    decreases sorted.len() - at,
{
    if at == sorted.len() {
        assert(sorted.push(e) =~= sorted.insert(at, e));
    } else {
        let shorter = sorted.drop_last();
        assert(sorted[sorted.len() - 1].offset > e.offset);
        assert forall|j: int| at <= j < shorter.len() implies (#[trigger] shorter[j]).offset
            > e.offset by {
            assert(shorter[j] == sorted[j]);
        }
        lemma_insert_position(shorter, e, at);
        assert(shorter.insert(at, e).push(sorted.last()) =~= sorted.insert(at, e));
    }
}


/// Appends `n` in decimal digits to `out`.
fn push_decimal(out: &mut String, n: usize)
    ensures
        final(out)@ == old(out)@ + decimal_text(n as nat),
{
    let mut low_first: Vec<char> = Vec::new();
    let ghost mut tail: Seq<char> = Seq::empty();
    let mut m: usize = n;
    while m >= 10
        invariant
            decimal_text(n as nat) == decimal_text(m as nat) + tail,
            low_first.len() == tail.len(),
            forall|k: int| 0 <= k < tail.len() ==> low_first[k] == tail[tail.len() - 1 - k],
        decreases m,
    {
        let digit = digit_to_char(m % 10);
        proof {
            let longer = seq![digit] + tail;
            assert(decimal_text(m as nat) == decimal_text((m / 10) as nat).push(digit));
            assert(decimal_text((m / 10) as nat).push(digit) + tail =~= decimal_text(
                (m / 10) as nat,
            ) + longer);
            tail = longer;
        }
        low_first.push(digit);
        m = m / 10;
    }
    push_char(out, digit_to_char(m));
    let mut k: usize = low_first.len();
    while k > 0
        invariant
            k <= low_first.len(),
            low_first.len() == tail.len(),
            forall|j: int| 0 <= j < tail.len() ==> low_first[j] == tail[tail.len() - 1 - j],
            out@ == old(out)@ + decimal_text(m as nat) + tail.take(tail.len() - k),
            decimal_text(n as nat) == decimal_text(m as nat) + tail,
            m < 10,
        decreases k,
    {
        k -= 1;
        push_char(out, low_first[k]);
        assert(tail.take(tail.len() - k) =~= tail.take(tail.len() - (k + 1)).push(
            tail[tail.len() - 1 - k],
        ));
    }
    assert(tail.take(tail.len() as int) =~= tail);
    assert(old(out)@ + decimal_text(m as nat) + tail =~= old(out)@ + (decimal_text(m as nat)
        + tail));
}

fn digit_to_char(d: usize) -> (c: char)
    requires
        d < 10,
    ensures
        c == digit_char(d as int),
{
    (48u8 + d as u8) as char
}

/// Appends the text of one record to `out`.
fn push_record(out: &mut String, e: &CompositeEntry)
    ensures
        final(out)@ == old(out)@ + record_text(e@),
{
    out.append(e.object_path.as_str());
    push_char(out, ',');
    out.append(e.composite_name.as_str());
    push_char(out, ',');
    push_decimal(out, e.offset);
    push_char(out, ',');
    push_decimal(out, e.size);
    push_char(out, ',');
    push_char(out, '|');
    assert(out@ =~= old(out)@ + record_text(e@));
}

/// The entries of `group` in ascending order of offset, entries of equal
/// offset in the order they had.
fn sort_group<'a>(group: &Vec<&'a CompositeEntry>) -> (sorted: Vec<&'a CompositeEntry>)
    ensures
        ref_views(sorted@) == sorted_by_offset(ref_views(group@)),
{
    let mut sorted: Vec<&'a CompositeEntry> = Vec::new();
    let mut k: usize = 0;
    assert(ref_views(group@.take(0)) =~= Seq::<EntryView>::empty());
    assert(ref_views(sorted@) =~= Seq::<EntryView>::empty());
    while k < group.len()
        invariant
            k <= group.len(),
            ref_views(sorted@) == sorted_by_offset(ref_views(group@.take(k as int))),
        decreases group.len() - k,
    {
        let e = group[k];
        let mut at: usize = sorted.len();
        while at > 0 && sorted[at - 1].offset > e.offset
            invariant
                at <= sorted.len(),
                forall|j: int| at <= j < sorted.len() ==> sorted[j].offset > e.offset,
            decreases at,
        {
            at -= 1;
        }
        proof {
            let views = ref_views(sorted@);
            assert forall|j: int| at <= j < views.len() implies (#[trigger] views[j]).offset
                > e@.offset by {
                assert(views[j] == sorted[j]@);
            }
            if at > 0 {
                assert(views[at - 1] == sorted[at - 1]@);
            }
            lemma_insert_position(views, e@, at as int);
            assert(ref_views(sorted@.insert(at as int, e)) =~= views.insert(at as int, e@));
            assert(ref_views(group@.take(k + 1)).drop_last() =~= ref_views(group@.take(k as int)));
            assert(ref_views(group@.take(k + 1)).last() == e@);
        }
        sorted.insert(at, e);
        k += 1;
    }
    assert(group@.take(group.len() as int) =~= group@);
    sorted
}


/// The entries of `map`, grouped by container: one group for each container,
/// in the order of first occurrence, each with its entries in their order.
fn group_by_container<'a>(map: &'a IndexMap<String, CompositeEntry>) -> (groups: Vec<
    Vec<&'a CompositeEntry>,
>)
    ensures
        groups.len() == containers(pair_values(map_pairs(*map))).len(),
        forall|g: int|
            0 <= g < groups.len() ==> ref_views((#[trigger] groups[g])@) == entries_of(
                pair_values(map_pairs(*map)),
                containers(pair_values(map_pairs(*map)))[g],
            ),
{
    let ghost all = pair_values(map_pairs(*map));
    let n = entry_map_len(map);
    let mut slots = slot_map_new();
    let mut groups: Vec<Vec<&'a CompositeEntry>> = Vec::new();
    let mut i: usize = 0;
    while i < n
        invariant
            i <= n,
            n == map_pairs(*map).len(),
            all == pair_values(map_pairs(*map)),
            groups.len() == containers(all.take(i as int)).len(),
            slot_pairs(slots).len() == groups.len(),
            forall|g: int|
                0 <= g < groups.len() ==> #[trigger] slot_pairs(slots)[g] == (
                    containers(all.take(i as int))[g],
                    g as usize,
                ),
            forall|g: int|
                0 <= g < groups.len() ==> ref_views((#[trigger] groups[g])@) == entries_of(
                    all.take(i as int),
                    containers(all.take(i as int))[g],
                ),
        decreases n - i,
    {
        let ghost seen = all.take(i as int);
        let ghost next = all.take(i + 1);
        let ghost names = containers(seen);
        proof {
            assert(next.drop_last() =~= seen);
            assert(next.last() == all[i as int]);
            lemma_containers_complete(seen);
        }
        match entry_map_get_index(map, i) {
            None => {},
            Some(pair) => {
                let e: &'a CompositeEntry = pair.1;
                assert(e@ == all[i as int]);
                let ghost name = e@.filename;
                match slot_map_get(&slots, e.filename.as_str()) {
                    Some(g) => {
                        proof {
                            let at = choose|at: int|
                                0 <= at < slot_pairs(slots).len() && #[trigger] slot_pairs(
                                    slots,
                                )[at] == (name, g);
                            assert(at == g && names[at] == name);
                            assert(names.contains(name));
                            assert(containers(next) == names);
                            assert forall|h: int| 0 <= h < groups.len() && h != g implies entries_of(
                                next,
                                names[h],
                            ) == entries_of(seen, names[h]) by {
                                assert(names[h] != names[g as int]);
                            }
                            assert(ref_views(groups[g as int]@.push(e)) =~= ref_views(
                                groups[g as int]@,
                            ).push(e@));
                        }
                        let ghost others = groups@;
                        let mut group = groups.remove(g);
                        group.push(e);
                        let ghost grown = group@;
                        groups.insert(g, group);
                        assert(groups@.len() == others.len());
                        assert(groups[g as int]@ == grown);
                        assert forall|h: int| 0 <= h < groups.len() && h != g implies groups[h]
                            == others[h] by {}
                    },
                    None => {
                        proof {
                            assert(!names.contains(name)) by {
                                if names.contains(name) {
                                    let at = choose|at: int|
                                        0 <= at < names.len() && names[at] == name;
                                    assert(slot_pairs(slots)[at].0 == name);
                                }
                            }
                            assert(containers(next) == names.push(name));
                            lemma_entries_of_absent(seen, name);
                            assert forall|h: int| 0 <= h < groups.len() implies entries_of(
                                next,
                                names[h],
                            ) == entries_of(seen, names[h]) by {
                                assert(names[h] != name);
                            }
                            assert(ref_views(seq![e]) =~= Seq::<EntryView>::empty().push(e@));
                        }
                        let slot = groups.len();
                        slot_map_insert(&mut slots, e.filename.clone(), slot);
                        let mut group: Vec<&'a CompositeEntry> = Vec::new();
                        group.push(e);
                        groups.push(group);
                    },
                }
            },
        }
        i += 1;
    }
    assert(all.take(n as int) =~= all);
    groups
}

impl CompositeMapperFile {
    /// Writes the composite map `composite_map` as text into `output`, whose
    /// former content is dropped.
    pub fn serialize_composite_map_to_string(
        composite_map: &IndexMap<String, CompositeEntry>,
        output: &mut String,
        _source_size: usize,
    )
        ensures
            final(output)@ == serialized(pair_values(map_pairs(*composite_map))),
    {
        *output = String::new();
        let ghost all = pair_values(map_pairs(*composite_map));
        let groups = group_by_container(composite_map);
        let mut g: usize = 0;
        while g < groups.len()
            invariant
                g <= groups.len(),
                all == pair_values(map_pairs(*composite_map)),
                groups.len() == containers(all).len(),
                forall|h: int|
                    0 <= h < groups.len() ==> ref_views((#[trigger] groups[h])@) == entries_of(
                        all,
                        containers(all)[h],
                    ),
                output@ == blocks_text(all, containers(all).take(g as int)),
            decreases groups.len() - g,
        {
            let ghost name = containers(all)[g as int];
            proof {
                assert(containers(all).take(g + 1).drop_last() =~= containers(all).take(g as int));
                assert(containers(all).take(g + 1).last() == name);
                lemma_group_names(all, name);
            }
            let group = &groups[g];
            assert(ref_views(group@) == entries_of(all, name));
            if group.len() > 0 {
                let first: &CompositeEntry = group[0];
                assert(ref_views(group@)[0] == first@);
                if !first.filename.as_str().is_empty() {
                    let ghost before = output@;
                    let sorted = sort_group(group);
                    output.append(first.filename.as_str());
                    push_char(output, '?');
                    let mut k: usize = 0;
                    while k < sorted.len()
                        invariant
                            k <= sorted.len(),
                            output@ == before + name + seq!['?'] + records_text(
                                ref_views(sorted@).take(k as int),
                            ),
                        decreases sorted.len() - k,
                    {
                        proof {
                            let views = ref_views(sorted@);
                            assert(views.take(k + 1).drop_last() =~= views.take(k as int));
                            assert(views.take(k + 1).last() == sorted[k as int]@);
                        }
                        push_record(output, sorted[k]);
                        k += 1;
                    }
                    push_char(output, '!');
                    proof {
                        let views = ref_views(sorted@);
                        assert(views.take(sorted.len() as int) =~= views);
                        assert(output@ =~= before + block_text(all, name));
                    }
                }
            }
            g += 1;
        }
        assert(containers(all).take(groups.len() as int) =~= containers(all));
    }
}

} // verus!
