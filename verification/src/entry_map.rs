//! The insertion-ordered map that holds the records of a composite map.
//!
//! The map is `indexmap::IndexMap`. Verus does not look inside it: what it
//! holds is named by [`map_pairs`], and every method that the library calls
//! has a wrapper here whose contract is taken from the crate's documentation
//! and is not proved.

use crate::entry::{CompositeEntry, EntryView};
use indexmap::IndexMap;
use vstd::prelude::*;

verus! {

/// Makes `indexmap::IndexMap` known to Verus, as a type that it cannot look
/// into.
#[verifier::external_type_specification]
#[verifier::external_body]
#[verifier::reject_recursive_types(K)]
#[verifier::reject_recursive_types(V)]
#[verifier::reject_recursive_types(S)]
pub struct ExIndexMap<K, V, S>(IndexMap<K, V, S>);

/// The key-value pairs that `map` holds, in its order.
pub uninterp spec fn map_pairs(map: IndexMap<String, CompositeEntry>) -> Seq<(Seq<char>, EntryView)>;

/// Whether some pair of `pairs` has the key `key`.
pub open spec fn has_key(pairs: Seq<(Seq<char>, EntryView)>, key: Seq<char>) -> bool {
    exists|i: int| 0 <= i < pairs.len() && (#[trigger] pairs[i]).0 == key
}

/// `IndexMap::new`: a map that holds nothing.
#[verifier::external_body]
pub(crate) fn entry_map_new() -> (map: IndexMap<String, CompositeEntry>)
    ensures
        map_pairs(map) == Seq::<(Seq<char>, EntryView)>::empty(),
{
    IndexMap::new()
}

/// `IndexMap::len`: the number of pairs.
#[verifier::external_body]
pub(crate) fn entry_map_len(map: &IndexMap<String, CompositeEntry>) -> (len: usize)
    ensures
        len == map_pairs(*map).len(),
{
    map.len()
}

/// `IndexMap::get_index`: the pair at position `index` of the order, and
/// nothing from the length on.
#[verifier::external_body]
pub(crate) fn entry_map_get_index(map: &IndexMap<String, CompositeEntry>, index: usize) -> (pair:
    Option<(&String, &CompositeEntry)>)
    ensures
        match pair {
            Some(p) => index < map_pairs(*map).len() && (p.0@, p.1@) == map_pairs(*map)[index as int],
            None => index >= map_pairs(*map).len(),
        },
{
    map.get_index(index)
}

/// `IndexMap::get_index_of`: the position of the pair with the key `key`, and
/// nothing where no pair has that key.
#[verifier::external_body]
pub(crate) fn entry_map_get_index_of(map: &IndexMap<String, CompositeEntry>, key: &str) -> (index:
    Option<usize>)
    ensures
        match index {
            Some(i) => i < map_pairs(*map).len() && map_pairs(*map)[i as int].0 == key@,
            None => !has_key(map_pairs(*map), key@),
        },
{
    map.get_index_of(key)
}

/// `IndexMap::insert`: where a pair has the key, it keeps its place and takes
/// the new value; otherwise the new pair goes to the end.
#[verifier::external_body]
pub(crate) fn entry_map_insert(
    map: &mut IndexMap<String, CompositeEntry>,
    key: String,
    value: CompositeEntry,
)
    ensures
        forall|i: int|
            0 <= i < map_pairs(*old(map)).len() && (#[trigger] map_pairs(*old(map))[i]).0 == key@
                ==> map_pairs(*final(map)) == map_pairs(*old(map)).update(i, (key@, value@)),
        !has_key(map_pairs(*old(map)), key@) ==> map_pairs(*final(map)) == map_pairs(
            *old(map),
        ).push((key@, value@)),
{
    map.insert(key, value);
}

/// `IndexMap::shift_remove`: the pair with the key leaves and the pairs behind
/// it move up, in their order; the result tells whether a pair left.
#[verifier::external_body]
pub(crate) fn entry_map_shift_remove(map: &mut IndexMap<String, CompositeEntry>, key: &str) -> (removed:
    bool)
    ensures
        forall|i: int|
            0 <= i < map_pairs(*old(map)).len() && (#[trigger] map_pairs(*old(map))[i]).0 == key@
                ==> map_pairs(*final(map)) == map_pairs(*old(map)).remove(i),
        removed == has_key(map_pairs(*old(map)), key@),
        !removed ==> map_pairs(*final(map)) == map_pairs(*old(map)),
{
    map.shift_remove(key).is_some()
}

/// `IndexMap::clear`: the map holds nothing afterwards.
#[verifier::external_body]
pub(crate) fn entry_map_clear(map: &mut IndexMap<String, CompositeEntry>)
    ensures
        map_pairs(*final(map)) == Seq::<(Seq<char>, EntryView)>::empty(),
{
    map.clear();
}


/// The key-value pairs that a map from container names to group numbers
/// holds, in its order.
pub uninterp spec fn slot_pairs(map: IndexMap<String, usize>) -> Seq<(Seq<char>, usize)>;

/// Whether some pair of `pairs` has the key `key`.
pub open spec fn has_slot(pairs: Seq<(Seq<char>, usize)>, key: Seq<char>) -> bool {
    exists|i: int| 0 <= i < pairs.len() && (#[trigger] pairs[i]).0 == key
}

/// `IndexMap::new`: a map that holds nothing.
#[verifier::external_body]
pub(crate) fn slot_map_new() -> (map: IndexMap<String, usize>)
    ensures
        slot_pairs(map) == Seq::<(Seq<char>, usize)>::empty(),
{
    IndexMap::new()
}

/// `IndexMap::get`: the value of a pair with the key `key`, and nothing where
/// no pair has that key.
#[verifier::external_body]
pub(crate) fn slot_map_get(map: &IndexMap<String, usize>, key: &str) -> (slot: Option<usize>)
    ensures
        match slot {
            Some(v) => exists|i: int|
                0 <= i < slot_pairs(*map).len() && #[trigger] slot_pairs(*map)[i] == (key@, v),
            None => !has_slot(slot_pairs(*map), key@),
        },
{
    map.get(key).copied()
}

/// `IndexMap::insert`: where a pair has the key, it keeps its place and takes
/// the new value; otherwise the new pair goes to the end.
#[verifier::external_body]
pub(crate) fn slot_map_insert(map: &mut IndexMap<String, usize>, key: String, slot: usize)
    ensures
        forall|i: int|
            0 <= i < slot_pairs(*old(map)).len() && (#[trigger] slot_pairs(*old(map))[i]).0 == key@
                ==> slot_pairs(*final(map)) == slot_pairs(*old(map)).update(i, (key@, slot)),
        !has_slot(slot_pairs(*old(map)), key@) ==> slot_pairs(*final(map)) == slot_pairs(
            *old(map),
        ).push((key@, slot)),
{
    map.insert(key, slot);
}

} // verus!
