//! The composite map in memory: its entries under their identifiers, in the
//! order in which they were read.

use crate::cipher::{decrypt_mapper, decrypted, encrypt_text, encrypted, plain_text};
use crate::codec::{parse_composite_map, parsed};
use crate::entry::{entry_views, CompositeEntry, EntryView};
use crate::entry_map::{
    entry_map_clear, entry_map_get_index, entry_map_get_index_of, entry_map_insert,
    entry_map_len, entry_map_new, entry_map_shift_remove, has_key, map_pairs,
};
use crate::serializer::{pair_values, serialized};
use crate::utils::{incomplete_paths_equal, paths_match};
use indexmap::IndexMap;
use vstd::prelude::*;

verus! {

/// Why an operation on a composite map or on a session was refused.
#[derive(Debug, Clone, Copy, PartialEq, Eq, Structural)]
pub enum MapError {
    /// No entry of the map has the identifier.
    EntryNotFound,
    /// There is no backup to restore from.
    BackupMissing,
}

/// Whether some entry of `entries` has the identifier `id`.
pub open spec fn has_id(entries: Seq<EntryView>, id: Seq<char>) -> bool {
    exists|i: int| 0 <= i < entries.len() && (#[trigger] entries[i]).composite_name == id
}

/// The position of an entry with the identifier `id`.
pub open spec fn id_index(entries: Seq<EntryView>, id: Seq<char>) -> int {
    choose|i: int| 0 <= i < entries.len() && (#[trigger] entries[i]).composite_name == id
}

/// Whether no two entries of `entries` have the same identifier.
pub open spec fn unique_ids(entries: Seq<EntryView>) -> bool {
    forall|i: int, j: int|
        0 <= i < entries.len() && 0 <= j < entries.len() && i != j ==> (
        #[trigger] entries[i]).composite_name != (#[trigger] entries[j]).composite_name
}

/// `entries` with `e` in the place of the entry that has its identifier, or
/// at the end where none has.
pub open spec fn upserted(entries: Seq<EntryView>, e: EntryView) -> Seq<EntryView> {
    if has_id(entries, e.composite_name) {
        entries.update(id_index(entries, e.composite_name), e)
    } else {
        entries.push(e)
    }
}

/// `entries` after each entry of `added` has been put in, in order.
pub open spec fn upserted_all(entries: Seq<EntryView>, added: Seq<EntryView>) -> Seq<EntryView>
    decreases added.len(),
{
    if added.len() == 0 {
        entries
    } else {
        upserted(upserted_all(entries, added.drop_last()), added.last())
    }
}

/// `e` redirected to `size` bytes from `offset` of the container `filename`.
pub open spec fn redirected(e: EntryView, filename: Seq<char>, offset: usize, size: usize)
    -> EntryView {
    EntryView { filename, offset, size, ..e }
}

/// `entries` with the entry of the identifier `id` redirected; `entries`
/// itself where none has that identifier.
pub open spec fn patched(
    entries: Seq<EntryView>,
    id: Seq<char>,
    filename: Seq<char>,
    offset: usize,
    size: usize,
) -> Seq<EntryView> {
    if has_id(entries, id) {
        let i = id_index(entries, id);
        entries.update(i, redirected(entries[i], filename, offset, size))
    } else {
        entries
    }
}

/// `entries` without the entry of the identifier `id`.
pub open spec fn without_id(entries: Seq<EntryView>, id: Seq<char>) -> Seq<EntryView> {
    if has_id(entries, id) {
        entries.remove(id_index(entries, id))
    } else {
        entries
    }
}

/// The entries of `entries` whose object path denotes the same object as
/// `query`, in their order.
pub open spec fn matching(entries: Seq<EntryView>, query: Seq<char>) -> Seq<EntryView>
    decreases entries.len(),
{
    if entries.len() == 0 {
        Seq::empty()
    } else {
        let before = matching(entries.drop_last(), query);
        if paths_match(entries.last().object_path, query) {
            before.push(entries.last())
        } else {
            before
        }
    }
}

/// The entries of the map that the bytes of an encrypted composite map file
/// hold: the entries of its text, a later one taking the place of an earlier
/// one of the same identifier.
pub open spec fn loaded_entries(encrypted_map: Seq<u8>) -> Seq<EntryView> {
    upserted_all(Seq::empty(), parsed(plain_text(encrypted_map)).entries)
}

/// The bytes of the encrypted composite map file that holds `entries`.
pub open spec fn map_file_bytes(entries: Seq<EntryView>) -> Seq<u8> {
    encrypted(vstd::utf8::encode_utf8(serialized(entries)))
}

/// What looking for an object path in a map gives.
pub enum PathMatch {
    /// Exactly one entry answers for the path.
    Unique(CompositeEntry),
    /// No entry answers for the path.
    Missing,
    /// More than one entry answers for the path.
    Ambiguous,
}

/// The mathematical value of a [`PathMatch`].
pub enum PathMatchView {
    Unique(EntryView),
    Missing,
    Ambiguous,
}

impl View for PathMatch {
    type V = PathMatchView;

    open spec fn view(&self) -> PathMatchView {
        match self {
            PathMatch::Unique(e) => PathMatchView::Unique(e@),
            PathMatch::Missing => PathMatchView::Missing,
            PathMatch::Ambiguous => PathMatchView::Ambiguous,
        }
    }
}

/// What looking for `query` among `entries` gives.
pub open spec fn resolved(entries: Seq<EntryView>, query: Seq<char>) -> PathMatchView {
    let found = matching(entries, query);
    if found.len() == 1 {
        PathMatchView::Unique(found[0])
    } else if found.len() == 0 {
        PathMatchView::Missing
    } else {
        PathMatchView::Ambiguous
    }
}

/// The one entry that answers for `query`, where exactly one does.
pub open spec fn resolved_entry(entries: Seq<EntryView>, query: Seq<char>) -> Option<EntryView> {
    match resolved(entries, query) {
        PathMatchView::Unique(e) => Some(e),
        _ => None,
    }
}

/// Where two entries answer for a path, looking for it gives no entry.
pub proof fn lemma_two_matches_resolve_to_none(
    entries: Seq<EntryView>,
    query: Seq<char>,
    i: int,
    j: int,
)
    requires
        0 <= i < j < entries.len(),
        paths_match(entries[i].object_path, query),
        paths_match(entries[j].object_path, query),
    ensures
        matching(entries, query).len() >= 2,
        resolved(entries, query) == PathMatchView::Ambiguous,
        resolved_entry(entries, query) is None,
    decreases entries.len(),
{
    let shorter = entries.drop_last();
    if j < entries.len() - 1 {
        assert(shorter[i] == entries[i] && shorter[j] == entries[j]);
        lemma_two_matches_resolve_to_none(shorter, query, i, j);
    } else {
        assert(shorter[i] == entries[i]);
        lemma_match_counts(shorter, query, i);
    }
}

/// An entry that answers for a path is among those that do.
pub proof fn lemma_match_counts(entries: Seq<EntryView>, query: Seq<char>, i: int)
    requires
        0 <= i < entries.len(),
        paths_match(entries[i].object_path, query),
    ensures
        matching(entries, query).len() >= 1,
    decreases entries.len(),
{
    let shorter = entries.drop_last();
    if i < entries.len() - 1 {
        assert(shorter[i] == entries[i]);
        lemma_match_counts(shorter, query, i);
    }
}

/// With distinct identifiers, an identifier has one position.
pub proof fn lemma_id_index(entries: Seq<EntryView>, id: Seq<char>, i: int)
    requires
        unique_ids(entries),
        0 <= i < entries.len(),
        entries[i].composite_name == id,
    ensures
        has_id(entries, id),
        id_index(entries, id) == i,
{
}

/// Putting an entry in, redirecting one and taking one out keep the
/// identifiers distinct.
pub proof fn lemma_unique_ids_kept(
    entries: Seq<EntryView>,
    e: EntryView,
    id: Seq<char>,
    filename: Seq<char>,
    offset: usize,
    size: usize,
)
    requires
        unique_ids(entries),
    ensures
        unique_ids(upserted(entries, e)),
        unique_ids(patched(entries, id, filename, offset, size)),
        unique_ids(without_id(entries, id)),
{
    if has_id(entries, e.composite_name) {
        let i = id_index(entries, e.composite_name);
        let after = entries.update(i, e);
        assert forall|a: int, b: int|
            0 <= a < after.len() && 0 <= b < after.len() && a != b implies (
        #[trigger] after[a]).composite_name != (#[trigger] after[b]).composite_name by {
            assert(after[a].composite_name == entries[a].composite_name);
            assert(after[b].composite_name == entries[b].composite_name);
        }
    } else {
        let after = entries.push(e);
        assert forall|a: int, b: int|
            0 <= a < after.len() && 0 <= b < after.len() && a != b implies (
        #[trigger] after[a]).composite_name != (#[trigger] after[b]).composite_name by {
            if a < entries.len() {
                assert(after[a] == entries[a]);
            }
            if b < entries.len() {
                assert(after[b] == entries[b]);
            }
        }
    }
    if has_id(entries, id) {
        let i = id_index(entries, id);
        let after = patched(entries, id, filename, offset, size);
        assert forall|a: int, b: int|
            0 <= a < after.len() && 0 <= b < after.len() && a != b implies (
        #[trigger] after[a]).composite_name != (#[trigger] after[b]).composite_name by {
            assert(after[a].composite_name == entries[a].composite_name);
            assert(after[b].composite_name == entries[b].composite_name);
        }
        let rest = entries.remove(i);
        assert forall|a: int, b: int|
            0 <= a < rest.len() && 0 <= b < rest.len() && a != b implies (
        #[trigger] rest[a]).composite_name != (#[trigger] rest[b]).composite_name by {
            let a0 = if a < i { a } else { a + 1 };
            let b0 = if b < i { b } else { b + 1 };
            assert(rest[a] == entries[a0]);
            assert(rest[b] == entries[b0]);
        }
    }
}

/// Entries of distinct identifiers that are put into an empty map stand in
/// it as they came.
pub proof fn lemma_upserted_all_of_unique(added: Seq<EntryView>)
    requires
        unique_ids(added),
    ensures
        upserted_all(Seq::empty(), added) == added,
    decreases added.len(),
{
    if added.len() > 0 {
        let shorter = added.drop_last();
        assert forall|i: int, j: int|
            0 <= i < shorter.len() && 0 <= j < shorter.len() && i != j implies (
        #[trigger] shorter[i]).composite_name != (#[trigger] shorter[j]).composite_name by {
            assert(shorter[i] == added[i] && shorter[j] == added[j]);
        }
        lemma_upserted_all_of_unique(shorter);
        let id = added.last().composite_name;
        assert(!has_id(shorter, id)) by {
            if has_id(shorter, id) {
                let i = id_index(shorter, id);
                assert(added[i].composite_name == added[added.len() - 1].composite_name);
            }
        }
        assert(shorter.push(added.last()) =~= added);
    } else {
        assert(added =~= Seq::<EntryView>::empty());
    }
}

/// Putting entries in keeps the identifiers distinct.
pub proof fn lemma_upserted_all_unique(entries: Seq<EntryView>, added: Seq<EntryView>)
    requires
        unique_ids(entries),
    ensures
        unique_ids(upserted_all(entries, added)),
    decreases added.len(),
{
    if added.len() > 0 {
        lemma_upserted_all_unique(entries, added.drop_last());
        lemma_unique_ids_kept(
            upserted_all(entries, added.drop_last()),
            added.last(),
            Seq::empty(),
            Seq::empty(),
            0,
            0,
        );
    }
}

/// A composite map: its entries under their identifiers, in the order in
/// which they came, and whether it was changed since it was last written.
pub struct CompositeMapperFile {
    composite_map: IndexMap<String, CompositeEntry>,
    dirty: bool,
    truncated: bool,
    plaintext: String,
}

impl View for CompositeMapperFile {
    type V = Seq<EntryView>;

    /// The entries, in the order of the map.
    closed spec fn view(&self) -> Seq<EntryView> {
        pair_values(map_pairs(self.composite_map))
    }
}

impl Default for CompositeMapperFile {
    fn default() -> (map: Self)
        ensures
            map.wf(),
            map@ == Seq::<EntryView>::empty(),
            !map.dirty(),
            !map.truncated(),
    {
        CompositeMapperFile::empty()
    }
}

impl CompositeMapperFile {
    /// Every entry stands under its own identifier, and no identifier occurs
    /// twice.
    pub closed spec fn wf(&self) -> bool {
        let pairs = map_pairs(self.composite_map);
        &&& forall|i: int| 0 <= i < pairs.len() ==> (#[trigger] pairs[i]).0 == pairs[i].1.composite_name
        &&& unique_ids(self@)
    }

    /// Whether the map was changed since it was last written.
    pub closed spec fn dirty(&self) -> bool {
        self.dirty
    }

    /// Whether reading the text of the map stopped before its end.
    pub closed spec fn truncated(&self) -> bool {
        self.truncated
    }

    /// The text that the map was read from.
    pub closed spec fn plaintext(&self) -> Seq<char> {
        self.plaintext@
    }

    /// The identifiers of a well-formed map are distinct.
    pub proof fn lemma_wf_unique(&self)
        requires
            self.wf(),
        ensures
            unique_ids(self@),
    {
    }

    proof fn lemma_view_index(&self, i: int)
        requires
            0 <= i < map_pairs(self.composite_map).len(),
        ensures
            self@.len() == map_pairs(self.composite_map).len(),
            self@[i] == map_pairs(self.composite_map)[i].1,
    {
    }

    proof fn lemma_key_is_id(&self, id: Seq<char>)
        requires
            self.wf(),
        ensures
            has_key(map_pairs(self.composite_map), id) == has_id(self@, id),
    {
        let pairs = map_pairs(self.composite_map);
        if has_key(pairs, id) {
            let i = choose|i: int| 0 <= i < pairs.len() && (#[trigger] pairs[i]).0 == id;
            assert(self@[i].composite_name == id);
        }
        if has_id(self@, id) {
            let i = choose|i: int| 0 <= i < self@.len() && (#[trigger] self@[i]).composite_name == id;
            assert(pairs[i].0 == id);
        }
    }

    /// A map without entries.
    pub fn empty() -> (map: Self)
        ensures
            map.wf(),
            map@ == Seq::<EntryView>::empty(),
            !map.dirty(),
            !map.truncated(),
            map.plaintext() == Seq::<char>::empty(),
    {
        let map = CompositeMapperFile {
            composite_map: entry_map_new(),
            dirty: false,
            truncated: false,
            plaintext: String::new(),
        };
        assert(map@ =~= Seq::<EntryView>::empty());
        map
    }

    /// The map that the text of a composite map holds.
    pub fn from_text(text: &str) -> (map: Self)
        ensures
            map.wf(),
            map@ == upserted_all(Seq::empty(), parsed(text@).entries),
            map.truncated() == parsed(text@).truncated,
            !map.dirty(),
    {
        let mut map = Self::empty();
        map.parse_entries_with_offsets(text);
        map
    }

    /// The map that the bytes of an encrypted composite map file hold.
    pub fn new(encrypted_map: &[u8]) -> (map: Self)
        ensures
            map.wf(),
            map@ == loaded_entries(encrypted_map@),
            vstd::utf8::valid_utf8(decrypted(encrypted_map@)) ==> map@ == upserted_all(
                Seq::empty(),
                parsed(vstd::utf8::decode_utf8(decrypted(encrypted_map@))).entries,
            ),
            map.truncated() == parsed(plain_text(encrypted_map@)).truncated,
            map.plaintext() == plain_text(encrypted_map@),
            !map.dirty(),
    {
        let mut map = Self::empty();
        map.reload(encrypted_map);
        map
    }

    /// Replaces the entries by those that the bytes of an encrypted composite
    /// map file hold.
    pub fn reload(&mut self, encrypted_map: &[u8])
        ensures
            final(self).wf(),
            final(self)@ == loaded_entries(encrypted_map@),
            vstd::utf8::valid_utf8(decrypted(encrypted_map@)) ==> final(self)@ == upserted_all(
                Seq::empty(),
                parsed(vstd::utf8::decode_utf8(decrypted(encrypted_map@))).entries,
            ),
            final(self).truncated() == parsed(plain_text(encrypted_map@)).truncated,
            final(self).plaintext() == plain_text(encrypted_map@),
            !final(self).dirty(),
    {
        let text = decrypt_mapper(encrypted_map);
        entry_map_clear(&mut self.composite_map);
        assert(self@ =~= Seq::<EntryView>::empty());
        self.parse_entries_with_offsets(text.as_str());
        self.plaintext = text;
        self.dirty = false;
    }

    /// The bytes of the encrypted composite map file that holds the entries.
    pub fn save(&self) -> (encrypted_map: Vec<u8>)
        ensures
            encrypted_map@ == map_file_bytes(self@),
    {
        let mut text = String::new();
        Self::serialize_composite_map_to_string(&self.composite_map, &mut text, 0);
        encrypt_text(text.as_str())
    }

    /// The text of the map.
    pub fn to_text(&self) -> (text: String)
        ensures
            text@ == serialized(self@),
    {
        let mut text = String::new();
        Self::serialize_composite_map_to_string(&self.composite_map, &mut text, 0);
        text
    }

    /// Puts `e` in the place of the entry that has its identifier, or at the
    /// end where none has.
    pub fn insert_entry(&mut self, e: CompositeEntry)
        requires
            old(self).wf(),
        ensures
            final(self).wf(),
            final(self)@ == upserted(old(self)@, e@),
            final(self).dirty() == old(self).dirty(),
            final(self).truncated() == old(self).truncated(),
            final(self).plaintext() == old(self).plaintext(),
    {
        let key = e.composite_name.clone();
        proof {
            self.lemma_key_is_id(key@);
            lemma_unique_ids_kept(self@, e@, Seq::empty(), Seq::empty(), 0, 0);
            if has_id(self@, key@) {
                let i = id_index(self@, key@);
                assert(map_pairs(self.composite_map)[i].0 == key@);
                assert(pair_values(map_pairs(self.composite_map).update(i, (key@, e@)))
                    =~= self@.update(i, e@));
            } else {
                assert(pair_values(map_pairs(self.composite_map).push((key@, e@))) =~= self@.push(
                    e@,
                ));
            }
        }
        entry_map_insert(&mut self.composite_map, key, e);
    }

    /// Reads the text of a composite map and puts its entries in, in order.
    /// Tells whether reading stopped before the end of the text.
    pub fn parse_entries_with_offsets(&mut self, data: &str)
        requires
            old(self).wf(),
        ensures
            final(self).wf(),
            final(self)@ == upserted_all(old(self)@, parsed(data@).entries),
            final(self).truncated() == parsed(data@).truncated,
            final(self).dirty() == old(self).dirty(),
            final(self).plaintext() == old(self).plaintext(),
    {
        let parsed_map = parse_composite_map(data);
        let ghost added = entry_views(parsed_map.entries@);
        let mut entries = parsed_map.entries;
        let n = entries.len();
        let mut i: usize = 0;
        assert(added.take(0) =~= Seq::<EntryView>::empty());
        while i < n
            invariant
                i <= n,
                n == entries.len(),
                self.wf(),
                added.len() == n,
                forall|k: int| i <= k < n ==> (#[trigger] entries[k])@ == added[k],
                self@ == upserted_all(old(self)@, added.take(i as int)),
                self.dirty() == old(self).dirty(),
                self.plaintext() == old(self).plaintext(),
            decreases n - i,
        {
            let e = entries[i].clone();
            assert(added.take(i + 1).drop_last() =~= added.take(i as int));
            self.insert_entry(e);
            i += 1;
        }
        assert(added.take(n as int) =~= added);
        self.truncated = parsed_map.truncated;
    }

    /// The number of entries.
    pub fn len(&self) -> (n: usize)
        ensures
            n == self@.len(),
    {
        entry_map_len(&self.composite_map)
    }

    /// Whether the map has no entries.
    pub fn is_empty(&self) -> (r: bool)
        ensures
            r == (self@.len() == 0),
    {
        entry_map_len(&self.composite_map) == 0
    }

    /// Whether the map was changed since it was last written.
    pub fn is_dirty(&self) -> (r: bool)
        ensures
            r == self.dirty(),
    {
        self.dirty
    }

    /// Marks the map as changed, or as written.
    pub fn set_dirty(&mut self, dirty: bool)
        ensures
            final(self).dirty() == dirty,
            final(self)@ == old(self)@,
            final(self).wf() == old(self).wf(),
            final(self).truncated() == old(self).truncated(),
            final(self).plaintext() == old(self).plaintext(),
    {
        self.dirty = dirty;
    }

    /// The text that the map was last read from.
    pub fn source_text(&self) -> (text: &String)
        ensures
            text@ == self.plaintext(),
    {
        &self.plaintext
    }

    /// Whether reading the text of the map stopped before its end.
    pub fn is_truncated(&self) -> (r: bool)
        ensures
            r == self.truncated(),
    {
        self.truncated
    }

    /// The entry at position `index` of the map's order.
    pub fn entry_at(&self, index: usize) -> (entry: Option<CompositeEntry>)
        ensures
            match entry {
                Some(e) => index < self@.len() && e@ == self@[index as int],
                None => index >= self@.len(),
            },
    {
        match entry_map_get_index(&self.composite_map, index) {
            Some(pair) => {
                proof {
                    self.lemma_view_index(index as int);
                }
                Some(pair.1.clone())
            },
            None => None,
        }
    }

    /// The entry with the identifier `composite_name`.
    pub fn get(&self, composite_name: &str) -> (entry: Option<CompositeEntry>)
        requires
            self.wf(),
        ensures
            match entry {
                Some(e) => has_id(self@, composite_name@) && e@ == self@[id_index(
                    self@,
                    composite_name@,
                )],
                None => !has_id(self@, composite_name@),
            },
    {
        proof {
            self.lemma_key_is_id(composite_name@);
        }
        match entry_map_get_index_of(&self.composite_map, composite_name) {
            None => None,
            Some(i) => {
                proof {
                    self.lemma_view_index(i as int);
                    lemma_id_index(self@, composite_name@, i as int);
                }
                self.entry_at(i)
            },
        }
    }

    /// Looks for the entry that answers for the object path `path`.
    pub fn find_by_incomplete_path(&self, path: &str) -> (found: PathMatch)
        ensures
            found@ == resolved(self@, path@),
    {
        let n = entry_map_len(&self.composite_map);
        let ghost all = self@;
        let mut count: usize = 0;
        let mut first: usize = 0;
        let mut i: usize = 0;
        while i < n
            invariant
                i <= n,
                n == all.len(),
                all == self@,
                n == map_pairs(self.composite_map).len(),
                count <= i,
                count == matching(all.take(i as int), path@).len(),
                count > 0 ==> first < i && matching(all.take(i as int), path@)[0] == all[first as int],
            decreases n - i,
        {
            proof {
                assert(all.take(i + 1).drop_last() =~= all.take(i as int));
                self.lemma_view_index(i as int);
            }
            match entry_map_get_index(&self.composite_map, i) {
                None => {},
                Some(pair) => {
                    if incomplete_paths_equal(pair.1.object_path.as_str(), path) {
                        if count == 0 {
                            first = i;
                        }
                        count += 1;
                    }
                },
            }
            i += 1;
        }
        assert(all.take(n as int) =~= all);
        if count == 1 {
            match self.entry_at(first) {
                Some(e) => PathMatch::Unique(e),
                None => PathMatch::Missing,
            }
        } else if count == 0 {
            PathMatch::Missing
        } else {
            PathMatch::Ambiguous
        }
    }

    /// Looks for the entry that answers for the object path `path`. Where
    /// exactly one does, copies it to `output`; where none or several do,
    /// leaves `output` as it is.
    pub fn get_entry_by_incomplete_object_path(&self, path: &str, output: &mut CompositeEntry) -> (found:
        bool)
        ensures
            found == (matching(self@, path@).len() == 1),
            found ==> final(output)@ == matching(self@, path@)[0],
            !found ==> *final(output) == *old(output),
    {
        match self.find_by_incomplete_path(path) {
            PathMatch::Unique(e) => {
                *output = e;
                true
            },
            _ => false,
        }
    }

    /// Takes out the entry that has the identifier of `entry`. Tells whether
    /// there was one; the map is marked as changed where there was.
    pub fn remove_entry(&mut self, entry: &CompositeEntry) -> (removed: bool)
        requires
            old(self).wf(),
        ensures
            final(self).wf(),
            removed == has_id(old(self)@, entry@.composite_name),
            final(self)@ == without_id(old(self)@, entry@.composite_name),
            final(self).dirty() == (old(self).dirty() || removed),
            final(self).truncated() == old(self).truncated(),
            final(self).plaintext() == old(self).plaintext(),
    {
        let ghost id = entry@.composite_name;
        proof {
            self.lemma_key_is_id(id);
            lemma_unique_ids_kept(self@, entry@, id, Seq::empty(), 0, 0);
            if has_id(self@, id) {
                let i = id_index(self@, id);
                assert(map_pairs(self.composite_map)[i].0 == id);
                assert(pair_values(map_pairs(self.composite_map).remove(i)) =~= self@.remove(i));
                let rest = map_pairs(self.composite_map).remove(i);
                assert forall|k: int| 0 <= k < rest.len() implies (#[trigger] rest[k]).0
                    == rest[k].1.composite_name by {
                    let k0 = if k < i { k } else { k + 1 };
                    assert(rest[k] == map_pairs(self.composite_map)[k0]);
                }
            }
        }
        let removed = entry_map_shift_remove(&mut self.composite_map, entry.composite_name.as_str());
        if removed {
            self.dirty = true;
        }
        removed
    }

    /// Redirects the entry with the identifier `composite_name` to `new_size`
    /// bytes from `new_offset` of the container `new_filename`, and marks the
    /// map as changed. Refuses, and changes nothing, where no entry has that
    /// identifier.
    pub fn apply_patch(
        &mut self,
        composite_name: &str,
        new_filename: &str,
        new_offset: usize,
        new_size: usize,
    ) -> (result: Result<(), MapError>)
        requires
            old(self).wf(),
        ensures
            final(self).wf(),
            result is Ok <==> has_id(old(self)@, composite_name@),
            result is Err ==> result == Err::<(), MapError>(MapError::EntryNotFound) && *final(self)
                == *old(self),
            result is Ok ==> final(self).dirty(),
            final(self)@ == patched(old(self)@, composite_name@, new_filename@, new_offset, new_size),
            final(self).truncated() == old(self).truncated(),
            final(self).plaintext() == old(self).plaintext(),
    {
        proof {
            self.lemma_key_is_id(composite_name@);
        }
        let current = match self.get(composite_name) {
            None => {
                return Err(MapError::EntryNotFound);
            },
            Some(e) => e,
        };
        let replacement = CompositeEntry {
            filename: new_filename.to_owned(),
            object_path: current.object_path,
            composite_name: current.composite_name,
            offset: new_offset,
            size: new_size,
        };
        proof {
            let i = id_index(self@, composite_name@);
            assert(replacement@ == redirected(self@[i], new_filename@, new_offset, new_size));
            assert(replacement@.composite_name == composite_name@);
        }
        self.insert_entry(replacement);
        self.dirty = true;
        Ok(())
    }

    /// Replaces the entries by copies of the entries of `other`.
    pub fn copy_entries_from(&mut self, other: &CompositeMapperFile)
        requires
            other.wf(),
        ensures
            final(self).wf(),
            final(self)@ == other@,
            final(self).dirty() == old(self).dirty(),
            final(self).truncated() == old(self).truncated(),
            final(self).plaintext() == old(self).plaintext(),
    {
        entry_map_clear(&mut self.composite_map);
        assert(self@ =~= Seq::<EntryView>::empty());
        let n = other.len();
        let mut i: usize = 0;
        while i < n
            invariant
                i <= n,
                n == other@.len(),
                other.wf(),
                self.wf(),
                self@ == other@.take(i as int),
                self.dirty() == old(self).dirty(),
                self.truncated() == old(self).truncated(),
                self.plaintext() == old(self).plaintext(),
            decreases n - i,
        {
            match other.entry_at(i) {
                None => {},
                Some(e) => {
                    proof {
                        other.lemma_wf_unique();
                        assert(!has_id(self@, e@.composite_name)) by {
                            if has_id(self@, e@.composite_name) {
                                let k = id_index(self@, e@.composite_name);
                                assert(self@[k] == other@[k]);
                            }
                        }
                        assert(other@.take(i + 1) =~= other@.take(i as int).push(e@));
                    }
                    self.insert_entry(e);
                },
            }
            i += 1;
        }
        assert(other@.take(n as int) =~= other@);
    }
}

} // verus!
