use tmm::codec::parse_composite_map;
use tmm::composite_mapper::{CompositeMapperFile, MapError, PathMatch};
use tmm::entry::CompositeEntry;

fn entry(container: &str, path: &str, id: &str, offset: usize, size: usize) -> CompositeEntry {
    CompositeEntry {
        filename: container.to_string(),
        object_path: path.to_string(),
        composite_name: id.to_string(),
        offset,
        size,
    }
}

fn fields(e: &CompositeEntry) -> (String, String, String, usize, usize) {
    (
        e.filename.clone(),
        e.object_path.clone(),
        e.composite_name.clone(),
        e.offset,
        e.size,
    )
}

fn all_fields(map: &CompositeMapperFile) -> Vec<(String, String, String, usize, usize)> {
    (0..map.len())
        .map(|i| fields(&map.entry_at(i).unwrap()))
        .collect()
}

#[test]
fn parse_reads_blocks_and_records() {
    let parsed = parse_composite_map("a.gpk?X.Y.Z,e1,10,5,|X.Y.W,e2,0,10,|!b?P,e3,7,8,|!");
    assert!(!parsed.truncated);
    let got: Vec<_> = parsed.entries.iter().map(fields).collect();
    assert_eq!(
        got,
        vec![
            fields(&entry("a.gpk", "X.Y.Z", "e1", 10, 5)),
            fields(&entry("a.gpk", "X.Y.W", "e2", 0, 10)),
            fields(&entry("b", "P", "e3", 7, 8)),
        ]
    );
}

#[test]
fn parse_of_empty_text_is_empty_and_complete() {
    let parsed = parse_composite_map("");
    assert!(parsed.entries.is_empty());
    assert!(!parsed.truncated);
}

#[test]
fn parse_of_block_without_records() {
    let parsed = parse_composite_map("a?!");
    assert!(parsed.entries.is_empty());
    assert!(!parsed.truncated);
}

#[test]
fn parse_numbers_default_to_zero() {
    let parsed = parse_composite_map("c?p,a,x,5,|p,b,,+7,|p,c,-1,007,|p,d,+,1 ,|p,e,99999999999999999999999999,12a,|!");
    assert!(!parsed.truncated);
    let got: Vec<(usize, usize)> = parsed.entries.iter().map(|e| (e.offset, e.size)).collect();
    assert_eq!(got, vec![(0, 5), (0, 7), (0, 7), (0, 0), (0, 0)]);
}

#[test]
fn parse_reads_the_largest_number() {
    let text = format!("c?p,a,{},{}0,|!", usize::MAX, usize::MAX);
    let parsed = parse_composite_map(&text);
    assert_eq!(parsed.entries[0].offset, usize::MAX);
    assert_eq!(parsed.entries[0].size, 0);
}

#[test]
fn parse_ignores_fields_behind_the_fourth() {
    let parsed = parse_composite_map("c?p,a,1,2,3,four,|!");
    assert_eq!(parsed.entries.len(), 1);
    assert_eq!(fields(&parsed.entries[0]), fields(&entry("c", "p", "a", 1, 2)));
    assert!(!parsed.truncated);
}

#[test]
fn parse_drops_what_follows_the_last_separator_of_a_block() {
    let parsed = parse_composite_map("c?p,a,1,2,|q,b,3,4!d?r,c,5,6,|!");
    let ids: Vec<_> = parsed.entries.iter().map(|e| e.composite_name.clone()).collect();
    assert_eq!(ids, vec!["a", "c"]);
    assert!(!parsed.truncated);
}

#[test]
fn parse_stops_at_a_block_without_end() {
    let parsed = parse_composite_map("c?p,a,1,2,|!d?r,c,5,6,|");
    let ids: Vec<_> = parsed.entries.iter().map(|e| e.composite_name.clone()).collect();
    assert_eq!(ids, vec!["a"]);
    assert!(parsed.truncated);
}

#[test]
fn parse_stops_at_a_name_without_end() {
    let parsed = parse_composite_map("c?p,a,1,2,|!trailing");
    assert_eq!(parsed.entries.len(), 1);
    assert!(parsed.truncated);
}

#[test]
fn parse_stops_at_a_record_with_too_few_fields() {
    let parsed = parse_composite_map("c?p,a,1,2,|short,x,|q,b,3,4,|!d?r,c,5,6,|!");
    let ids: Vec<_> = parsed.entries.iter().map(|e| e.composite_name.clone()).collect();
    assert_eq!(ids, vec!["a"]);
    assert!(parsed.truncated);
}

#[test]
fn parse_takes_the_name_from_the_end_of_the_last_block() {
    let parsed = parse_composite_map("?p,a,1,2,|!\nname?q,b,3,4,|!");
    assert_eq!(parsed.entries[0].filename, "");
    assert_eq!(parsed.entries[1].filename, "\nname");
}

#[test]
fn parse_keeps_text_that_is_not_ascii() {
    let parsed = parse_composite_map("c\u{e9}?p\u{4e16},a,1,2,|!");
    assert_eq!(fields(&parsed.entries[0]), fields(&entry("c\u{e9}", "p\u{4e16}", "a", 1, 2)));
}

#[test]
fn grammar_round_trip() {
    let mut map = CompositeMapperFile::empty();
    map.insert_entry(entry("a.gpk", "X.Y.Z", "e1", 10, 5));
    map.insert_entry(entry("a.gpk", "X.Y.W", "e2", 0, 10));
    let text = map.to_text();
    assert_eq!(text, "a.gpk?X.Y.W,e2,0,10,|X.Y.Z,e1,10,5,|!");
    let parsed = parse_composite_map(&text);
    assert!(!parsed.truncated);
    let got: Vec<_> = parsed.entries.iter().map(fields).collect();
    assert_eq!(
        got,
        vec![
            fields(&entry("a.gpk", "X.Y.W", "e2", 0, 10)),
            fields(&entry("a.gpk", "X.Y.Z", "e1", 10, 5)),
        ]
    );
}

#[test]
fn serialize_groups_by_first_occurrence_and_sorts_by_offset() {
    let map = CompositeMapperFile::from_text(
        "b?p1,i1,30,1,|!a?p2,i2,20,2,|!b?p3,i3,10,3,|!a?p4,i4,20,4,|p5,i5,5,5,|!",
    );
    assert_eq!(
        map.to_text(),
        "b?p3,i3,10,3,|p1,i1,30,1,|!a?p5,i5,5,5,|p2,i2,20,2,|p4,i4,20,4,|!"
    );
}

#[test]
fn serialize_keeps_the_order_of_equal_offsets() {
    let mut map = CompositeMapperFile::empty();
    map.insert_entry(entry("c", "p", "z", 5, 1));
    map.insert_entry(entry("c", "p", "y", 5, 2));
    map.insert_entry(entry("c", "p", "x", 5, 3));
    map.insert_entry(entry("c", "p", "w", 4, 4));
    assert_eq!(map.to_text(), "c?p,w,4,4,|p,z,5,1,|p,y,5,2,|p,x,5,3,|!");
}

#[test]
fn serialize_skips_the_container_without_name() {
    let mut map = CompositeMapperFile::empty();
    map.insert_entry(entry("", "p", "a", 1, 1));
    map.insert_entry(entry("c", "q", "b", 2, 2));
    map.insert_entry(entry("", "r", "d", 3, 3));
    assert_eq!(map.to_text(), "c?q,b,2,2,|!");
}

#[test]
fn serialize_of_empty_map_is_empty() {
    assert_eq!(CompositeMapperFile::empty().to_text(), "");
}

#[test]
fn serialize_writes_numbers_in_decimal() {
    let mut map = CompositeMapperFile::empty();
    map.insert_entry(entry("c", "p", "a", 0, 9));
    map.insert_entry(entry("c", "p", "b", 10, 1234567890));
    map.insert_entry(entry("c", "p", "d", usize::MAX, 100));
    assert_eq!(
        map.to_text(),
        format!("c?p,a,0,9,|p,b,10,1234567890,|p,d,{},100,|!", usize::MAX)
    );
}

#[test]
fn parse_of_serialized_map_gives_the_entries_back() {
    let text = "b?p1,i1,30,1,|!a?p2,i2,20,2,|!b?p3,i3,10,3,|!";
    let map = CompositeMapperFile::from_text(text);
    let again = CompositeMapperFile::from_text(&map.to_text());
    let mut first = all_fields(&map);
    let mut second = all_fields(&again);
    first.sort();
    second.sort();
    assert_eq!(first, second);
    assert_eq!(again.to_text(), map.to_text());
}

#[test]
fn later_entry_takes_the_place_of_an_earlier_one_with_its_id() {
    let map = CompositeMapperFile::from_text("a?p,x,1,1,|q,y,2,2,|!b?r,x,3,3,|!");
    assert_eq!(map.len(), 2);
    assert_eq!(
        all_fields(&map),
        vec![
            fields(&entry("b", "r", "x", 3, 3)),
            fields(&entry("a", "q", "y", 2, 2)),
        ]
    );
}

#[test]
fn load_and_save_round_trip() {
    let text = "a.gpk?X.Y.W,e2,0,10,|X.Y.Z,e1,10,5,|!b.gpk?Q,e3,1,2,|!";
    let mut source = CompositeMapperFile::from_text(text);
    source.set_dirty(true);
    let bytes = source.save();
    assert_eq!(bytes, tmm::cipher::encrypt_mapper(text.as_bytes()));
    let loaded = CompositeMapperFile::new(&bytes);
    assert_eq!(loaded.source_text(), text);
    assert!(!loaded.is_dirty());
    assert!(!loaded.is_truncated());
    assert_eq!(all_fields(&loaded), all_fields(&source));
    assert_eq!(loaded.save(), bytes);
}

#[test]
fn reload_replaces_the_entries_and_clears_dirty() {
    let mut map = CompositeMapperFile::from_text("a?p,x,1,1,|!");
    map.apply_patch("x", "m", 5, 6).unwrap();
    assert!(map.is_dirty());
    let bytes = tmm::cipher::encrypt_mapper(b"b?q,y,2,2,|!");
    map.reload(&bytes);
    assert!(!map.is_dirty());
    assert_eq!(all_fields(&map), vec![fields(&entry("b", "q", "y", 2, 2))]);
}

#[test]
fn load_of_garbage_gives_a_partial_map() {
    let map = CompositeMapperFile::new(&[1, 2, 3, 4, 5, 6, 7]);
    assert_eq!(map.len(), 0);
    let map = CompositeMapperFile::new(&tmm::cipher::encrypt_mapper(b"a?p,x,1,1,|!b?q"));
    assert_eq!(map.len(), 1);
    assert!(map.is_truncated());
}

#[test]
fn find_returns_the_only_match() {
    let map = CompositeMapperFile::from_text("a?Pkg.Grp.Sword_C,x,1,1,|Pkg.Grp.Shield,y,2,2,|!");
    match map.find_by_incomplete_path("mods/Other.sword") {
        PathMatch::Unique(e) => assert_eq!(e.composite_name, "x"),
        _ => panic!("expected a unique match"),
    }
    let mut out = CompositeEntry::default();
    assert!(map.get_entry_by_incomplete_object_path("SHIELD", &mut out));
    assert_eq!(fields(&out), fields(&entry("a", "Pkg.Grp.Shield", "y", 2, 2)));
}

#[test]
fn ambiguity_is_no_match() {
    let map = CompositeMapperFile::from_text("a?A.Sword,x,1,1,|B.sword_lod0,y,2,2,|!");
    assert!(matches!(map.find_by_incomplete_path("sword"), PathMatch::Ambiguous));
    let mut out = entry("keep", "keep", "keep", 9, 9);
    assert!(!map.get_entry_by_incomplete_object_path("sword", &mut out));
    assert_eq!(fields(&out), fields(&entry("keep", "keep", "keep", 9, 9)));
}

#[test]
fn no_candidate_is_no_match() {
    let map = CompositeMapperFile::from_text("a?A.Sword,x,1,1,|!");
    assert!(matches!(map.find_by_incomplete_path("axe"), PathMatch::Missing));
    let mut out = CompositeEntry::default();
    assert!(!map.get_entry_by_incomplete_object_path("axe", &mut out));
    assert!(matches!(
        CompositeMapperFile::empty().find_by_incomplete_path("axe"),
        PathMatch::Missing
    ));
}

#[test]
fn apply_patch_redirects_the_entry_in_place() {
    let mut map = CompositeMapperFile::from_text("a?p,x,1,1,|q,y,2,2,|r,z,3,3,|!");
    assert!(!map.is_dirty());
    assert_eq!(map.apply_patch("y", "mod", 40, 50), Ok(()));
    assert!(map.is_dirty());
    assert_eq!(
        all_fields(&map),
        vec![
            fields(&entry("a", "p", "x", 1, 1)),
            fields(&entry("mod", "q", "y", 40, 50)),
            fields(&entry("a", "r", "z", 3, 3)),
        ]
    );
}

#[test]
fn apply_patch_refuses_an_unknown_id() {
    let mut map = CompositeMapperFile::from_text("a?p,x,1,1,|!");
    assert_eq!(map.apply_patch("nope", "mod", 4, 5), Err(MapError::EntryNotFound));
    assert!(!map.is_dirty());
    assert_eq!(all_fields(&map), vec![fields(&entry("a", "p", "x", 1, 1))]);
}

#[test]
fn remove_entry_takes_the_entry_out_and_keeps_the_order() {
    let mut map = CompositeMapperFile::from_text("a?p,x,1,1,|q,y,2,2,|r,z,3,3,|!");
    assert!(map.remove_entry(&entry("", "", "x", 0, 0)));
    assert!(map.is_dirty());
    assert_eq!(
        all_fields(&map),
        vec![fields(&entry("a", "q", "y", 2, 2)), fields(&entry("a", "r", "z", 3, 3))]
    );
    map.set_dirty(false);
    assert!(!map.remove_entry(&entry("", "", "x", 0, 0)));
    assert!(!map.is_dirty());
    assert_eq!(map.len(), 2);
}

#[test]
fn get_finds_by_id() {
    let map = CompositeMapperFile::from_text("a?p,x,1,1,|q,y,2,2,|!");
    assert_eq!(fields(&map.get("y").unwrap()), fields(&entry("a", "q", "y", 2, 2)));
    assert!(map.get("q").is_none());
    assert!(map.entry_at(2).is_none());
    assert!(!map.is_empty());
    assert!(CompositeMapperFile::empty().is_empty());
}

#[test]
fn copy_entries_from_copies_in_order() {
    let source = CompositeMapperFile::from_text("a?p,x,1,1,|q,y,2,2,|!");
    let mut target = CompositeMapperFile::from_text("z?old,o,9,9,|!");
    target.copy_entries_from(&source);
    assert_eq!(all_fields(&target), all_fields(&source));
}

#[test]
fn written_map_reads_back_in_written_order() {
    let mut map = CompositeMapperFile::empty();
    map.insert_entry(entry("S1 Data.gpk", "Art.Pc \u{e9}l\u{e8}ve", "c7d4e1", 900, 0));
    map.insert_entry(entry("", "dropped", "none", 1, 1));
    map.insert_entry(entry("b.gpk", "", "", 0, 0));
    map.insert_entry(entry("S1 Data.gpk", "Art.Npc", "a0", 12, 34));
    let parsed = parse_composite_map(&map.to_text());
    assert!(!parsed.truncated);
    let got: Vec<_> = parsed.entries.iter().map(fields).collect();
    assert_eq!(
        got,
        vec![
            fields(&entry("S1 Data.gpk", "Art.Npc", "a0", 12, 34)),
            fields(&entry("S1 Data.gpk", "Art.Pc \u{e9}l\u{e8}ve", "c7d4e1", 900, 0)),
            fields(&entry("b.gpk", "", "", 0, 0)),
        ]
    );
}

#[test]
fn identifier_that_starts_with_a_bar_does_not_read_back() {
    // the comma in front of it and the bar make a separator
    let mut map = CompositeMapperFile::empty();
    map.insert_entry(entry("c", "p", "|x", 1, 2));
    let parsed = parse_composite_map(&map.to_text());
    assert!(parsed.truncated);
    assert!(parsed.entries.is_empty());
}

#[test]
fn serialize_writes_the_values_of_any_map() {
    let mut map: indexmap::IndexMap<String, CompositeEntry> = indexmap::IndexMap::new();
    map.insert("key two".to_string(), entry("c", "p", "b", 9, 1));
    map.insert("key one".to_string(), entry("d", "q", "a", 3, 2));
    map.insert("key three".to_string(), entry("c", "r", "c", 4, 3));
    let mut out = "old content".to_string();
    CompositeMapperFile::serialize_composite_map_to_string(&map, &mut out, 123);
    assert_eq!(out, "c?r,c,4,3,|p,b,9,1,|!d?q,a,3,2,|!");
    let empty: indexmap::IndexMap<String, CompositeEntry> = indexmap::IndexMap::new();
    CompositeMapperFile::serialize_composite_map_to_string(&empty, &mut out, 0);
    assert_eq!(out, "");
}
