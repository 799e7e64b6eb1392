use tmm::mod_model::{
    encode_utf16, read_composite_package, read_game_config, read_mod_file, write_game_config,
    write_string, CompositePackage, GameConfigFile, ModEntry, ModFile, TfcPackage, WriteError,
    PACKAGE_MAGIC,
};
use tmm::reader::{
    has_bytes, read_i32_at, read_string, read_string_at, read_u16_at, read_u32_at, ByteReader,
    ReadError, MAX_STRLEN,
};

fn i32_bytes(n: i32) -> [u8; 4] {
    n.to_le_bytes()
}

fn ascii_string(s: &str) -> Vec<u8> {
    let mut v = i32_bytes(s.len() as i32).to_vec();
    v.extend_from_slice(s.as_bytes());
    v
}

/// A packed object: 4 bytes, two versions, 4 bytes, the folder name, a payload.
fn packed_object(folder: &str, file_version: u16, licensee: u16, payload: usize) -> Vec<u8> {
    let mut v = vec![0xC1, 0x83, 0x2A, 0x9E];
    v.extend_from_slice(&file_version.to_le_bytes());
    v.extend_from_slice(&licensee.to_le_bytes());
    v.extend_from_slice(&[0, 0, 0, 0]);
    v.extend_from_slice(&ascii_string(folder));
    v.extend(std::iter::repeat(0xAB).take(payload));
    v
}

/// A mod package of the given objects, each given as (folder, payload).
fn packed_mod(name: &str, author: &str, container: &str, objects: &[(&str, usize)]) -> Vec<u8> {
    let mut data = Vec::new();
    let mut offsets = Vec::new();
    for (folder, payload) in objects {
        offsets.push(data.len() as i32);
        data.extend_from_slice(&packed_object(folder, 610, 14, *payload));
    }
    let meta_start = data.len();
    let author_offset = data.len() as i32;
    data.extend_from_slice(&ascii_string(author));
    let name_offset = data.len() as i32;
    data.extend_from_slice(&ascii_string(name));
    let container_offset = data.len() as i32;
    data.extend_from_slice(&ascii_string(container));
    let offsets_offset = data.len() as i32;
    for o in &offsets {
        data.extend_from_slice(&i32_bytes(*o));
    }
    let meta_size = (data.len() + 36 - meta_start) as i32;
    data.extend_from_slice(&i32_bytes(1)); // region lock
    data.extend_from_slice(&i32_bytes(2)); // version
    data.extend_from_slice(&i32_bytes(author_offset));
    data.extend_from_slice(&i32_bytes(name_offset));
    data.extend_from_slice(&i32_bytes(container_offset));
    data.extend_from_slice(&i32_bytes(offsets_offset));
    data.extend_from_slice(&i32_bytes(offsets.len() as i32));
    data.extend_from_slice(&i32_bytes(meta_size));
    data.extend_from_slice(&PACKAGE_MAGIC.to_le_bytes());
    data
}

#[test]
fn little_endian_numbers_are_read_at_a_position() {
    let data = [0xff, 0x01, 0x02, 0x03, 0x04, 0xfe, 0xff, 0xff, 0xff];
    assert_eq!(read_u16_at(&data, 1), Ok(0x0201));
    assert_eq!(read_u32_at(&data, 1), Ok(0x04030201));
    assert_eq!(read_i32_at(&data, 1), Ok(0x04030201));
    assert_eq!(read_i32_at(&data, 5), Ok(-2));
    assert_eq!(read_u32_at(&data, 5), Ok(0xfffffffe));
    assert_eq!(read_u16_at(&data, 7), Ok(0xffff));
    assert_eq!(read_u16_at(&data, 8), Err(ReadError::UnexpectedEof));
    assert_eq!(read_i32_at(&data, 6), Err(ReadError::UnexpectedEof));
    assert_eq!(read_u32_at(&data, usize::MAX), Err(ReadError::UnexpectedEof));
    assert!(has_bytes(&data, 9, 0));
    assert!(!has_bytes(&data, 10, 0));
    assert!(has_bytes(&data, 0, 9));
    assert!(!has_bytes(&data, 1, 9));
}

#[test]
fn read_string_reads_bytes_of_utf8() {
    let mut data = ascii_string("hello");
    data.extend_from_slice(&[9, 9]);
    let mut r = ByteReader::new(&data);
    assert_eq!(read_string(&mut r), Ok("hello".to_string()));
    assert_eq!(r.pos, 9);
}

#[test]
fn read_string_of_length_zero_is_empty() {
    let data = [0u8, 0, 0, 0, 7];
    assert_eq!(read_string_at(&data, 0), Ok((String::new(), 4)));
}

#[test]
fn read_string_drops_one_trailing_nul() {
    let data = ascii_string("ab\0\0");
    assert_eq!(read_string_at(&data, 0), Ok(("ab\0".to_string(), 8)));
    let data = ascii_string("\0");
    assert_eq!(read_string_at(&data, 0), Ok((String::new(), 5)));
}

#[test]
fn read_string_reads_units_of_utf16() {
    let mut data = i32_bytes(-3).to_vec();
    for u in [0x0041u16, 0x4e16, 0x0000] {
        data.extend_from_slice(&u.to_le_bytes());
    }
    assert_eq!(read_string_at(&data, 0), Ok(("A\u{4e16}".to_string(), 10)));
    // an unpaired surrogate is replaced
    let mut data = i32_bytes(-2).to_vec();
    for u in [0xd800u16, 0x0042] {
        data.extend_from_slice(&u.to_le_bytes());
    }
    assert_eq!(read_string_at(&data, 0), Ok(("\u{fffd}B".to_string(), 8)));
}

#[test]
fn read_string_replaces_malformed_utf8() {
    let mut data = i32_bytes(3).to_vec();
    data.extend_from_slice(&[b'a', 0xff, b'b']);
    assert_eq!(read_string_at(&data, 0), Ok(("a\u{fffd}b".to_string(), 7)));
}

#[test]
fn read_string_refuses_what_is_too_long() {
    assert_eq!(MAX_STRLEN, 1024);
    let mut data = i32_bytes(1025).to_vec();
    data.extend(std::iter::repeat(b'x').take(1025));
    assert_eq!(read_string_at(&data, 0), Err(ReadError::StringTooLong));
    let mut data = i32_bytes(-1025).to_vec();
    data.extend(std::iter::repeat(b'x').take(2050));
    assert_eq!(read_string_at(&data, 0), Err(ReadError::StringTooLong));
    assert_eq!(read_string_at(&i32_bytes(i32::MIN), 0), Err(ReadError::StringTooLong));
    let mut data = i32_bytes(1024).to_vec();
    data.extend(std::iter::repeat(b'x').take(1024));
    assert_eq!(read_string_at(&data, 0).unwrap().0.len(), 1024);
}

#[test]
fn read_string_refuses_what_ends_early() {
    assert_eq!(read_string_at(&[1, 0, 0], 0), Err(ReadError::UnexpectedEof));
    let mut data = i32_bytes(4).to_vec();
    data.extend_from_slice(b"abc");
    assert_eq!(read_string_at(&data, 0), Err(ReadError::UnexpectedEof));
    let mut r = ByteReader::new(&data);
    assert_eq!(read_string(&mut r), Err(ReadError::UnexpectedEof));
    assert_eq!(r.pos, 0);
    let mut data = i32_bytes(-2).to_vec();
    data.extend_from_slice(&[1, 0, 2]);
    assert_eq!(read_string_at(&data, 0), Err(ReadError::UnexpectedEof));
}

#[test]
fn byte_reader_reads_numbers_in_turn() {
    let data = [1u8, 0, 0, 0, 0xff, 0xff, 0xff, 0xff, 5];
    let mut r = ByteReader::new(&data);
    assert_eq!(r.read_i32(), Ok(1));
    assert_eq!(r.read_i32(), Ok(-1));
    assert_eq!(r.read_i32(), Err(ReadError::UnexpectedEof));
    assert_eq!(r.pos, 8);
}

#[test]
fn write_string_writes_ascii_as_bytes() {
    let mut out = vec![7u8];
    assert_eq!(write_string(&mut out, "abc"), Ok(()));
    assert_eq!(out, vec![7, 3, 0, 0, 0, b'a', b'b', b'c']);
    let mut out = Vec::new();
    assert_eq!(write_string(&mut out, ""), Ok(()));
    assert_eq!(out, vec![0, 0, 0, 0]);
}

#[test]
fn write_string_writes_other_text_as_utf16() {
    let mut out = Vec::new();
    assert_eq!(write_string(&mut out, "A\u{e9}\u{1f600}"), Ok(()));
    assert_eq!(
        out,
        vec![0xfc, 0xff, 0xff, 0xff, 0x41, 0x00, 0xe9, 0x00, 0x3d, 0xd8, 0x00, 0xde]
    );
}

#[test]
fn encode_utf16_agrees_with_std() {
    for s in ["", "plain", "\u{e9}t\u{e9}", "\u{ffff}\u{10000}\u{10ffff}", "a\u{1f600}b"] {
        let expected: Vec<u16> = s.encode_utf16().collect();
        assert_eq!(encode_utf16(s), expected);
    }
}

#[test]
fn written_string_reads_back() {
    for s in ["", "S1_Elin.gpk", "\u{4e16}\u{754c}", "mixed \u{1f600}"] {
        let mut out = Vec::new();
        write_string(&mut out, s).unwrap();
        assert_eq!(read_string_at(&out, 0), Ok((s.to_string(), out.len())));
    }
}

#[test]
fn read_composite_package_reads_versions_and_path() {
    let mut data = vec![0u8; 3];
    data.extend_from_slice(&packed_object("MOD:Pkg.Grp.Obj", 610, 14, 5));
    let p = read_composite_package(&data, 3).unwrap();
    assert_eq!(
        p,
        CompositePackage {
            object_path: "Pkg.Grp.Obj".to_string(),
            offset: 3,
            size: 0,
            file_version: 610,
            licensee_version: 14,
        }
    );
    let data = packed_object("None", 1, 2, 0);
    let p = read_composite_package(&data, 0).unwrap();
    assert_eq!(p.object_path, "");
    assert_eq!((p.file_version, p.licensee_version), (1, 2));
    assert_eq!(read_composite_package(&data[..7], 0), Err(ReadError::UnexpectedEof));
    assert_eq!(read_composite_package(&data[..13], 0), Err(ReadError::UnexpectedEof));
}

#[test]
fn read_mod_file_reads_a_package_with_footer() {
    let data = packed_mod("Nice Mod", "Someone", "nicemod", &[("MOD:A.B.One", 10), ("MOD:A.B.Two", 20)]);
    let first_len = packed_object("MOD:A.B.One", 610, 14, 10).len();
    let second_len = packed_object("MOD:A.B.Two", 610, 14, 20).len();
    let mut m = ModFile::default();
    m.tfc_packages.push(TfcPackage { offset: 1, size: 2, idx: 3, idx_offset: 4 });
    assert_eq!(read_mod_file(&data, &mut m), Ok(()));
    assert!(m.region_lock);
    assert_eq!(m.mod_file_version, 2);
    assert_eq!(m.mod_name, "Nice Mod");
    assert_eq!(m.mod_author, "Someone");
    assert_eq!(m.container, "nicemod");
    assert_eq!(m.tfc_packages, vec![TfcPackage { offset: 1, size: 2, idx: 3, idx_offset: 4 }]);
    assert_eq!(
        m.packages,
        vec![
            CompositePackage {
                object_path: "A.B.One".to_string(),
                offset: 0,
                size: first_len,
                file_version: 610,
                licensee_version: 14,
            },
            CompositePackage {
                object_path: "A.B.Two".to_string(),
                offset: first_len,
                size: second_len,
                file_version: 610,
                licensee_version: 14,
            },
        ]
    );
}

#[test]
fn read_mod_file_reads_a_package_without_objects() {
    // four bytes in front of the metadata: the least that the footer allows
    let mut data = vec![0u8; 4];
    let body = packed_mod("n", "a", "c", &[]);
    data.extend_from_slice(&body);
    let end = data.len();
    for back in [16usize, 20, 24, 28] {
        let at = i32::from_le_bytes(data[end - back..end - back + 4].try_into().unwrap());
        data[end - back..end - back + 4].copy_from_slice(&i32_bytes(at + 4));
    }
    let mut m = ModFile::default();
    assert_eq!(read_mod_file(&data, &mut m), Ok(()));
    assert!(m.packages.is_empty());
    assert_eq!(m.container, "c");
    assert_eq!(m.mod_name, "n");
    assert_eq!(m.mod_author, "a");
}

#[test]
fn read_mod_file_refuses_metadata_that_fills_the_file() {
    let data = packed_mod("n", "a", "c", &[]);
    let mut m = ModFile::default();
    assert_eq!(read_mod_file(&data, &mut m), Err(ReadError::Malformed));
}

#[test]
fn read_mod_file_takes_a_file_without_footer_as_one_object() {
    let data = packed_object("MOD:A.B.Raw", 7, 8, 30);
    let mut m = ModFile::default();
    m.mod_name = "kept".to_string();
    assert_eq!(read_mod_file(&data, &mut m), Ok(()));
    assert_eq!(m.mod_name, "kept");
    assert_eq!(
        m.packages,
        vec![CompositePackage {
            object_path: "A.B.Raw".to_string(),
            offset: 0,
            size: data.len(),
            file_version: 7,
            licensee_version: 8,
        }]
    );
}

#[test]
fn read_mod_file_refuses_and_keeps_the_mod_file() {
    let mut m = ModFile::default();
    m.mod_name = "kept".to_string();
    let before = m.clone();
    assert_eq!(read_mod_file(&[], &mut m), Err(ReadError::UnexpectedEof));
    assert_eq!(read_mod_file(&[1, 2, 3], &mut m), Err(ReadError::UnexpectedEof));
    assert_eq!(read_mod_file(&[1, 2, 3, 4, 5], &mut m), Err(ReadError::UnexpectedEof));
    // only the magic: too short for a footer
    assert_eq!(
        read_mod_file(&PACKAGE_MAGIC.to_le_bytes(), &mut m),
        Err(ReadError::UnexpectedEof)
    );
    assert_eq!(m, before);
}

#[test]
fn read_mod_file_refuses_a_malformed_footer() {
    let good = packed_mod("n", "a", "c", &[("MOD:A.B.One", 10), ("MOD:A.B.Two", 20)]);
    let end = good.len();
    let mut m = ModFile::default();
    // negative count
    let mut data = good.clone();
    data[end - 12..end - 8].copy_from_slice(&i32_bytes(-1));
    assert_eq!(read_mod_file(&data, &mut m), Err(ReadError::Malformed));
    // more metadata than the file has
    let mut data = good.clone();
    data[end - 8..end - 4].copy_from_slice(&i32_bytes(end as i32));
    assert_eq!(read_mod_file(&data, &mut m), Err(ReadError::Malformed));
    // author behind the end
    let mut data = good.clone();
    data[end - 28..end - 24].copy_from_slice(&i32_bytes(end as i32));
    assert_eq!(read_mod_file(&data, &mut m), Err(ReadError::UnexpectedEof));
    // more offsets than the file has
    let mut data = good.clone();
    data[end - 12..end - 8].copy_from_slice(&i32_bytes(1000));
    assert!(read_mod_file(&data, &mut m).is_err());
    // offsets out of order
    let mut data = good.clone();
    let table = i32::from_le_bytes(data[end - 16..end - 12].try_into().unwrap()) as usize;
    let second = data[table + 4..table + 8].to_vec();
    let first = data[table..table + 4].to_vec();
    data[table..table + 4].copy_from_slice(&second);
    data[table + 4..table + 8].copy_from_slice(&first);
    assert_eq!(read_mod_file(&data, &mut m), Err(ReadError::Malformed));
    // a negative offset
    let mut data = good.clone();
    data[table..table + 4].copy_from_slice(&i32_bytes(-5));
    assert_eq!(read_mod_file(&data, &mut m), Err(ReadError::Malformed));
    assert_eq!(m, ModFile::default());
}

fn listed(file: &str, enabled: bool, name: &str, container: &str) -> ModEntry {
    let mut mod_file = ModFile::default();
    mod_file.mod_name = name.to_string();
    mod_file.container = container.to_string();
    ModEntry { file: file.to_string(), enabled, mod_file }
}

#[test]
fn write_game_config_writes_count_mods_and_magic() {
    let cfg = GameConfigFile { mods: vec![listed("a.gpk", true, "A", "a")] };
    let mut out = Vec::new();
    assert_eq!(write_game_config(&cfg, &mut out), Ok(()));
    let mut expected = vec![1u8, 0, 0, 0, 1, 0, 0, 0];
    expected.extend_from_slice(&ascii_string("a.gpk"));
    expected.extend_from_slice(&ascii_string("A"));
    expected.extend_from_slice(&ascii_string("a"));
    expected.extend_from_slice(&[0xC1, 0x83, 0x2A, 0x9E]);
    assert_eq!(out, expected);
}

#[test]
fn game_config_round_trip() {
    let mut full = listed("b.gpk", false, "B \u{4e16}", "");
    full.mod_file.mod_author = "not saved".to_string();
    full.mod_file.packages.push(CompositePackage::default());
    let cfg = GameConfigFile { mods: vec![listed("a.gpk", true, "A", "a"), full] };
    let mut out = vec![0xEE];
    write_game_config(&cfg, &mut out).unwrap();
    let mut r = ByteReader { data: &out, pos: 1 };
    let read = read_game_config(&mut r).unwrap();
    assert_eq!(r.pos, out.len() - 4);
    assert_eq!(
        read,
        GameConfigFile {
            mods: vec![listed("a.gpk", true, "A", "a"), listed("b.gpk", false, "B \u{4e16}", "")]
        }
    );
}

#[test]
fn read_game_config_of_empty_list() {
    let data = [0u8, 0, 0, 0];
    let mut r = ByteReader::new(&data);
    assert_eq!(read_game_config(&mut r), Ok(GameConfigFile::default()));
    assert_eq!(r.pos, 4);
}

#[test]
fn read_game_config_refuses_bad_lists() {
    let mut r = ByteReader::new(&[1, 0]);
    assert_eq!(read_game_config(&mut r), Err(ReadError::UnexpectedEof));
    let data = i32_bytes(-1);
    let mut r = ByteReader::new(&data);
    assert_eq!(read_game_config(&mut r), Err(ReadError::Malformed));
    let mut data = i32_bytes(2).to_vec();
    data.extend_from_slice(&i32_bytes(1));
    data.extend_from_slice(&ascii_string("a.gpk"));
    data.extend_from_slice(&ascii_string("A"));
    data.extend_from_slice(&ascii_string("a"));
    let mut r = ByteReader::new(&data);
    assert_eq!(read_game_config(&mut r), Err(ReadError::UnexpectedEof));
    assert_eq!(r.pos, 0);
    let mut data = i32_bytes(1).to_vec();
    data.extend_from_slice(&i32_bytes(1));
    data.extend_from_slice(&i32_bytes(5000));
    let mut r = ByteReader::new(&data);
    assert_eq!(read_game_config(&mut r), Err(ReadError::StringTooLong));
}

#[test]
fn write_error_is_the_only_failure() {
    assert_eq!(WriteError::TooLong, WriteError::TooLong);
    let cfg = GameConfigFile::default();
    let mut out = Vec::new();
    assert_eq!(write_game_config(&cfg, &mut out), Ok(()));
    assert_eq!(out, vec![0, 0, 0, 0, 0xC1, 0x83, 0x2A, 0x9E]);
}

#[test]
fn clones_and_defaults_keep_the_fields() {
    let e = listed("a.gpk", true, "A", "a");
    assert_eq!(e.clone(), e);
    assert_eq!(ModEntry::default(), listed("", false, "", ""));
    assert_eq!(TfcPackage::default(), TfcPackage { offset: 0, size: 0, idx: 0, idx_offset: 0 });
    let cfg = GameConfigFile { mods: vec![e] };
    assert_eq!(cfg.clone(), cfg);
}
