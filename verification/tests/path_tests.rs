use tmm::utils::{ascii_eq_ignore_case, incomplete_paths_equal, normalize_object_name};

#[test]
fn normalize_takes_the_last_dotted_part() {
    assert_eq!(normalize_object_name("Package.Group.Weapon_C"), "Weapon");
    assert_eq!(normalize_object_name("other/Package.Group.weapon"), "weapon");
    assert_eq!(normalize_object_name("plain"), "plain");
    assert_eq!(normalize_object_name("dir/sub/name"), "name");
    assert_eq!(normalize_object_name(""), "");
    assert_eq!(normalize_object_name("a.b/c.d"), "d");
    assert_eq!(normalize_object_name("a/b.c."), "");
}

#[test]
fn normalize_strips_each_suffix_once_in_order() {
    assert_eq!(normalize_object_name("Mesh_lod0"), "Mesh");
    assert_eq!(normalize_object_name("Mesh_lod3"), "Mesh");
    assert_eq!(normalize_object_name("Mesh_dup"), "Mesh");
    assert_eq!(normalize_object_name("Mesh_lod0_C"), "Mesh");
    assert_eq!(normalize_object_name("Mesh_C_lod0"), "Mesh_C");
    assert_eq!(normalize_object_name("Mesh_C_C"), "Mesh_C");
    assert_eq!(normalize_object_name("Mesh_c"), "Mesh_c");
    assert_eq!(normalize_object_name("_C"), "");
}

#[test]
fn path_normalization_example() {
    assert!(incomplete_paths_equal(
        "Package.Group.Weapon_C",
        "other/Package.Group.weapon"
    ));
    assert!(ascii_eq_ignore_case(
        &normalize_object_name("Package.Group.Weapon_C"),
        "weapon"
    ));
    assert!(ascii_eq_ignore_case(
        &normalize_object_name("other/Package.Group.weapon"),
        "weapon"
    ));
}

#[test]
fn ascii_comparison_ignores_only_ascii_case() {
    assert!(ascii_eq_ignore_case("", ""));
    assert!(ascii_eq_ignore_case("Sword", "sWORD"));
    assert!(!ascii_eq_ignore_case("Sword", "Swords"));
    assert!(!ascii_eq_ignore_case("a", "b"));
    assert!(!ascii_eq_ignore_case("\u{e9}", "\u{c9}"));
    assert!(ascii_eq_ignore_case("\u{e9}A", "\u{e9}a"));
    assert!(!ascii_eq_ignore_case("\u{e9}", "ab"));
    assert!(!ascii_eq_ignore_case("[", "{"));
    assert!(!ascii_eq_ignore_case("@", "`"));
}

#[test]
fn different_names_do_not_match() {
    assert!(!incomplete_paths_equal("A.B.Sword", "A.B.Shield"));
    assert!(incomplete_paths_equal("A.B.Sword_lod1", "sword"));
}
