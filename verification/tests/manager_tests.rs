use tmm::composite_mapper::{CompositeMapperFile, MapError};
use tmm::entry::CompositeEntry;
use tmm::manager::{
    backup_composite_mapper, check_tera, raw_fallback_packages, scan_mod_file, BackupAction,
    GameEvent, TmmApp,
};
use tmm::mod_model::{CompositePackage, ModEntry, ModFile};

const CLEAN: &str = "base.gpk?Pkg.A,idA,100,10,|Pkg.B,idB,200,20,|!other.gpk?Pkg.C,idC,300,30,|!";

fn package(path: &str, offset: usize, size: usize) -> CompositePackage {
    CompositePackage {
        object_path: path.to_string(),
        offset,
        size,
        file_version: 0,
        licensee_version: 0,
    }
}

fn a_mod(file: &str, container: &str, packages: Vec<CompositePackage>) -> ModEntry {
    let mut mod_file = ModFile::default();
    mod_file.mod_name = file.to_string();
    mod_file.container = container.to_string();
    mod_file.packages = packages;
    ModEntry { file: file.to_string(), enabled: false, mod_file }
}

fn session(active: &str, backup: &str, mods: Vec<ModEntry>) -> TmmApp {
    let mut app = TmmApp::new();
    app.set_maps(
        CompositeMapperFile::from_text(active),
        CompositeMapperFile::from_text(backup),
    );
    app.set_mod_list(mods);
    app
}

fn location(app: &TmmApp, id: &str) -> (String, usize, usize) {
    let e: CompositeEntry = app.composite_map().get(id).unwrap();
    (e.filename, e.offset, e.size)
}

fn enabled(app: &TmmApp) -> Vec<bool> {
    app.mod_list().iter().map(|m| m.enabled).collect()
}

#[test]
fn new_session_is_empty() {
    let app = TmmApp::new();
    assert!(app.composite_map().is_empty());
    assert!(app.backup_map().is_empty());
    assert!(app.mod_list().is_empty());
    assert!(app.game_config().mods.is_empty());
    assert!(!app.wait_for_tera());
    assert!(!app.tera_running());
    assert_eq!(app.commit_changes(), None);
}

#[test]
fn turn_on_redirects_the_declared_objects() {
    let m = a_mod("m1.gpk", "m1", vec![package("x/Pkg.a_C", 1, 2), package("Pkg.Missing", 3, 4), package("Pkg.C", 5, 6)]);
    let mut app = session(CLEAN, CLEAN, vec![]);
    assert_eq!(app.turn_on_mod(&m.mod_file), Ok(vec!["Pkg.Missing".to_string()]));
    assert_eq!(location(&app, "idA"), ("m1".to_string(), 1, 2));
    assert_eq!(location(&app, "idB"), ("base.gpk".to_string(), 200, 20));
    assert_eq!(location(&app, "idC"), ("m1".to_string(), 5, 6));
    assert!(app.composite_map().is_dirty());
    assert_eq!(app.composite_map().len(), 3);
}

#[test]
fn turn_on_passes_over_an_ambiguous_object() {
    let active = "base.gpk?One.Sword,s1,1,1,|Two.sword_lod0,s2,2,2,|!";
    let m = a_mod("m.gpk", "m", vec![package("Sword", 9, 9)]);
    let mut app = session(active, active, vec![]);
    assert_eq!(app.turn_on_mod(&m.mod_file), Ok(vec!["Sword".to_string()]));
    assert_eq!(location(&app, "s1"), ("base.gpk".to_string(), 1, 1));
    assert_eq!(location(&app, "s2"), ("base.gpk".to_string(), 2, 2));
    assert!(!app.composite_map().is_dirty());
}

#[test]
fn later_package_overwrites_an_earlier_one() {
    let m = a_mod("m.gpk", "m", vec![package("Pkg.A", 1, 1), package("Pkg.A", 2, 2)]);
    let mut app = session(CLEAN, CLEAN, vec![]);
    app.turn_on_mod(&m.mod_file).unwrap();
    assert_eq!(location(&app, "idA"), ("m".to_string(), 2, 2));
}

#[test]
fn revert_to_origin() {
    let m = a_mod("m1.gpk", "m1", vec![package("Pkg.A", 1, 2)]);
    let mut app = session(CLEAN, CLEAN, vec![]);
    app.turn_on_mod(&m.mod_file).unwrap();
    assert_eq!(location(&app, "idA"), ("m1".to_string(), 1, 2));
    assert_eq!(app.turn_off_mod(&m.mod_file, false), Ok(vec![]));
    assert_eq!(location(&app, "idA"), ("base.gpk".to_string(), 100, 10));
    assert_eq!(app.composite_map().to_text(), CLEAN);
}

#[test]
fn turn_off_removes_an_entry_that_the_backup_lacks() {
    let active = "base.gpk?Pkg.A,idA,100,10,|!new.gpk?Pkg.New,idN,1,1,|!";
    let backup = "base.gpk?Pkg.A,idA,100,10,|!";
    let m = a_mod("m.gpk", "m", vec![package("Pkg.New", 0, 0), package("Pkg.Nowhere", 0, 0)]);
    let mut app = session(active, backup, vec![]);
    assert_eq!(app.turn_off_mod(&m.mod_file, true), Ok(vec![]));
    assert!(app.composite_map().get("idN").is_none());
    assert_eq!(app.composite_map().len(), 1);
    assert!(app.composite_map().is_dirty());
}

#[test]
fn turn_off_goes_on_where_the_active_map_lacks_the_entry() {
    let active = "base.gpk?Pkg.B,idB,7,7,|!";
    let m = a_mod("m.gpk", "m", vec![package("Pkg.A", 0, 0), package("Pkg.B", 0, 0)]);
    let mut app = session(active, CLEAN, vec![]);
    assert_eq!(app.turn_off_mod(&m.mod_file, false), Ok(vec![]));
    assert_eq!(location(&app, "idB"), ("base.gpk".to_string(), 200, 20));
    assert_eq!(app.composite_map().len(), 1);
}

#[test]
fn turn_off_tells_what_neither_map_answers_for_unless_silent() {
    let m = a_mod("m.gpk", "m", vec![package("Pkg.Nowhere", 0, 0), package("Pkg.A", 0, 0), package("Pkg.Gone", 0, 0)]);
    let mut app = session(CLEAN, CLEAN, vec![]);
    assert_eq!(
        app.turn_off_mod(&m.mod_file, false),
        Ok(vec!["Pkg.Nowhere".to_string(), "Pkg.Gone".to_string()])
    );
    assert_eq!(app.turn_off_mod(&m.mod_file, true), Ok(vec![]));
}

#[test]
fn find_conflicting_indices_lists_enabled_mods_that_share_a_path() {
    let mut m0 = a_mod("m0.gpk", "m0", vec![package("Pkg.A", 1, 1)]);
    let mut m1 = a_mod("m1.gpk", "m1", vec![package("Pkg.B", 1, 1), package("Pkg.A", 1, 1)]);
    let m2 = a_mod("m2.gpk", "m2", vec![package("Pkg.A", 1, 1)]);
    let mut m3 = a_mod("m3.gpk", "m3", vec![package("Pkg.C", 1, 1)]);
    m0.enabled = true;
    m1.enabled = true;
    m3.enabled = true;
    let app = session(CLEAN, CLEAN, vec![m0, m1, m2, m3]);
    assert_eq!(app.find_conflicting_indices(&vec![package("Pkg.A", 0, 0), package("Pkg.B", 0, 0)]), vec![0, 1]);
    assert_eq!(app.find_conflicting_indices(&vec![package("Pkg.C", 0, 0)]), vec![3]);
    assert_eq!(app.find_conflicting_indices(&vec![package("pkg.a", 0, 0)]), Vec::<usize>::new());
    assert_eq!(app.find_conflicting_indices(&vec![]), Vec::<usize>::new());
}

#[test]
fn conflict_resolution_scenario() {
    let m1 = a_mod("m1.gpk", "m1", vec![package("Pkg.A", 1, 2)]);
    let m2 = a_mod("m2.gpk", "m2", vec![package("Pkg.A", 3, 4)]);
    let mut app = session(CLEAN, CLEAN, vec![m1, m2]);
    assert_eq!(app.enable_mod_safely(0), Ok(()));
    assert_eq!(enabled(&app), vec![true, false]);
    assert_eq!(location(&app, "idA"), ("m1".to_string(), 1, 2));
    assert_eq!(app.enable_mod_safely(1), Ok(()));
    assert_eq!(enabled(&app), vec![false, true]);
    assert_eq!(location(&app, "idA"), ("m2".to_string(), 3, 4));
    assert!(app.composite_map().is_dirty());
    let saved: Vec<bool> = app.game_config().mods.iter().map(|m| m.enabled).collect();
    assert_eq!(saved, vec![false, true]);
}

#[test]
fn conflicting_mod_is_reverted_before_the_enable() {
    // m1 also patches B; enabling m2, which shares only A, gives B back too
    let m1 = a_mod("m1.gpk", "m1", vec![package("Pkg.A", 1, 2), package("Pkg.B", 5, 6)]);
    let m2 = a_mod("m2.gpk", "m2", vec![package("Pkg.A", 3, 4)]);
    let mut app = session(CLEAN, CLEAN, vec![m1, m2]);
    app.enable_mod_safely(0).unwrap();
    assert_eq!(location(&app, "idB"), ("m1".to_string(), 5, 6));
    app.enable_mod_safely(1).unwrap();
    assert_eq!(location(&app, "idA"), ("m2".to_string(), 3, 4));
    assert_eq!(location(&app, "idB"), ("base.gpk".to_string(), 200, 20));
}

#[test]
fn enabling_an_enabled_mod_keeps_it_enabled() {
    let mut m1 = a_mod("m1.gpk", "m1", vec![package("Pkg.A", 1, 2)]);
    m1.enabled = true;
    let mut app = session(CLEAN, CLEAN, vec![m1]);
    app.enable_mod_safely(0).unwrap();
    assert_eq!(enabled(&app), vec![true]);
    assert_eq!(location(&app, "idA"), ("m1".to_string(), 1, 2));
}

#[test]
fn enable_outside_the_list_changes_nothing() {
    let m1 = a_mod("m1.gpk", "m1", vec![package("Pkg.A", 1, 2)]);
    let mut app = session(CLEAN, CLEAN, vec![m1]);
    assert_eq!(app.enable_mod_safely(1), Ok(()));
    assert_eq!(enabled(&app), vec![false]);
    assert!(!app.composite_map().is_dirty());
    assert_eq!(app.composite_map().to_text(), CLEAN);
}

#[test]
fn full_reapply_is_idempotent() {
    let mut m1 = a_mod("m1.gpk", "m1", vec![package("Pkg.A", 1, 2), package("Pkg.C", 7, 8)]);
    let mut m2 = a_mod("m2.gpk", "m2", vec![package("Pkg.A", 3, 4)]);
    let m3 = a_mod("m3.gpk", "m3", vec![package("Pkg.B", 5, 6)]);
    m1.enabled = true;
    m2.enabled = true;
    let stale = "junk.gpk?Junk,j,1,1,|!";
    let mut app = session(stale, CLEAN, vec![m1, m2, m3]);
    assert_eq!(app.apply_enabled_mods(), Ok(()));
    let first = app.save_button();
    let first_text = app.composite_map().to_text();
    assert_eq!(app.apply_enabled_mods(), Ok(()));
    assert_eq!(app.save_button(), first);
    assert_eq!(app.composite_map().to_text(), first_text);
    // last writer wins, the disabled mod is not applied
    assert_eq!(
        first_text,
        "m2?Pkg.A,idA,3,4,|!base.gpk?Pkg.B,idB,200,20,|!m1?Pkg.C,idC,7,8,|!"
    );
    assert!(app.composite_map().is_dirty());
}

#[test]
fn reapply_of_empty_backup_leaves_the_map_clean() {
    let mut app = session(CLEAN, "", vec![]);
    app.apply_enabled_mods().unwrap();
    assert!(app.composite_map().is_empty());
    assert!(!app.composite_map().is_dirty());
}

#[test]
fn disable_all_mods_reverts_every_enabled_mod() {
    let m1 = a_mod("m1.gpk", "m1", vec![package("Pkg.A", 1, 2)]);
    let m2 = a_mod("m2.gpk", "m2", vec![package("Pkg.B", 3, 4)]);
    let m3 = a_mod("m3.gpk", "m3", vec![package("Pkg.C", 5, 6)]);
    let mut app = session(CLEAN, CLEAN, vec![m1, m2, m3]);
    app.enable_mod_safely(0).unwrap();
    app.enable_mod_safely(2).unwrap();
    app.commit_done();
    assert!(app.disable_all_mods());
    assert_eq!(enabled(&app), vec![false, false, false]);
    assert_eq!(app.composite_map().to_text(), CLEAN);
    assert!(app.composite_map().is_dirty());
    assert_eq!(app.game_config().mods.len(), 3);
    app.commit_done();
    assert!(!app.disable_all_mods());
    assert!(!app.composite_map().is_dirty());
}

#[test]
fn missing_backup_restore() {
    let app = session(CLEAN, CLEAN, vec![]);
    assert_eq!(app.restore_composite_mapper(None), Err(MapError::BackupMissing));
    assert_eq!(app.restore_composite_mapper(Some(&[1, 2, 3])), Ok(vec![1, 2, 3]));
    assert_eq!(app.composite_map().to_text(), CLEAN);
}

#[test]
fn commit_gives_bytes_only_for_a_changed_map() {
    let mut app = session(CLEAN, CLEAN, vec![]);
    assert_eq!(app.commit_changes(), None);
    app.mark_dirty();
    let bytes = app.commit_changes().unwrap();
    assert_eq!(bytes, tmm::cipher::encrypt_mapper(CLEAN.as_bytes()));
    assert!(app.composite_map().is_dirty());
    app.commit_done();
    assert_eq!(app.commit_changes(), None);
    assert_eq!(app.save_button(), bytes);
}

#[test]
fn game_poll_tells_launch_and_close() {
    let mut app = TmmApp::new();
    assert_eq!(app.on_game_poll(false), GameEvent::Unchanged);
    assert_eq!(app.on_game_poll(true), GameEvent::Launched);
    assert!(app.tera_running());
    assert_eq!(app.on_game_poll(true), GameEvent::Unchanged);
    assert_eq!(app.on_game_poll(false), GameEvent::Closed);
    assert!(!app.tera_running());
}

#[test]
fn game_launch_applies_the_enabled_mods() {
    let mut m1 = a_mod("m1.gpk", "m1", vec![package("Pkg.A", 1, 2)]);
    m1.enabled = true;
    let mut app = session("", CLEAN, vec![m1]);
    let bytes = app.on_game_launched();
    let text = "m1?Pkg.A,idA,1,2,|!base.gpk?Pkg.B,idB,200,20,|!other.gpk?Pkg.C,idC,300,30,|!";
    assert_eq!(app.composite_map().to_text(), text);
    assert_eq!(bytes, tmm::cipher::encrypt_mapper(text.as_bytes()));
}

#[test]
fn game_close_restores_the_backup_when_waiting() {
    let backup_file = tmm::cipher::encrypt_mapper(CLEAN.as_bytes());
    let mut m1 = a_mod("m1.gpk", "m1", vec![package("Pkg.A", 1, 2)]);
    m1.enabled = true;
    let mut app = session(CLEAN, CLEAN, vec![m1]);
    app.apply_enabled_mods().unwrap();
    // applied at all times: closing the game changes nothing
    assert_eq!(app.on_game_closed(Some(&backup_file)), Ok(None));
    assert_eq!(location(&app, "idA"), ("m1".to_string(), 1, 2));
    app.set_wait_for_tera(true);
    assert_eq!(app.on_game_closed(None), Err(MapError::BackupMissing));
    assert_eq!(location(&app, "idA"), ("m1".to_string(), 1, 2));
    assert_eq!(app.on_game_closed(Some(&backup_file)), Ok(Some(backup_file.clone())));
    assert_eq!(app.composite_map().to_text(), CLEAN);
    assert!(!app.composite_map().is_dirty());
    assert_eq!(enabled(&app), vec![true]);
}

#[test]
fn raw_fallback_matches_container_stems_without_case() {
    let text = "S1_Elin.gpk?Pkg.A,idA,1,1,|!Other.gpk?Pkg.B,idB,2,2,|!s1_elin_hair.gpk.gpk?Pkg.C,idC,3,3,|!";
    let map = CompositeMapperFile::from_text(text);
    let got = raw_fallback_packages(&map, "S1_ELIN_Mod.gpk");
    assert_eq!(got, vec![package("Pkg.A", 0, 0)]);
    let got = raw_fallback_packages(&map, "elin.gpk");
    assert_eq!(got, vec![package("Pkg.A", 0, 0), package("Pkg.C", 0, 0)]);
    assert!(raw_fallback_packages(&map, "nothing.gpk").is_empty());
    // the empty stem occurs in every stem
    assert_eq!(raw_fallback_packages(&map, ".gpk").len(), 3);
}

fn raw_object(folder: &str) -> Vec<u8> {
    let mut v = vec![0u8; 12];
    v.extend_from_slice(&(folder.len() as i32).to_le_bytes());
    v.extend_from_slice(folder.as_bytes());
    v
}

#[test]
fn install_of_a_readable_package_turns_it_on() {
    let data = raw_object("MOD:Pkg.A");
    let mut m1 = a_mod("m1.gpk", "m1", vec![package("Pkg.A", 1, 2)]);
    m1.enabled = true;
    let mut app = session(CLEAN, CLEAN, vec![m1]);
    app.apply_enabled_mods().unwrap();
    assert!(app.install_mod("Fancy.gpk.gpk", &data));
    assert_eq!(enabled(&app), vec![false, true]);
    let installed = &app.mod_list()[1];
    assert_eq!(installed.file, "Fancy.gpk.gpk");
    assert_eq!(installed.mod_file.container, "Fancy");
    assert_eq!(installed.mod_file.mod_name, "");
    assert_eq!(installed.mod_file.packages, vec![package("Pkg.A", 0, data.len())]);
    assert_eq!(location(&app, "idA"), ("Fancy".to_string(), 0, data.len()));
    assert!(app.composite_map().is_dirty());
    assert_eq!(app.game_config().mods.len(), 1);
    assert_eq!(app.game_config().mods[0].file, "Fancy.gpk.gpk");
}

#[test]
fn install_of_an_unreadable_package_goes_by_its_name() {
    let mut app = session(CLEAN, CLEAN, vec![]);
    assert!(!app.install_mod("unknown.gpk", &[1, 2, 3]));
    assert!(app.mod_list().is_empty());
    assert!(!app.composite_map().is_dirty());
    assert!(app.install_mod("OTHER.gpk", &[1, 2, 3]));
    let installed = &app.mod_list()[0];
    assert!(installed.enabled);
    assert_eq!(installed.mod_file.mod_name, "OTHER.gpk");
    assert_eq!(installed.mod_file.container, "OTHER");
    assert_eq!(installed.mod_file.packages, vec![package("Pkg.C", 0, 0)]);
    assert_eq!(location(&app, "idC"), ("OTHER".to_string(), 0, 0));
}

#[test]
fn install_while_waiting_leaves_the_map() {
    let mut app = session(CLEAN, CLEAN, vec![]);
    app.set_wait_for_tera(true);
    assert!(app.install_mod("m.gpk", &raw_object("MOD:Pkg.A")));
    assert_eq!(enabled(&app), vec![true]);
    assert_eq!(app.composite_map().to_text(), CLEAN);
    assert!(!app.composite_map().is_dirty());
}

#[test]
fn scan_fills_in_what_the_file_declares() {
    let map = CompositeMapperFile::from_text(CLEAN);
    let mut entry = a_mod("m.gpk", "", vec![]);
    scan_mod_file(&map, &mut entry, None);
    assert_eq!(entry, a_mod("m.gpk", "", vec![]));
    let data = raw_object("MOD:Pkg.B");
    scan_mod_file(&map, &mut entry, Some(&data));
    assert_eq!(entry.mod_file.container, "m");
    assert_eq!(entry.mod_file.packages, vec![package("Pkg.B", 0, data.len())]);
    let mut raw = a_mod("base.gpk", "", vec![]);
    raw.mod_file.mod_name = String::new();
    scan_mod_file(&map, &mut raw, Some(&[0]));
    assert_eq!(raw.mod_file.mod_name, "base.gpk");
    assert_eq!(raw.mod_file.container, "base");
    assert_eq!(raw.mod_file.packages, vec![package("Pkg.A", 0, 0), package("Pkg.B", 0, 0)]);
    let mut lost = a_mod("zzz.gpk", "kept", vec![]);
    scan_mod_file(&map, &mut lost, Some(&[0]));
    assert_eq!(lost, a_mod("zzz.gpk", "kept", vec![]));
}

#[test]
fn initialize_loads_scans_and_applies() {
    let active_file = tmm::cipher::encrypt_mapper(b"stale.gpk?Pkg.A,idA,1,1,|!");
    let backup_file = tmm::cipher::encrypt_mapper(CLEAN.as_bytes());
    let mut m1 = a_mod("m1.gpk", "", vec![]);
    m1.enabled = true;
    let m2 = a_mod("m2.gpk", "", vec![]);
    let files = vec![Some(raw_object("MOD:Pkg.B"))];
    let mut app = TmmApp::new();
    app.initialize(&backup_file, &active_file, vec![m1, m2], &files);
    assert_eq!(app.backup_map().to_text(), CLEAN);
    assert_eq!(app.mod_list()[0].mod_file.container, "m1");
    assert_eq!(app.mod_list()[1].mod_file.container, "");
    assert_eq!(app.game_config().mods[0].mod_file.container, "");
    assert_eq!(location(&app, "idB"), ("m1".to_string(), 0, files[0].as_ref().unwrap().len()));
    assert_eq!(location(&app, "idA"), ("base.gpk".to_string(), 100, 10));
    assert!(app.commit_changes().is_some());

    let mut waiting = TmmApp::new();
    waiting.set_wait_for_tera(true);
    waiting.initialize(&backup_file, &active_file, vec![], &vec![]);
    assert_eq!(waiting.composite_map().to_text(), "stale.gpk?Pkg.A,idA,1,1,|!");
    assert_eq!(waiting.commit_changes(), None);
}

#[test]
fn set_mod_enabled_turns_a_mod_on_and_off() {
    let m1 = a_mod("m1.gpk", "m1", vec![package("Pkg.A", 1, 2)]);
    let mut app = session(CLEAN, CLEAN, vec![m1]);
    app.set_mod_enabled(0, true);
    assert_eq!(enabled(&app), vec![true]);
    assert_eq!(location(&app, "idA"), ("m1".to_string(), 1, 2));
    app.commit_done();
    app.set_mod_enabled(0, false);
    assert_eq!(enabled(&app), vec![false]);
    assert_eq!(location(&app, "idA"), ("base.gpk".to_string(), 100, 10));
    assert!(app.composite_map().is_dirty());
    assert_eq!(app.game_config().mods[0].enabled, false);
    app.set_mod_enabled(5, true);
    assert_eq!(enabled(&app), vec![false]);

    app.set_mod_enabled(0, true);
    app.commit_done();
    app.set_wait_for_tera(true);
    app.set_mod_enabled(0, false);
    assert_eq!(enabled(&app), vec![false]);
    assert_eq!(location(&app, "idA"), ("m1".to_string(), 1, 2));
    assert!(!app.composite_map().is_dirty());
}

#[test]
fn remove_mods_takes_the_selected_off_the_list() {
    let mods = vec![
        a_mod("m0.gpk", "m0", vec![]),
        a_mod("m1.gpk", "m1", vec![]),
        a_mod("m2.gpk", "m2", vec![]),
        a_mod("m3.gpk", "m3", vec![]),
    ];
    let mut app = session(CLEAN, CLEAN, mods);
    app.remove_mods(&vec![2, 0, 7, 2]);
    let files: Vec<_> = app.mod_list().iter().map(|m| m.file.clone()).collect();
    assert_eq!(files, vec!["m1.gpk", "m3.gpk"]);
    assert_eq!(app.game_config().mods.len(), 2);
    app.remove_mods(&vec![]);
    assert_eq!(app.mod_list().len(), 2);
}

#[test]
fn update_mods_list_replaces_what_is_saved() {
    let mut app = TmmApp::new();
    app.update_mods_list(vec![a_mod("m0.gpk", "m0", vec![])]);
    assert_eq!(app.game_config().mods.len(), 1);
    assert!(app.mod_list().is_empty());
}

#[test]
fn check_tera_finds_the_game_among_process_names() {
    assert!(check_tera(&vec!["init".to_string(), "TERA.exe".to_string()]));
    assert!(check_tera(&vec!["tera.EXE".to_string()]));
    assert!(!check_tera(&vec!["tera".to_string(), "tera.exe2".to_string(), "xtera.exe".to_string()]));
    assert!(!check_tera(&vec![]));
}

#[test]
fn backup_is_made_once() {
    assert_eq!(backup_composite_mapper(true, true), BackupAction::Keep);
    assert_eq!(backup_composite_mapper(true, false), BackupAction::Keep);
    assert_eq!(backup_composite_mapper(false, true), BackupAction::CopyLive);
    assert_eq!(backup_composite_mapper(false, false), BackupAction::Unavailable);
}
