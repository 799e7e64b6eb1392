//! The activation engine: turning mods on and off against the active
//! composite map, with a clean backup map as the source of what every entry
//! was before any mod touched it.

use crate::composite_mapper::{
    has_id, id_index, loaded_entries, map_file_bytes, patched, resolved_entry, unique_ids,
    without_id, CompositeMapperFile, MapError, PathMatch,
};
use crate::entry::EntryView;
use crate::mod_model::{
    clone_mods, empty_mod_file, mod_file_of, mod_views, package_views, read_mod_file,
    CompositePackage, GameConfigFile, ModEntry, ModEntryView, ModFile, ModFileView, PackageView,
};
use crate::reader::ReadError;
use crate::text::{
    contains_text, lowercase, str_to_chars, text_contains, to_lowercase, trim_gpk, without_gpk,
};
use crate::utils::{ascii_eq_ignore_case, eq_ignore_ascii_case};
use crate::serializer::serialized;
use vstd::prelude::*;

verus! {

/// The active map as the engine sees it: its entries, and whether it was
/// changed since it was last written.
pub struct ActiveView {
    pub entries: Seq<EntryView>,
    pub dirty: bool,
}

/// `active` with the entry of the identifier `id` redirected and the map
/// marked as changed; `active` as it is where no entry has that identifier.
pub open spec fn patch_active(
    active: ActiveView,
    id: Seq<char>,
    filename: Seq<char>,
    offset: usize,
    size: usize,
) -> ActiveView {
    if has_id(active.entries, id) {
        ActiveView { entries: patched(active.entries, id, filename, offset, size), dirty: true }
    } else {
        active
    }
}

/// `active` without the entry of the identifier `id` and marked as changed;
/// `active` as it is where no entry has that identifier.
pub open spec fn remove_active(active: ActiveView, id: Seq<char>) -> ActiveView {
    if has_id(active.entries, id) {
        ActiveView { entries: without_id(active.entries, id), dirty: true }
    } else {
        active
    }
}

/// `active` after the object `p` has been redirected to `container`: the
/// entry that alone answers for the path of `p` is patched; where none or
/// several answer, nothing changes.
pub open spec fn package_on(active: ActiveView, container: Seq<char>, p: PackageView) -> ActiveView {
    match resolved_entry(active.entries, p.object_path) {
        Some(e) => patch_active(active, e.composite_name, container, p.offset, p.size),
        None => active,
    }
}

/// `active` after the objects `packages` have been redirected to
/// `container`, in order.
pub open spec fn packages_on(active: ActiveView, container: Seq<char>, packages: Seq<PackageView>)
    -> ActiveView
    decreases packages.len(),
{
    if packages.len() == 0 {
        active
    } else {
        package_on(packages_on(active, container, packages.drop_last()), container, packages.last())
    }
}

/// `active` after the mod `m` has been turned on.
pub open spec fn mod_on(active: ActiveView, m: ModFileView) -> ActiveView {
    packages_on(active, m.container, m.packages)
}

/// `active` after the object `p` has been given back. Where one entry of
/// `backup` answers for the path of `p`, the active entry of its identifier
/// gets its container, offset and size back. Where none does and one active
/// entry answers for the path, that entry is new and leaves the map.
pub open spec fn package_off(active: ActiveView, backup: Seq<EntryView>, p: PackageView)
    -> ActiveView {
    match resolved_entry(backup, p.object_path) {
        Some(clean) => patch_active(
            active,
            clean.composite_name,
            clean.filename,
            clean.offset,
            clean.size,
        ),
        None => match resolved_entry(active.entries, p.object_path) {
            Some(created) => remove_active(active, created.composite_name),
            None => active,
        },
    }
}

/// `active` after the objects `packages` have been given back, in order.
pub open spec fn packages_off(active: ActiveView, backup: Seq<EntryView>, packages: Seq<PackageView>)
    -> ActiveView
    decreases packages.len(),
{
    if packages.len() == 0 {
        active
    } else {
        package_off(packages_off(active, backup, packages.drop_last()), backup, packages.last())
    }
}

/// `active` after the mod `m` has been turned off.
pub open spec fn mod_off(active: ActiveView, backup: Seq<EntryView>, m: ModFileView) -> ActiveView {
    packages_off(active, backup, m.packages)
}

/// The paths of the objects of `packages` that turning them on passes over,
/// in order: those for which none or several entries answer when their turn
/// comes.
pub open spec fn passed_over_on(
    active: ActiveView,
    container: Seq<char>,
    packages: Seq<PackageView>,
) -> Seq<Seq<char>>
    decreases packages.len(),
{
    if packages.len() == 0 {
        Seq::empty()
    } else {
        let before = passed_over_on(active, container, packages.drop_last());
        let reached = packages_on(active, container, packages.drop_last());
        if resolved_entry(reached.entries, packages.last().object_path) is None {
            before.push(packages.last().object_path)
        } else {
            before
        }
    }
}

/// The paths of the objects of `packages` that turning them off passes over,
/// in order: those for which neither one entry of the backup nor one active
/// entry answers when their turn comes.
pub open spec fn passed_over_off(
    active: ActiveView,
    backup: Seq<EntryView>,
    packages: Seq<PackageView>,
) -> Seq<Seq<char>>
    decreases packages.len(),
{
    if packages.len() == 0 {
        Seq::empty()
    } else {
        let before = passed_over_off(active, backup, packages.drop_last());
        let reached = packages_off(active, backup, packages.drop_last());
        if resolved_entry(backup, packages.last().object_path) is None && resolved_entry(
            reached.entries,
            packages.last().object_path,
        ) is None {
            before.push(packages.last().object_path)
        } else {
            before
        }
    }
}

/// The texts of a sequence of strings.
pub open spec fn string_views(strings: Seq<String>) -> Seq<Seq<char>> {
    strings.map_values(|s: String| s@)
}

/// Whether some object of `a` has the path of some object of `b`.
pub open spec fn shares_path(a: Seq<PackageView>, b: Seq<PackageView>) -> bool {
    exists|i: int, j: int|
        0 <= i < a.len() && 0 <= j < b.len() && (#[trigger] a[i]).object_path == (
        #[trigger] b[j]).object_path
}

/// Whether the installed mod `m` is enabled and declares an object that
/// `packages` declares too.
pub open spec fn conflicts_with(m: ModEntryView, packages: Seq<PackageView>) -> bool {
    m.enabled && shares_path(packages, m.mod_file.packages)
}

/// The positions of the mods of `mods` that conflict with `packages`, in
/// ascending order.
pub open spec fn conflicting(mods: Seq<ModEntryView>, packages: Seq<PackageView>) -> Seq<usize>
    decreases mods.len(),
{
    if mods.len() == 0 {
        Seq::empty()
    } else {
        let before = conflicting(mods.drop_last(), packages);
        if conflicts_with(mods.last(), packages) {
            before.push((mods.len() - 1) as usize)
        } else {
            before
        }
    }
}

/// `m` with its enabled flag set to `enabled`.
pub open spec fn with_enabled(m: ModEntryView, enabled: bool) -> ModEntryView {
    ModEntryView { enabled, ..m }
}

/// The active map and the mod list, which the engine changes together.
pub struct EngineView {
    pub active: ActiveView,
    pub mods: Seq<ModEntryView>,
}

/// The engine after the first `n` mods have been looked at, in order, and
/// each that conflicts with `packages`, but for the mod at position `skip`,
/// has been disabled and turned off.
pub open spec fn conflicts_off(
    engine: EngineView,
    backup: Seq<EntryView>,
    packages: Seq<PackageView>,
    skip: int,
    n: int,
) -> EngineView
    decreases n,
{
    if n <= 0 {
        engine
    } else {
        let before = conflicts_off(engine, backup, packages, skip, n - 1);
        let i = n - 1;
        if i != skip && i < before.mods.len() && conflicts_with(before.mods[i], packages) {
            EngineView {
                active: mod_off(before.active, backup, before.mods[i].mod_file),
                mods: before.mods.update(i, with_enabled(before.mods[i], false)),
            }
        } else {
            before
        }
    }
}

/// The engine after the mod at position `index` has been enabled: the other
/// enabled mods that declare one of its objects are disabled and turned off
/// first, then the mod is turned on.
pub open spec fn enabled_safely(engine: EngineView, backup: Seq<EntryView>, index: int)
    -> EngineView {
    if 0 <= index < engine.mods.len() {
        let target = engine.mods[index];
        let cleared = conflicts_off(
            engine,
            backup,
            target.mod_file.packages,
            index,
            engine.mods.len() as int,
        );
        EngineView {
            active: ActiveView {
                entries: mod_on(cleared.active, target.mod_file).entries,
                dirty: true,
            },
            mods: cleared.mods.update(index, with_enabled(cleared.mods[index], true)),
        }
    } else {
        engine
    }
}

/// `active` after every enabled mod of `mods` has been turned on, in the
/// order of the list.
pub open spec fn enabled_on(active: ActiveView, mods: Seq<ModEntryView>) -> ActiveView
    decreases mods.len(),
{
    if mods.len() == 0 {
        active
    } else {
        let before = enabled_on(active, mods.drop_last());
        if mods.last().enabled {
            mod_on(before, mods.last().mod_file)
        } else {
            before
        }
    }
}

/// `active` after every enabled mod of `mods` has been turned off, in the
/// order of the list.
pub open spec fn enabled_off(active: ActiveView, backup: Seq<EntryView>, mods: Seq<ModEntryView>)
    -> ActiveView
    decreases mods.len(),
{
    if mods.len() == 0 {
        active
    } else {
        let before = enabled_off(active, backup, mods.drop_last());
        if mods.last().enabled {
            mod_off(before, backup, mods.last().mod_file)
        } else {
            before
        }
    }
}

/// `mods` with every mod disabled.
pub open spec fn all_disabled(mods: Seq<ModEntryView>) -> Seq<ModEntryView> {
    mods.map_values(|m: ModEntryView| with_enabled(m, false))
}

/// Whether some mod of `mods` is enabled.
pub open spec fn any_enabled(mods: Seq<ModEntryView>) -> bool {
    exists|i: int| 0 <= i < mods.len() && (#[trigger] mods[i]).enabled
}

/// Turning objects on and off keeps the identifiers distinct.
pub proof fn lemma_engine_keeps_unique_ids(
    active: ActiveView,
    backup: Seq<EntryView>,
    container: Seq<char>,
    packages: Seq<PackageView>,
)
    requires
        unique_ids(active.entries),
    ensures
        unique_ids(packages_on(active, container, packages).entries),
        unique_ids(packages_off(active, backup, packages).entries),
    decreases packages.len(),
{
    if packages.len() > 0 {
        lemma_engine_keeps_unique_ids(active, backup, container, packages.drop_last());
        let p = packages.last();
        let on = packages_on(active, container, packages.drop_last());
        let off = packages_off(active, backup, packages.drop_last());
        match resolved_entry(on.entries, p.object_path) {
            Some(e) => {
                crate::composite_mapper::lemma_unique_ids_kept(
                    on.entries,
                    e,
                    e.composite_name,
                    container,
                    p.offset,
                    p.size,
                );
            },
            None => {},
        }
        match resolved_entry(backup, p.object_path) {
            Some(o) => {
                crate::composite_mapper::lemma_unique_ids_kept(
                    off.entries,
                    o,
                    o.composite_name,
                    o.filename,
                    o.offset,
                    o.size,
                );
            },
            None => match resolved_entry(off.entries, p.object_path) {
                Some(c) => {
                    crate::composite_mapper::lemma_unique_ids_kept(
                        off.entries,
                        c,
                        c.composite_name,
                        Seq::empty(),
                        0,
                        0,
                    );
                },
                None => {},
            },
        }
    }
}

/// The state of a session: the active map, the backup map and the list of
/// installed mods.
pub struct TmmApp {
    composite_map: CompositeMapperFile,
    backup_map: CompositeMapperFile,
    mod_list: Vec<ModEntry>,
    game_config: GameConfigFile,
    wait_for_tera: bool,
    tera_running: bool,
}

/// The mathematical value of a [`TmmApp`].
pub struct SessionView {
    /// The entries of the active map.
    pub active: Seq<EntryView>,
    /// The entries of the backup map.
    pub backup: Seq<EntryView>,
    /// The installed mods.
    pub mods: Seq<ModEntryView>,
    /// The mod list as it was last handed over for saving.
    pub saved_mods: Seq<ModEntryView>,
    /// Whether the active map was changed since it was last written.
    pub dirty: bool,
    /// Whether mods are applied only while the game runs.
    pub wait_for_tera: bool,
    /// Whether the game was running when it was last looked for.
    pub tera_running: bool,
}

impl View for TmmApp {
    type V = SessionView;

    closed spec fn view(&self) -> SessionView {
        SessionView {
            active: self.composite_map@,
            backup: self.backup_map@,
            mods: mod_views(self.mod_list@),
            saved_mods: self.game_config@,
            dirty: self.composite_map.dirty(),
            wait_for_tera: self.wait_for_tera,
            tera_running: self.tera_running,
        }
    }
}

/// The session without maps and without mods.
pub open spec fn empty_session() -> SessionView {
    SessionView {
        active: Seq::empty(),
        backup: Seq::empty(),
        mods: Seq::empty(),
        saved_mods: Seq::empty(),
        dirty: false,
        wait_for_tera: false,
        tera_running: false,
    }
}

/// The position that is passed over, or -1 for none.
pub open spec fn skipped(skip: Option<usize>) -> int {
    match skip {
        Some(k) => k as int,
        None => -1,
    }
}

/// The active map of a session.
pub open spec fn active_of(s: SessionView) -> ActiveView {
    ActiveView { entries: s.active, dirty: s.dirty }
}

/// `s` with `active` as its active map.
pub open spec fn with_active(s: SessionView, active: ActiveView) -> SessionView {
    SessionView { active: active.entries, dirty: active.dirty, ..s }
}

/// The engine part of a session.
pub open spec fn engine_of(s: SessionView) -> EngineView {
    EngineView { active: active_of(s), mods: s.mods }
}

/// `s` with `engine` as its engine part.
pub open spec fn with_engine(s: SessionView, engine: EngineView) -> SessionView {
    SessionView {
        active: engine.active.entries,
        dirty: engine.active.dirty,
        mods: engine.mods,
        ..s
    }
}

/// Whether the enabled mod `m` shares an object path with `packages`.
fn mod_conflicts(m: &ModEntry, packages: &Vec<CompositePackage>) -> (r: bool)
    ensures
        r == conflicts_with(m@, package_views(packages@)),
{
    if !m.enabled {
        return false;
    }
    let ghost a = package_views(packages@);
    let ghost b = m@.mod_file.packages;
    let mut i: usize = 0;
    while i < packages.len()
        invariant
            i <= packages.len(),
            m.enabled,
            a == package_views(packages@),
            b == package_views(m.mod_file.packages@),
            forall|x: int, y: int|
                0 <= x < i && 0 <= y < b.len() ==> (#[trigger] a[x]).object_path != (
                #[trigger] b[y]).object_path,
        decreases packages.len() - i,
    {
        let mut j: usize = 0;
        while j < m.mod_file.packages.len()
            invariant
                i < packages.len(),
                j <= m.mod_file.packages.len(),
                m.enabled,
                a == package_views(packages@),
                b == package_views(m.mod_file.packages@),
                forall|y: int| 0 <= y < j ==> a[i as int].object_path != (#[trigger] b[y]).object_path,
            decreases m.mod_file.packages.len() - j,
        {
            assert(a[i as int] == packages[i as int]@);
            assert(b[j as int] == m.mod_file.packages[j as int]@);
            if packages[i].object_path == m.mod_file.packages[j].object_path {
                assert(a[i as int].object_path == b[j as int].object_path);
                assert(shares_path(a, b));
                return true;
            }
            j += 1;
        }
        i += 1;
    }
    false
}

impl Default for TmmApp {
    fn default() -> (app: Self)
        ensures
            app.wf(),
            app@ == empty_session(),
    {
        TmmApp::new()
    }
}

/// Sets the enabled flag of the mod at position `i`.
fn set_enabled_at(mods: &mut Vec<ModEntry>, i: usize, enabled: bool)
    requires
        i < old(mods).len(),
    ensures
        mod_views(final(mods)@) == mod_views(old(mods)@).update(
            i as int,
            with_enabled(old(mods)[i as int]@, enabled),
        ),
{
    mods[i].enabled = enabled;
    assert(mod_views(mods@) =~= mod_views(old(mods)@).update(
        i as int,
        with_enabled(old(mods)[i as int]@, enabled),
    ));
}

impl TmmApp {
    /// The two maps are well-formed.
    pub closed spec fn wf(&self) -> bool {
        self.composite_map.wf() && self.backup_map.wf()
    }

    /// The identifiers of both maps of a well-formed session are distinct.
    pub proof fn lemma_wf_unique(&self)
        requires
            self.wf(),
        ensures
            unique_ids(self@.active),
            unique_ids(self@.backup),
    {
        self.composite_map.lemma_wf_unique();
        self.backup_map.lemma_wf_unique();
    }

    /// A session without maps and without mods.
    pub fn new() -> (app: Self)
        ensures
            app.wf(),
            app@ == empty_session(),
    {
        let app = TmmApp {
            composite_map: CompositeMapperFile::empty(),
            backup_map: CompositeMapperFile::empty(),
            mod_list: Vec::new(),
            game_config: GameConfigFile::default(),
            wait_for_tera: false,
            tera_running: false,
        };
        assert(mod_views(app.mod_list@) =~= Seq::<ModEntryView>::empty());
        app
    }

    /// The positions of the enabled mods that declare an object that
    /// `packages` declares too, in ascending order.
    pub fn find_conflicting_indices(&self, packages: &Vec<CompositePackage>) -> (conflicts: Vec<
        usize,
    >)
        ensures
            conflicts@ == conflicting(self@.mods, package_views(packages@)),
    {
        let ghost mods = mod_views(self.mod_list@);
        let mut conflicts: Vec<usize> = Vec::new();
        let mut i: usize = 0;
        assert(mods.take(0) =~= Seq::<ModEntryView>::empty());
        while i < self.mod_list.len()
            invariant
                i <= self.mod_list.len(),
                mods == mod_views(self.mod_list@),
                conflicts@ == conflicting(mods.take(i as int), package_views(packages@)),
            decreases self.mod_list.len() - i,
        {
            proof {
                assert(mods.take(i + 1).drop_last() =~= mods.take(i as int));
                assert(mods.take(i + 1).last() == self.mod_list[i as int]@);
            }
            if mod_conflicts(&self.mod_list[i], packages) {
                conflicts.push(i);
            }
            i += 1;
        }
        assert(mods.take(self.mod_list.len() as int) =~= mods);
        conflicts
    }

    /// Redirects every object that `mod_file` declares to the mod's
    /// container. An object for which not exactly one entry answers is passed
    /// over. Never fails; gives the paths of the objects that were passed
    /// over, in order.
    pub fn turn_on_mod(&mut self, mod_file: &ModFile) -> (result: Result<Vec<String>, MapError>)
        requires
            old(self).wf(),
        ensures
            final(self).wf(),
            result is Ok,
            string_views(result->Ok_0@) == passed_over_on(
                active_of(old(self)@),
                mod_file@.container,
                mod_file@.packages,
            ),
            final(self)@ == with_active(old(self)@, mod_on(active_of(old(self)@), mod_file@)),
    {
        let ghost packages = mod_file@.packages;
        let n = mod_file.packages.len();
        let mut missed: Vec<String> = Vec::new();
        let mut i: usize = 0;
        assert(packages.take(0) =~= Seq::<PackageView>::empty());
        assert(string_views(missed@) =~= Seq::<Seq<char>>::empty());
        while i < n
            invariant
                i <= n,
                n == mod_file.packages.len(),
                packages == package_views(mod_file.packages@),
                self.wf(),
                self@ == with_active(
                    old(self)@,
                    packages_on(active_of(old(self)@), mod_file@.container, packages.take(i as int)),
                ),
                string_views(missed@) == passed_over_on(
                    active_of(old(self)@),
                    mod_file@.container,
                    packages.take(i as int),
                ),
            decreases n - i,
        {
            let pkg = &mod_file.packages[i];
            proof {
                assert(packages.take(i + 1).drop_last() =~= packages.take(i as int));
                assert(packages.take(i + 1).last() == pkg@);
            }
            match self.composite_map.find_by_incomplete_path(pkg.object_path.as_str()) {
                PathMatch::Unique(entry) => {
                    let _ = self.composite_map.apply_patch(
                        entry.composite_name.as_str(),
                        mod_file.container.as_str(),
                        pkg.offset,
                        pkg.size,
                    );
                },
                _ => {
                    let path = pkg.object_path.clone();
                    assert(string_views(missed@.push(path)) =~= string_views(missed@).push(path@));
                    missed.push(path);
                },
            }
            i += 1;
        }
        assert(packages.take(n as int) =~= packages);
        Ok(missed)
    }

    /// Gives back every object that `mod_file` declares. Where one entry of
    /// the backup answers for the object, the active entry of its identifier
    /// gets its container, offset and size back; where none does and one
    /// active entry answers, that entry leaves the active map. An object that
    /// neither map answers for is passed over. Never fails; gives the paths
    /// of the objects that were passed over, in order, or none of them where
    /// `silent` is set.
    pub fn turn_off_mod(&mut self, mod_file: &ModFile, silent: bool) -> (result: Result<
        Vec<String>,
        MapError,
    >)
        requires
            old(self).wf(),
        ensures
            final(self).wf(),
            result is Ok,
            string_views(result->Ok_0@) == if silent {
                Seq::<Seq<char>>::empty()
            } else {
                passed_over_off(active_of(old(self)@), old(self)@.backup, mod_file@.packages)
            },
            final(self)@ == with_active(
                old(self)@,
                mod_off(active_of(old(self)@), old(self)@.backup, mod_file@),
            ),
    {
        let ghost packages = mod_file@.packages;
        let n = mod_file.packages.len();
        let mut missed: Vec<String> = Vec::new();
        let mut i: usize = 0;
        assert(packages.take(0) =~= Seq::<PackageView>::empty());
        assert(string_views(missed@) =~= Seq::<Seq<char>>::empty());
        while i < n
            invariant
                i <= n,
                n == mod_file.packages.len(),
                packages == package_views(mod_file.packages@),
                self.wf(),
                self@ == with_active(
                    old(self)@,
                    packages_off(active_of(old(self)@), old(self)@.backup, packages.take(i as int)),
                ),
                string_views(missed@) == if silent {
                    Seq::<Seq<char>>::empty()
                } else {
                    passed_over_off(
                        active_of(old(self)@),
                        old(self)@.backup,
                        packages.take(i as int),
                    )
                },
            decreases n - i,
        {
            let pkg = &mod_file.packages[i];
            proof {
                assert(packages.take(i + 1).drop_last() =~= packages.take(i as int));
                assert(packages.take(i + 1).last() == pkg@);
            }
            match self.backup_map.find_by_incomplete_path(pkg.object_path.as_str()) {
                PathMatch::Unique(clean) => {
                    let _ = self.composite_map.apply_patch(
                        clean.composite_name.as_str(),
                        clean.filename.as_str(),
                        clean.offset,
                        clean.size,
                    );
                },
                _ => {
                    match self.composite_map.find_by_incomplete_path(pkg.object_path.as_str()) {
                        PathMatch::Unique(created) => {
                            self.composite_map.remove_entry(&created);
                        },
                        _ => {
                            if !silent {
                                let path = pkg.object_path.clone();
                                assert(string_views(missed@.push(path)) =~= string_views(
                                    missed@,
                                ).push(path@));
                                missed.push(path);
                            }
                        },
                    }
                },
            }
            i += 1;
        }
        assert(packages.take(n as int) =~= packages);
        Ok(missed)
    }

    /// Enables the mod at position `index`. Every other enabled mod that
    /// declares one of its objects is disabled and turned off first, in the
    /// order of the list; then the mod is turned on, the active map is marked
    /// as changed and the mod list is handed over for saving. A position
    /// outside the list changes nothing. Never fails.
    pub fn enable_mod_safely(&mut self, index: usize) -> (result: Result<(), MapError>)
        requires
            old(self).wf(),
        ensures
            final(self).wf(),
            result is Ok,
            index >= old(self)@.mods.len() ==> final(self)@ == old(self)@,
            index < old(self)@.mods.len() ==> final(self)@ == enabled_at(old(self)@, index as int),
    {
        if index >= self.mod_list.len() {
            return Ok(());
        }
        let target = self.mod_list[index].clone();
        self.disable_conflicts(&target.mod_file.packages, Some(index));
        assert(self.mod_list@.len() == self@.mods.len());
        set_enabled_at(&mut self.mod_list, index, true);
        let _ = self.turn_on_mod(&target.mod_file);
        self.composite_map.set_dirty(true);
        self.game_config.mods = clone_mods(&self.mod_list);
        Ok(())
    }

    /// Disables and turns off, in the order of the list, every enabled mod
    /// that declares an object that `packages` declares too, but for the mod
    /// at position `skip`.
    pub fn disable_conflicts(&mut self, packages: &Vec<CompositePackage>, skip: Option<usize>)
        requires
            old(self).wf(),
        ensures
            final(self).wf(),
            final(self)@ == with_engine(
                old(self)@,
                conflicts_off(
                    engine_of(old(self)@),
                    old(self)@.backup,
                    package_views(packages@),
                    skipped(skip),
                    old(self)@.mods.len() as int,
                ),
            ),
            final(self)@.mods.len() == old(self)@.mods.len(),
    {
        let ghost start = engine_of(self@);
        let ghost backup = self@.backup;
        let n = self.mod_list.len();
        let mut i: usize = 0;
        while i < n
            invariant
                i <= n,
                self.wf(),
                start == engine_of(old(self)@),
                backup == old(self)@.backup,
                self@ == with_engine(
                    old(self)@,
                    conflicts_off(start, backup, package_views(packages@), skipped(skip), i as int),
                ),
                self@.mods.len() == n,
                old(self)@.mods.len() == n,
            decreases n - i,
        {
            assert(self.mod_list@.len() == self@.mods.len());
            assert(self@.mods[i as int] == self.mod_list[i as int]@);
            let skip_this = match skip {
                Some(k) => k == i,
                None => false,
            };
            if !skip_this && mod_conflicts(&self.mod_list[i], packages) {
                let m_file = self.mod_list[i].mod_file.clone();
                set_enabled_at(&mut self.mod_list, i, false);
                let _ = self.turn_off_mod(&m_file, true);
            }
            i += 1;
        }
    }

    /// Builds the active map anew: its entries become a copy of the entries
    /// of the backup, then every enabled mod is turned on, in the order of
    /// the list. The map counts as changed where it holds an entry. Never
    /// fails.
    pub fn apply_enabled_mods(&mut self) -> (result: Result<(), MapError>)
        requires
            old(self).wf(),
        ensures
            final(self).wf(),
            result is Ok,
            final(self)@ == reapplied(old(self)@),
    {
        self.composite_map.copy_entries_from(&self.backup_map);
        let ghost mods = self@.mods;
        let ghost backup = self@.backup;
        let n = self.mod_list.len();
        let mut i: usize = 0;
        assert(mods.take(0) =~= Seq::<ModEntryView>::empty());
        while i < n
            invariant
                i <= n,
                n == mods.len(),
                self.wf(),
                mods == old(self)@.mods,
                backup == old(self)@.backup,
                self@ == with_active(
                    old(self)@,
                    enabled_on(
                        ActiveView { entries: backup, dirty: old(self)@.dirty },
                        mods.take(i as int),
                    ),
                ),
                self@.active.len() == backup.len(),
            decreases n - i,
        {
            assert(self.mod_list@.len() == self@.mods.len());
            proof {
                assert(mods.take(i + 1).drop_last() =~= mods.take(i as int));
                assert(mods.take(i + 1).last() == self.mod_list[i as int]@);
            }
            if self.mod_list[i].enabled {
                let mod_file = self.mod_list[i].mod_file.clone();
                proof {
                    lemma_packages_on_len(active_of(self@), mod_file@.container, mod_file@.packages);
                }
                let _ = self.turn_on_mod(&mod_file);
            }
            i += 1;
        }
        assert(mods.take(n as int) =~= mods);
        if !self.composite_map.is_empty() {
            self.composite_map.set_dirty(true);
        }
        Ok(())
    }

    /// Disables every mod and turns off those that were enabled, in the order
    /// of the list. Tells whether any was enabled; where one was, the active
    /// map is marked as changed and the mod list is handed over for saving.
    pub fn disable_all_mods(&mut self) -> (any: bool)
        requires
            old(self).wf(),
        ensures
            final(self).wf(),
            any == any_enabled(old(self)@.mods),
            final(self)@ == all_off(old(self)@),
    {
        let ghost mods = self@.mods;
        let ghost active = active_of(self@);
        let ghost backup = self@.backup;
        let n = self.mod_list.len();
        let mut any = false;
        let mut i: usize = 0;
        assert(mods.take(0) =~= Seq::<ModEntryView>::empty());
        while i < n
            invariant
                i <= n,
                self.wf(),
                mods == old(self)@.mods,
                active == active_of(old(self)@),
                backup == old(self)@.backup,
                mods.len() == n,
                active_of(self@) == enabled_off(active, backup, mods.take(i as int)),
                self@.mods.len() == n,
                forall|k: int| 0 <= k < i ==> #[trigger] self@.mods[k] == with_enabled(mods[k], false),
                forall|k: int| i <= k < n ==> #[trigger] self@.mods[k] == mods[k],
                any == any_enabled(mods.take(i as int)),
                self@ == (SessionView {
                    active: self@.active,
                    mods: self@.mods,
                    dirty: self@.dirty,
                    ..old(self)@
                }),
            decreases n - i,
        {
            assert(self.mod_list@.len() == self@.mods.len());
            proof {
                assert(mods.take(i + 1).drop_last() =~= mods.take(i as int));
                assert(mods.take(i + 1).last() == mods[i as int]);
                assert(self@.mods[i as int] == self.mod_list[i as int]@);
                if any {
                    let k = choose|k: int|
                        0 <= k < mods.take(i as int).len() && (#[trigger] mods.take(
                            i as int,
                        )[k]).enabled;
                    assert(mods.take(i + 1)[k].enabled);
                }
                if any_enabled(mods.take(i + 1)) && !mods[i as int].enabled {
                    let k = choose|k: int|
                        0 <= k < mods.take(i + 1).len() && (#[trigger] mods.take(i + 1)[k]).enabled;
                    assert(mods.take(i as int)[k].enabled);
                }
            }
            if self.mod_list[i].enabled {
                let mod_file = self.mod_list[i].mod_file.clone();
                set_enabled_at(&mut self.mod_list, i, false);
                let _ = self.turn_off_mod(&mod_file, false);
                any = true;
                assert(mods.take(i + 1)[i as int].enabled);
            }
            i += 1;
        }
        assert(mods.take(n as int) =~= mods);
        assert(self@.mods =~= all_disabled(mods));
        if any {
            self.composite_map.set_dirty(true);
            self.game_config.mods = clone_mods(&self.mod_list);
        }
        any
    }

    /// Takes `mod_data` as the mod list that is to be saved.
    pub fn update_mods_list(&mut self, mod_data: Vec<ModEntry>)
        ensures
            final(self).wf() == old(self).wf(),
            final(self)@ == (SessionView { saved_mods: mod_views(mod_data@), ..old(self)@ }),
    {
        self.game_config.mods = mod_data;
    }

    /// The bytes to write to the active map file, where the active map was
    /// changed since it was last written; nothing where it was not.
    pub fn commit_changes(&self) -> (bytes: Option<Vec<u8>>)
        ensures
            bytes is Some <==> self@.dirty,
            bytes is Some ==> bytes->0@ == map_file_bytes(self@.active),
    {
        if self.composite_map.is_dirty() {
            Some(self.composite_map.save())
        } else {
            None
        }
    }

    /// Records that the active map has been written.
    pub fn commit_done(&mut self)
        ensures
            final(self).wf() == old(self).wf(),
            final(self)@ == (SessionView { dirty: false, ..old(self)@ }),
    {
        self.composite_map.set_dirty(false);
    }

    /// The bytes to write to the active map file, whether or not the map was
    /// changed.
    pub fn save_button(&self) -> (bytes: Vec<u8>)
        ensures
            bytes@ == map_file_bytes(self@.active),
    {
        self.composite_map.save()
    }

    /// What restoring the active map file from the backup file has to write:
    /// the bytes of the backup file as they are. Refuses where there is no
    /// backup file.
    pub fn restore_composite_mapper(&self, backup_file: Option<&[u8]>) -> (bytes: Result<
        Vec<u8>,
        MapError,
    >)
        ensures
            match bytes {
                Ok(b) => backup_file is Some && b@ == backup_file->0@,
                Err(e) => backup_file is None && e == MapError::BackupMissing,
            },
    {
        match backup_file {
            None => Err(MapError::BackupMissing),
            Some(file) => Ok(vstd::slice::slice_to_vec(file)),
        }
    }

    /// Looks at whether the game runs and tells what changed since it was
    /// last looked for.
    pub fn on_game_poll(&mut self, running: bool) -> (event: GameEvent)
        ensures
            final(self).wf() == old(self).wf(),
            event == game_event(old(self)@.tera_running, running),
            final(self)@ == (SessionView { tera_running: running, ..old(self)@ }),
    {
        let event = if running && !self.tera_running {
            GameEvent::Launched
        } else if !running && self.tera_running {
            GameEvent::Closed
        } else {
            GameEvent::Unchanged
        };
        self.tera_running = running;
        event
    }

    /// The game was launched: builds the active map anew from the backup and
    /// the enabled mods, and gives the bytes to write to the active map file.
    pub fn on_game_launched(&mut self) -> (bytes: Vec<u8>)
        requires
            old(self).wf(),
        ensures
            final(self).wf(),
            final(self)@ == reapplied(old(self)@),
            bytes@ == map_file_bytes(final(self)@.active),
    {
        let _ = self.apply_enabled_mods();
        self.composite_map.save()
    }

    /// The game was closed. Where mods are applied only while the game runs,
    /// the active map becomes what the backup file holds, unchanged since
    /// written, and the bytes to write to the active map file are given;
    /// where there is no backup file, this is refused and nothing changes.
    /// Where mods are applied at all times, nothing happens.
    pub fn on_game_closed(&mut self, backup_file: Option<&[u8]>) -> (bytes: Result<
        Option<Vec<u8>>,
        MapError,
    >)
        requires
            old(self).wf(),
        ensures
            final(self).wf(),
            !old(self)@.wait_for_tera ==> bytes == Ok::<Option<Vec<u8>>, MapError>(None)
                && final(self)@ == old(self)@,
            old(self)@.wait_for_tera && backup_file is None ==> bytes == Err::<
                Option<Vec<u8>>,
                MapError,
            >(MapError::BackupMissing) && final(self)@ == old(self)@,
            old(self)@.wait_for_tera && backup_file is Some ==> bytes is Ok && bytes->Ok_0 is Some
                && bytes->Ok_0->0@ == map_file_bytes(loaded_entries(backup_file->0@))
                && final(self)@ == (SessionView {
                active: loaded_entries(backup_file->0@),
                dirty: false,
                ..old(self)@
            }),
    {
        if !self.wait_for_tera {
            return Ok(None);
        }
        match backup_file {
            None => Err(MapError::BackupMissing),
            Some(file) => {
                self.composite_map = CompositeMapperFile::new(file);
                Ok(Some(self.composite_map.save()))
            },
        }
    }

    /// Installs the mod package `data` under the file name `file_name`.
    /// Tells whether it was installed: a package that cannot be read, or that
    /// declares one object of no size, is installed only where the name of
    /// its file points to entries of the active map. The enabled mods that
    /// declare one of its objects are disabled and turned off; the mod joins
    /// the list, enabled, and is turned on unless mods are applied only while
    /// the game runs.
    pub fn install_mod(&mut self, file_name: &str, data: &[u8]) -> (installed_mod: bool)
        requires
            old(self).wf(),
        ensures
            final(self).wf(),
            installed_mod == install_declaration(old(self)@.active, file_name@, data@) is Some,
            !installed_mod ==> final(self)@ == old(self)@,
            installed_mod ==> final(self)@ == installed(
                old(self)@,
                file_name@,
                install_declaration(old(self)@.active, file_name@, data@)->0,
            ),
    {
        let mut mod_file = ModFile::default();
        let read_ok = read_mod_file(data, &mut mod_file).is_ok();
        let raw = !read_ok || (mod_file.packages.len() == 1 && mod_file.packages[0].size == 0);
        proof {
            if read_ok && mod_file.packages.len() == 1 {
                assert(mod_file@.packages[0] == mod_file.packages[0]@);
            }
        }
        if raw {
            let matched = raw_fallback_packages(&self.composite_map, file_name);
            if matched.len() == 0 {
                return false;
            }
            mod_file.packages = matched;
            mod_file.mod_name = file_name.to_owned();
        }
        if mod_file.container.as_str().is_empty() {
            mod_file.container = trim_gpk(file_name);
        }
        let ghost declared = install_declaration(old(self)@.active, file_name@, data@);
        assert(declared == Some(mod_file@));
        self.disable_conflicts(&mod_file.packages, None);
        let entry = ModEntry { file: file_name.to_owned(), enabled: true, mod_file };
        let ghost cleared = conflicts_off(
            engine_of(old(self)@),
            old(self)@.backup,
            declared->0.packages,
            -1,
            old(self)@.mods.len() as int,
        );
        assert(self@ == with_engine(old(self)@, cleared));
        proof {
            assert(mod_views(self.mod_list@.push(entry)) =~= mod_views(self.mod_list@).push(entry@));
            assert(mod_views(self.game_config.mods@.push(entry)) =~= mod_views(
                self.game_config.mods@,
            ).push(entry@));
        }
        self.mod_list.push(entry.clone());
        self.game_config.mods.push(entry.clone());
        assert(self@.mods == cleared.mods.push(entry@));
        assert(self@.saved_mods == old(self)@.saved_mods.push(entry@));
        if !self.wait_for_tera {
            let _ = self.turn_on_mod(&entry.mod_file);
            self.composite_map.set_dirty(true);
        }
        true
    }

    /// Starts the session from what the files hold: the backup map file, the
    /// active map file, the mod list, and for each mod of the list the
    /// content of its file, or nothing where it cannot be had. Every mod is
    /// scanned against the active map as it was read. Unless mods are applied
    /// only while the game runs, the active map is then built anew from the
    /// backup and the enabled mods.
    pub fn initialize(
        &mut self,
        backup_file: &[u8],
        active_file: &[u8],
        mods: Vec<ModEntry>,
        mod_files: &Vec<Option<Vec<u8>>>,
    )
        ensures
            final(self).wf(),
            final(self)@ == initialized(
                old(self)@,
                backup_file@,
                active_file@,
                mod_views(mods@),
                file_views(mod_files@),
            ),
    {
        self.backup_map = CompositeMapperFile::new(backup_file);
        self.composite_map = CompositeMapperFile::new(active_file);
        self.game_config.mods = clone_mods(&mods);
        self.mod_list = mods;
        let ghost listed = mod_views(self.mod_list@);
        let ghost files = file_views(mod_files@);
        let ghost active = self@.active;
        let n = self.mod_list.len();
        let mut i: usize = 0;
        while i < n
            invariant
                i <= n,
                n == self.mod_list.len(),
                n == listed.len(),
                self.wf(),
                files == file_views(mod_files@),
                active == self@.active,
                forall|k: int|
                    0 <= k < i ==> (#[trigger] self.mod_list[k])@ == scanned(
                        active,
                        listed[k],
                        file_at(files, k),
                    ),
                forall|k: int| i <= k < n ==> (#[trigger] self.mod_list[k])@ == listed[k],
                self@ == (SessionView {
                    active: loaded_entries(active_file@),
                    backup: loaded_entries(backup_file@),
                    mods: self@.mods,
                    saved_mods: listed,
                    dirty: false,
                    ..old(self)@
                }),
            decreases n - i,
        {
            let ghost before = self.mod_list@;
            if i < mod_files.len() {
                assert(files[i as int] == file_view(mod_files[i as int]));
                match &mod_files[i] {
                    Some(data) => {
                        scan_mod_file(&self.composite_map, &mut self.mod_list[i], Some(data.as_slice()));
                    },
                    None => {},
                }
            }
            assert(forall|k: int| 0 <= k < n && k != i ==> self.mod_list[k] == before[k]);
            i += 1;
        }
        assert(self@.mods =~= scanned_all(active, listed, files));
        if !self.wait_for_tera {
            let _ = self.apply_enabled_mods();
        }
    }

    /// Enables or disables the mod at position `index`. Enabling is
    /// [`TmmApp::enable_mod_safely`]. Disabling turns the mod off, unless
    /// mods are applied only while the game runs, and hands the mod list over
    /// for saving. A position outside the list changes nothing.
    pub fn set_mod_enabled(&mut self, index: usize, enabled: bool)
        requires
            old(self).wf(),
        ensures
            final(self).wf(),
            index >= old(self)@.mods.len() ==> final(self)@ == old(self)@,
            index < old(self)@.mods.len() && enabled ==> final(self)@ == enabled_at(
                old(self)@,
                index as int,
            ),
            index < old(self)@.mods.len() && !enabled ==> final(self)@ == disabled_at(
                old(self)@,
                index as int,
            ),
    {
        if index >= self.mod_list.len() {
            return ;
        }
        if enabled {
            let _ = self.enable_mod_safely(index);
        } else {
            assert(self@.mods[index as int] == self.mod_list[index as int]@);
            set_enabled_at(&mut self.mod_list, index, false);
            assert(self.mod_list@.len() == mod_views(self.mod_list@).len());
            assert(self@.mods[index as int] == self.mod_list[index as int]@);
            if !self.wait_for_tera {
                let mod_file = self.mod_list[index].mod_file.clone();
                let _ = self.turn_off_mod(&mod_file, false);
                self.composite_map.set_dirty(true);
            }
            self.game_config.mods = clone_mods(&self.mod_list);
        }
    }

    /// Takes the mods at the positions `selected` off the list and hands the
    /// list over for saving. The maps stay as they are.
    pub fn remove_mods(&mut self, selected: &Vec<usize>)
        ensures
            final(self).wf() == old(self).wf(),
            final(self)@ == (SessionView {
                mods: without_positions(old(self)@.mods, selected@),
                saved_mods: without_positions(old(self)@.mods, selected@),
                ..old(self)@
            }),
    {
        let ghost mods = self@.mods;
        let mut kept: Vec<ModEntry> = Vec::new();
        let n = self.mod_list.len();
        let mut i: usize = 0;
        assert(mods.take(0) =~= Seq::<ModEntryView>::empty());
        assert(mod_views(kept@) =~= Seq::<ModEntryView>::empty());
        while i < n
            invariant
                i <= n,
                n == self.mod_list.len(),
                mods == mod_views(self.mod_list@),
                mod_views(kept@) == without_positions(mods.take(i as int), selected@),
            decreases n - i,
        {
            proof {
                assert(mods.take(i + 1).drop_last() =~= mods.take(i as int));
                assert(mods.take(i + 1).last() == self.mod_list[i as int]@);
            }
            if !position_selected(selected, i) {
                let m = self.mod_list[i].clone();
                assert(mod_views(kept@.push(m)) =~= mod_views(kept@).push(m@));
                kept.push(m);
            }
            i += 1;
        }
        assert(mods.take(n as int) =~= mods);
        self.game_config.mods = clone_mods(&kept);
        self.mod_list = kept;
    }

    /// The active map.
    pub fn composite_map(&self) -> (map: &CompositeMapperFile)
        ensures
            map@ == self@.active,
            map.dirty() == self@.dirty,
            self.wf() ==> map.wf(),
    {
        &self.composite_map
    }

    /// The backup map.
    pub fn backup_map(&self) -> (map: &CompositeMapperFile)
        ensures
            map@ == self@.backup,
            self.wf() ==> map.wf(),
    {
        &self.backup_map
    }

    /// The installed mods.
    pub fn mod_list(&self) -> (mods: &Vec<ModEntry>)
        ensures
            mod_views(mods@) == self@.mods,
    {
        &self.mod_list
    }

    /// The mod list that is to be saved.
    pub fn game_config(&self) -> (config: &GameConfigFile)
        ensures
            config@ == self@.saved_mods,
    {
        &self.game_config
    }

    /// Whether mods are applied only while the game runs.
    pub fn wait_for_tera(&self) -> (wait: bool)
        ensures
            wait == self@.wait_for_tera,
    {
        self.wait_for_tera
    }

    /// Chooses whether mods are applied only while the game runs.
    pub fn set_wait_for_tera(&mut self, wait: bool)
        ensures
            final(self).wf() == old(self).wf(),
            final(self)@ == (SessionView { wait_for_tera: wait, ..old(self)@ }),
    {
        self.wait_for_tera = wait;
    }

    /// Whether the game was running when it was last looked for.
    pub fn tera_running(&self) -> (running: bool)
        ensures
            running == self@.tera_running,
    {
        self.tera_running
    }

    /// Marks the active map as changed.
    pub fn mark_dirty(&mut self)
        ensures
            final(self).wf() == old(self).wf(),
            final(self)@ == (SessionView { dirty: true, ..old(self)@ }),
    {
        self.composite_map.set_dirty(true);
    }

    /// Takes `active` and `backup` as the two maps of the session.
    pub fn set_maps(&mut self, active: CompositeMapperFile, backup: CompositeMapperFile)
        requires
            active.wf(),
            backup.wf(),
        ensures
            final(self).wf(),
            final(self)@ == (SessionView {
                active: active@,
                backup: backup@,
                dirty: active.dirty(),
                ..old(self)@
            }),
    {
        self.composite_map = active;
        self.backup_map = backup;
    }

    /// Takes `mods` as the installed mods.
    pub fn set_mod_list(&mut self, mods: Vec<ModEntry>)
        ensures
            final(self).wf() == old(self).wf(),
            final(self)@ == (SessionView { mods: mod_views(mods@), ..old(self)@ }),
    {
        self.mod_list = mods;
    }
}

/// What a look at the game's process tells.
#[derive(Debug, Clone, Copy, PartialEq, Eq, Structural)]
pub enum GameEvent {
    /// The game runs, or does not run, as before.
    Unchanged,
    /// The game runs and did not before.
    Launched,
    /// The game does not run and did before.
    Closed,
}

/// What changed when the game was running or not (`was`) and now is or is
/// not (`running`).
pub open spec fn game_event(was: bool, running: bool) -> GameEvent {
    if running && !was {
        GameEvent::Launched
    } else if !running && was {
        GameEvent::Closed
    } else {
        GameEvent::Unchanged
    }
}

/// The session after the active map has been built anew from the backup and
/// the enabled mods.
pub open spec fn reapplied(s: SessionView) -> SessionView {
    let on = enabled_on(ActiveView { entries: s.backup, dirty: s.dirty }, s.mods);
    SessionView { active: on.entries, dirty: on.dirty || s.backup.len() > 0, ..s }
}

/// The session after the mod at position `index` has been enabled: the
/// engine is as [`enabled_safely`] says, and the mod list is handed over for
/// saving.
pub open spec fn enabled_at(s: SessionView, index: int) -> SessionView {
    let after = enabled_safely(engine_of(s), s.backup, index);
    SessionView { saved_mods: after.mods, ..with_engine(s, after) }
}

/// The session after every mod has been disabled and those that were
/// enabled have been turned off, in the order of the list. Where a mod was
/// enabled, the active map counts as changed and the mod list is handed over
/// for saving.
pub open spec fn all_off(s: SessionView) -> SessionView {
    let off = enabled_off(active_of(s), s.backup, s.mods);
    SessionView {
        active: off.entries,
        mods: all_disabled(s.mods),
        saved_mods: if any_enabled(s.mods) {
            all_disabled(s.mods)
        } else {
            s.saved_mods
        },
        dirty: off.dirty || any_enabled(s.mods),
        ..s
    }
}

/// What clearing conflicts does to the mod list: of the first `n` mods, each
/// that conflicts with `packages`, but for the mod at `skip`, is disabled;
/// every other mod stays as it was.
pub proof fn lemma_conflicts_off_mods(
    engine: EngineView,
    backup: Seq<EntryView>,
    packages: Seq<PackageView>,
    skip: int,
    n: int,
)
    requires
        0 <= n <= engine.mods.len(),
    ensures
        conflicts_off(engine, backup, packages, skip, n).mods.len() == engine.mods.len(),
        forall|i: int|
            0 <= i < engine.mods.len() ==> #[trigger] conflicts_off(
                engine,
                backup,
                packages,
                skip,
                n,
            ).mods[i] == if i < n && i != skip && conflicts_with(engine.mods[i], packages) {
                with_enabled(engine.mods[i], false)
            } else {
                engine.mods[i]
            },
    decreases n,
{
    if n > 0 {
        lemma_conflicts_off_mods(engine, backup, packages, skip, n - 1);
    }
}

/// Once a mod has been enabled, it is enabled, no other enabled mod declares
/// one of its objects, and the mods that declared none are as they were.
pub proof fn lemma_enabled_mod_has_no_conflict(
    engine: EngineView,
    backup: Seq<EntryView>,
    index: int,
    other: int,
)
    requires
        0 <= index < engine.mods.len(),
        0 <= other < engine.mods.len(),
        other != index,
    ensures
        enabled_safely(engine, backup, index).mods.len() == engine.mods.len(),
        enabled_safely(engine, backup, index).mods[index] == with_enabled(engine.mods[index], true),
        !conflicts_with(
            enabled_safely(engine, backup, index).mods[other],
            engine.mods[index].mod_file.packages,
        ),
        !conflicts_with(engine.mods[other], engine.mods[index].mod_file.packages)
            ==> enabled_safely(engine, backup, index).mods[other] == engine.mods[other],
{
    lemma_conflicts_off_mods(
        engine,
        backup,
        engine.mods[index].mod_file.packages,
        index,
        engine.mods.len() as int,
    );
}

/// Turning objects on keeps the number of entries.
pub proof fn lemma_packages_on_len(
    active: ActiveView,
    container: Seq<char>,
    packages: Seq<PackageView>,
)
    ensures
        packages_on(active, container, packages).entries.len() == active.entries.len(),
    decreases packages.len(),
{
    if packages.len() > 0 {
        lemma_packages_on_len(active, container, packages.drop_last());
    }
}

/// Turning the enabled mods on keeps the number of entries.
pub proof fn lemma_enabled_on_len(active: ActiveView, mods: Seq<ModEntryView>)
    ensures
        enabled_on(active, mods).entries.len() == active.entries.len(),
    decreases mods.len(),
{
    if mods.len() > 0 {
        lemma_enabled_on_len(active, mods.drop_last());
        lemma_packages_on_len(
            enabled_on(active, mods.drop_last()),
            mods.last().mod_file.container,
            mods.last().mod_file.packages,
        );
    }
}

/// Turning objects on changes the entries the same way whether or not the
/// map counted as changed before.
pub proof fn lemma_entries_on_without_dirty(
    entries: Seq<EntryView>,
    mods: Seq<ModEntryView>,
    a: bool,
    b: bool,
)
    ensures
        enabled_on(ActiveView { entries, dirty: a }, mods).entries == enabled_on(
            ActiveView { entries, dirty: b },
            mods,
        ).entries,
        a ==> enabled_on(ActiveView { entries, dirty: a }, mods).dirty,
        enabled_on(ActiveView { entries, dirty: b }, mods).dirty ==> enabled_on(
            ActiveView { entries, dirty: a },
            mods,
        ).dirty || b,
    decreases mods.len(),
{
    if mods.len() > 0 {
        lemma_entries_on_without_dirty(entries, mods.drop_last(), a, b);
        let x = enabled_on(ActiveView { entries, dirty: a }, mods.drop_last());
        let y = enabled_on(ActiveView { entries, dirty: b }, mods.drop_last());
        if mods.last().enabled {
            lemma_packages_without_dirty(
                x,
                y,
                mods.last().mod_file.container,
                mods.last().mod_file.packages,
            );
        }
    }
}

/// Two active maps of the same entries take the same entries from turning
/// objects on, and the one that counted as changed still does.
pub proof fn lemma_packages_without_dirty(
    x: ActiveView,
    y: ActiveView,
    container: Seq<char>,
    packages: Seq<PackageView>,
)
    requires
        x.entries == y.entries,
    ensures
        packages_on(x, container, packages).entries == packages_on(y, container, packages).entries,
        x.dirty ==> packages_on(x, container, packages).dirty,
        packages_on(y, container, packages).dirty ==> packages_on(x, container, packages).dirty
            || y.dirty,
    decreases packages.len(),
{
    if packages.len() > 0 {
        lemma_packages_without_dirty(x, y, container, packages.drop_last());
    }
}

/// Building the active map anew twice in a row, with the mod list and the
/// backup unchanged in between, gives the same map both times, and so the
/// same text and the same bytes of the map file.
pub proof fn lemma_reapply_idempotent(s: SessionView)
    ensures
        reapplied(reapplied(s)).active == reapplied(s).active,
        serialized(reapplied(reapplied(s)).active) == serialized(reapplied(s).active),
        map_file_bytes(reapplied(reapplied(s)).active) == map_file_bytes(reapplied(s).active),
        reapplied(reapplied(s)) == reapplied(s),
{
    let once = reapplied(s);
    lemma_entries_on_without_dirty(s.backup, s.mods, s.dirty, once.dirty);
    lemma_entries_on_without_dirty(s.backup, s.mods, once.dirty, s.dirty);
    lemma_enabled_on_len(ActiveView { entries: s.backup, dirty: s.dirty }, s.mods);
}

/// A redirected entry keeps its place and its identifier and has the new
/// container, offset and size.
pub proof fn lemma_patched_entry(
    entries: Seq<EntryView>,
    id: Seq<char>,
    filename: Seq<char>,
    offset: usize,
    size: usize,
)
    requires
        unique_ids(entries),
        has_id(entries, id),
    ensures
        has_id(patched(entries, id, filename, offset, size), id),
        id_index(patched(entries, id, filename, offset, size), id) == id_index(entries, id),
        patched(entries, id, filename, offset, size)[id_index(entries, id)] == (EntryView {
            filename,
            offset,
            size,
            ..entries[id_index(entries, id)]
        }),
        unique_ids(patched(entries, id, filename, offset, size)),
        forall|other: Seq<char>|
            has_id(entries, other) ==> #[trigger] has_id(
                patched(entries, id, filename, offset, size),
                other,
            ),
{
    let i = id_index(entries, id);
    let after = patched(entries, id, filename, offset, size);
    crate::composite_mapper::lemma_unique_ids_kept(entries, entries[i], id, filename, offset, size);
    assert(after[i].composite_name == id);
    crate::composite_mapper::lemma_id_index(after, id, i);
    assert forall|other: Seq<char>| has_id(entries, other) implies #[trigger] has_id(
        after,
        other,
    ) by {
        let k = id_index(entries, other);
        assert(after[k].composite_name == other);
    }
}

/// Turning a mod on and off again gives an entry of the backup back. Let a
/// mod declare one object, let exactly one entry of the backup answer for
/// it, and let the active map hold an entry of that identifier. Then, after
/// the mod has been turned on and turned off, the active entry of that
/// identifier has the container, the offset and the size that the backup
/// has for it.
pub proof fn lemma_revert_to_origin(
    active: ActiveView,
    backup: Seq<EntryView>,
    m: ModFileView,
    clean: EntryView,
)
    requires
        unique_ids(active.entries),
        m.packages.len() == 1,
        resolved_entry(backup, m.packages[0].object_path) == Some(clean),
        has_id(active.entries, clean.composite_name),
    ensures
        has_id(mod_off(mod_on(active, m), backup, m).entries, clean.composite_name),
        ({
            let after = mod_off(mod_on(active, m), backup, m).entries;
            let e = after[id_index(after, clean.composite_name)];
            e.filename == clean.filename && e.offset == clean.offset && e.size
                == clean.size
        }),
{
    let p = m.packages[0];
    assert(m.packages.drop_last() =~= Seq::<PackageView>::empty());
    assert(m.packages.last() == p);
    let on = mod_on(active, m);
    assert(packages_on(active, m.container, m.packages.drop_last()) == active);
    assert(on == package_on(active, m.container, p));
    assert(unique_ids(on.entries) && has_id(on.entries, clean.composite_name)) by {
        match resolved_entry(active.entries, p.object_path) {
            Some(e) => {
                lemma_matching_has_id(active.entries, p.object_path);
                lemma_patched_entry(active.entries, e.composite_name, m.container, p.offset, p.size);
            },
            None => {},
        }
    }
    let off = mod_off(on, backup, m);
    assert(packages_off(on, backup, m.packages.drop_last()) == on);
    assert(off == package_off(on, backup, p));
    lemma_patched_entry(
        on.entries,
        clean.composite_name,
        clean.filename,
        clean.offset,
        clean.size,
    );
}

/// Whether two maps hold the same objects: entries of the same identifiers
/// and paths, in the same order. The active map holds the same objects as
/// the backup as long as entries are only redirected.
pub open spec fn same_objects(a: Seq<EntryView>, b: Seq<EntryView>) -> bool {
    a.len() == b.len() && forall|i: int|
        0 <= i < a.len() ==> (#[trigger] a[i]).composite_name == b[i].composite_name
            && a[i].object_path == b[i].object_path
}

/// Turning objects on leaves the map with the same objects.
pub proof fn lemma_packages_on_same_objects(
    active: ActiveView,
    container: Seq<char>,
    packages: Seq<PackageView>,
)
    ensures
        same_objects(packages_on(active, container, packages).entries, active.entries),
    decreases packages.len(),
{
    if packages.len() > 0 {
        lemma_packages_on_same_objects(active, container, packages.drop_last());
        let before = packages_on(active, container, packages.drop_last()).entries;
        let after = packages_on(active, container, packages).entries;
        assert forall|i: int| 0 <= i < after.len() implies (#[trigger] after[i]).composite_name
            == active.entries[i].composite_name && after[i].object_path
            == active.entries[i].object_path by {
            assert(after[i].composite_name == before[i].composite_name);
            assert(after[i].object_path == before[i].object_path);
        }
    }
}

/// A map that has been built anew from the backup holds the same objects as
/// the backup.
pub proof fn lemma_reapplied_same_objects(s: SessionView)
    ensures
        same_objects(reapplied(s).active, s.backup),
{
    lemma_enabled_on_same_objects(ActiveView { entries: s.backup, dirty: s.dirty }, s.mods);
}

/// Turning the enabled mods on leaves the map with the same objects.
pub proof fn lemma_enabled_on_same_objects(active: ActiveView, mods: Seq<ModEntryView>)
    ensures
        same_objects(enabled_on(active, mods).entries, active.entries),
    decreases mods.len(),
{
    if mods.len() > 0 {
        lemma_enabled_on_same_objects(active, mods.drop_last());
        let before = enabled_on(active, mods.drop_last());
        lemma_packages_on_same_objects(
            before,
            mods.last().mod_file.container,
            mods.last().mod_file.packages,
        );
        let after = enabled_on(active, mods).entries;
        assert forall|i: int| 0 <= i < after.len() implies (#[trigger] after[i]).composite_name
            == active.entries[i].composite_name && after[i].object_path
            == active.entries[i].object_path by {
            assert(after[i].composite_name == before.entries[i].composite_name);
            assert(after[i].object_path == before.entries[i].object_path);
        }
    }
}

/// In two maps of the same objects, the same objects answer for a path.
pub proof fn lemma_same_objects_match(a: Seq<EntryView>, b: Seq<EntryView>, query: Seq<char>)
    requires
        same_objects(a, b),
    ensures
        same_objects(
            crate::composite_mapper::matching(a, query),
            crate::composite_mapper::matching(b, query),
        ),
        forall|k: int|
            0 <= k < crate::composite_mapper::matching(b, query).len() ==> b.contains(
                #[trigger] crate::composite_mapper::matching(b, query)[k],
            ),
    decreases a.len(),
{
    if a.len() > 0 {
        let a0 = a.drop_last();
        let b0 = b.drop_last();
        assert(same_objects(a0, b0)) by {
            assert forall|i: int| 0 <= i < a0.len() implies (#[trigger] a0[i]).composite_name
                == b0[i].composite_name && a0[i].object_path == b0[i].object_path by {
                assert(a0[i] == a[i] && b0[i] == b[i]);
            }
        }
        lemma_same_objects_match(a0, b0, query);
        assert(a[a.len() - 1].object_path == b[b.len() - 1].object_path);
        let found = crate::composite_mapper::matching(b, query);
        let before = crate::composite_mapper::matching(b0, query);
        assert forall|k: int| 0 <= k < found.len() implies b.contains(#[trigger] found[k]) by {
            if k < before.len() {
                assert(found[k] == before[k]);
                let j = choose|j: int| 0 <= j < b0.len() && b0[j] == before[k];
                assert(b[j] == found[k]);
            } else {
                assert(b[b.len() - 1] == found[k]);
            }
        }
    }
}

/// Turning a mod on and off again gives the patched entry back what the
/// backup has for it. Let the active map hold the same objects as the
/// backup, and let a mod declare one object for which exactly one active
/// entry answers, so that turning the mod on patches that entry and no
/// other. Then, after the mod has been turned on and turned off, that entry
/// has the container, the offset and the size of the backup entry of its
/// identifier.
pub proof fn lemma_revert_patched_entry(
    active: ActiveView,
    backup: Seq<EntryView>,
    m: ModFileView,
    patched_entry: EntryView,
)
    requires
        unique_ids(active.entries),
        same_objects(active.entries, backup),
        m.packages.len() == 1,
        resolved_entry(active.entries, m.packages[0].object_path) == Some(patched_entry),
    ensures
        has_id(backup, patched_entry.composite_name),
        has_id(mod_off(mod_on(active, m), backup, m).entries, patched_entry.composite_name),
        ({
            let id = patched_entry.composite_name;
            let after = mod_off(mod_on(active, m), backup, m).entries;
            let e = after[id_index(after, id)];
            let o = backup[id_index(backup, id)];
            e.filename == o.filename && e.offset == o.offset && e.size == o.size
        }),
{
    let path = m.packages[0].object_path;
    let id = patched_entry.composite_name;
    lemma_same_objects_match(active.entries, backup, path);
    let in_active = crate::composite_mapper::matching(active.entries, path);
    let in_backup = crate::composite_mapper::matching(backup, path);
    assert(in_active.len() == 1 && in_active[0] == patched_entry);
    let o = in_backup[0];
    assert(o.composite_name == in_active[0].composite_name);
    assert(resolved_entry(backup, path) == Some(o));
    lemma_matching_has_id(active.entries, path);
    assert(unique_ids(backup)) by {
        assert forall|i: int, j: int|
            0 <= i < backup.len() && 0 <= j < backup.len() && i != j implies (
        #[trigger] backup[i]).composite_name != (#[trigger] backup[j]).composite_name by {
            assert(active.entries[i].composite_name == backup[i].composite_name);
            assert(active.entries[j].composite_name == backup[j].composite_name);
        }
    }
    assert(backup.contains(o));
    let k = choose|k: int| 0 <= k < backup.len() && backup[k] == o;
    crate::composite_mapper::lemma_id_index(backup, id, k);
    lemma_revert_to_origin(active, backup, m, o);
}

/// Every entry that answers for a path is an entry of the map.
pub proof fn lemma_matching_has_id(entries: Seq<EntryView>, query: Seq<char>)
    ensures
        forall|k: int|
            0 <= k < crate::composite_mapper::matching(entries, query).len() ==> has_id(
                entries,
                (#[trigger] crate::composite_mapper::matching(entries, query)[k]).composite_name,
            ),
    decreases entries.len(),
{
    if entries.len() > 0 {
        let shorter = entries.drop_last();
        lemma_matching_has_id(shorter, query);
        let found = crate::composite_mapper::matching(entries, query);
        let before = crate::composite_mapper::matching(shorter, query);
        assert forall|k: int| 0 <= k < found.len() implies has_id(
            entries,
            (#[trigger] found[k]).composite_name,
        ) by {
            if k < before.len() {
                assert(found[k] == before[k]);
                let i = id_index(shorter, before[k].composite_name);
                assert(entries[i].composite_name == found[k].composite_name);
            } else {
                assert(entries[entries.len() - 1].composite_name == found[k].composite_name);
            }
        }
    }
}


/// The lower-case name of a file without every `.gpk` at its end.
pub open spec fn file_stem(name: Seq<char>) -> Seq<char> {
    lowercase(without_gpk(name))
}

/// Whether one of two stems occurs in the other.
pub open spec fn stems_match(a: Seq<char>, b: Seq<char>) -> bool {
    contains_text(a, b) || contains_text(b, a)
}

/// An object of which only the path is known.
pub open spec fn bare_package(object_path: Seq<char>) -> PackageView {
    PackageView { object_path, offset: 0, size: 0, file_version: 0, licensee_version: 0 }
}

/// The objects that the name of a mod file points to: one for each entry of
/// `active` whose container has a stem that occurs in the stem of
/// `file_name` or in which that stem occurs, in the order of the map.
pub open spec fn fallback_packages(active: Seq<EntryView>, file_name: Seq<char>) -> Seq<PackageView>
    decreases active.len(),
{
    if active.len() == 0 {
        Seq::empty()
    } else {
        let before = fallback_packages(active.drop_last(), file_name);
        if stems_match(file_stem(file_name), file_stem(active.last().filename)) {
            before.push(bare_package(active.last().object_path))
        } else {
            before
        }
    }
}

/// Whether a mod package has to be resolved by the name of its file: it
/// could not be read, or it declares one object of no size.
pub open spec fn is_raw(read: Result<ModFileView, ReadError>) -> bool {
    match read {
        Err(_) => true,
        Ok(m) => m.packages.len() == 1 && m.packages[0].size == 0,
    }
}

/// `container`, or the name of the mod's file without `.gpk` where the mod
/// names no container.
pub open spec fn named_container(container: Seq<char>, file_name: Seq<char>) -> Seq<char> {
    if container.len() == 0 {
        without_gpk(file_name)
    } else {
        container
    }
}

/// What a mod package that is being installed declares, or nothing where it
/// cannot be installed.
pub open spec fn install_declaration(active: Seq<EntryView>, file_name: Seq<char>, data: Seq<u8>)
    -> Option<ModFileView> {
    let read = mod_file_of(data, empty_mod_file());
    let m = match read {
        Ok(m) => m,
        Err(_) => empty_mod_file(),
    };
    if is_raw(read) {
        let found = fallback_packages(active, file_name);
        if found.len() == 0 {
            None
        } else {
            Some(
                ModFileView {
                    packages: found,
                    mod_name: file_name,
                    container: named_container(m.container, file_name),
                    ..m
                },
            )
        }
    } else {
        Some(ModFileView { container: named_container(m.container, file_name), ..m })
    }
}

/// The session after the mod `m` of the file `file_name` has been installed:
/// the enabled mods that declare one of its objects are disabled and turned
/// off, the mod joins both lists, enabled, and unless mods are applied only
/// while the game runs it is turned on and the active map counts as changed.
pub open spec fn installed(s: SessionView, file_name: Seq<char>, m: ModFileView) -> SessionView {
    let cleared = conflicts_off(engine_of(s), s.backup, m.packages, -1, s.mods.len() as int);
    let entry = ModEntryView { file: file_name, enabled: true, mod_file: m };
    let active = if s.wait_for_tera {
        cleared.active
    } else {
        ActiveView { entries: mod_on(cleared.active, m).entries, dirty: true }
    };
    SessionView {
        active: active.entries,
        dirty: active.dirty,
        mods: cleared.mods.push(entry),
        saved_mods: s.saved_mods.push(entry),
        ..s
    }
}

/// The mod `entry` of the list after its file has been looked at. Without
/// the file it stays as listed. A package that can be read keeps what it
/// declares and is given a container where it names none. A package that has
/// to be resolved by the name of its file gets the objects that the name
/// points to, where it points to any, with the file's name as its name where
/// it has none and the file's stem as its container.
pub open spec fn scanned(active: Seq<EntryView>, entry: ModEntryView, data: Option<Seq<u8>>)
    -> ModEntryView {
    match data {
        None => entry,
        Some(d) => {
            let read = mod_file_of(d, entry.mod_file);
            let m = match read {
                Ok(m) => m,
                Err(_) => entry.mod_file,
            };
            if is_raw(read) {
                let found = fallback_packages(active, entry.file);
                if found.len() == 0 {
                    ModEntryView { mod_file: m, ..entry }
                } else {
                    ModEntryView {
                        mod_file: ModFileView {
                            packages: found,
                            mod_name: if m.mod_name.len() == 0 {
                                entry.file
                            } else {
                                m.mod_name
                            },
                            container: without_gpk(entry.file),
                            ..m
                        },
                        ..entry
                    }
                }
            } else {
                ModEntryView {
                    mod_file: ModFileView {
                        container: named_container(m.container, entry.file),
                        ..m
                    },
                    ..entry
                }
            }
        },
    }
}

/// The content of a file, where there is one.
pub open spec fn file_view(file: Option<Vec<u8>>) -> Option<Seq<u8>> {
    match file {
        Some(data) => Some(data@),
        None => None,
    }
}

/// The contents of a sequence of files.
pub open spec fn file_views(files: Seq<Option<Vec<u8>>>) -> Seq<Option<Seq<u8>>> {
    files.map_values(|f: Option<Vec<u8>>| file_view(f))
}

/// The content of the file at position `k`, or nothing where `files` is
/// shorter.
pub open spec fn file_at(files: Seq<Option<Seq<u8>>>, k: int) -> Option<Seq<u8>> {
    if 0 <= k < files.len() {
        files[k]
    } else {
        None
    }
}

/// The mods of the list after the file of each has been looked at.
pub open spec fn scanned_all(
    active: Seq<EntryView>,
    mods: Seq<ModEntryView>,
    files: Seq<Option<Seq<u8>>>,
) -> Seq<ModEntryView> {
    Seq::new(mods.len(), |k: int| scanned(active, mods[k], file_at(files, k)))
}

/// The session after it has been started from what the files hold.
pub open spec fn initialized(
    s: SessionView,
    backup_file: Seq<u8>,
    active_file: Seq<u8>,
    mods: Seq<ModEntryView>,
    files: Seq<Option<Seq<u8>>>,
) -> SessionView {
    let read = SessionView {
        active: loaded_entries(active_file),
        backup: loaded_entries(backup_file),
        mods: scanned_all(loaded_entries(active_file), mods, files),
        saved_mods: mods,
        dirty: false,
        ..s
    };
    if s.wait_for_tera {
        read
    } else {
        reapplied(read)
    }
}

/// The session after the mod at position `index` has been disabled.
pub open spec fn disabled_at(s: SessionView, index: int) -> SessionView {
    let mods = s.mods.update(index, with_enabled(s.mods[index], false));
    SessionView {
        active: if s.wait_for_tera {
            s.active
        } else {
            mod_off(active_of(s), s.backup, s.mods[index].mod_file).entries
        },
        mods,
        saved_mods: mods,
        dirty: s.dirty || !s.wait_for_tera,
        ..s
    }
}

/// `mods` without the mods at the positions `selected`.
pub open spec fn without_positions(mods: Seq<ModEntryView>, selected: Seq<usize>) -> Seq<
    ModEntryView,
>
    decreases mods.len(),
{
    if mods.len() == 0 {
        Seq::empty()
    } else {
        let before = without_positions(mods.drop_last(), selected);
        if selected.contains((mods.len() - 1) as usize) {
            before
        } else {
            before.push(mods.last())
        }
    }
}

fn position_selected(selected: &Vec<usize>, i: usize) -> (r: bool)
    ensures
        r == selected@.contains(i),
{
    let mut k: usize = 0;
    while k < selected.len()
        invariant
            k <= selected.len(),
            forall|j: int| 0 <= j < k ==> selected[j] != i,
        decreases selected.len() - k,
    {
        if selected[k] == i {
            return true;
        }
        k += 1;
    }
    false
}

/// The objects that the name of a mod file points to in `map`.
pub fn raw_fallback_packages(map: &CompositeMapperFile, file_name: &str) -> (packages: Vec<
    CompositePackage,
>)
    ensures
        package_views(packages@) == fallback_packages(map@, file_name@),
{
    let stem = to_lowercase(trim_gpk(file_name).as_str());
    let stem_chars = str_to_chars(stem.as_str());
    let ghost all = map@;
    let mut packages: Vec<CompositePackage> = Vec::new();
    let n = map.len();
    let mut i: usize = 0;
    assert(all.take(0) =~= Seq::<EntryView>::empty());
    assert(package_views(packages@) =~= Seq::<PackageView>::empty());
    while i < n
        invariant
            i <= n,
            n == all.len(),
            all == map@,
            stem_chars@ == file_stem(file_name@),
            package_views(packages@) == fallback_packages(all.take(i as int), file_name@),
        decreases n - i,
    {
        proof {
            assert(all.take(i + 1).drop_last() =~= all.take(i as int));
        }
        match map.entry_at(i) {
            None => {},
            Some(entry) => {
                assert(all.take(i + 1).last() == entry@);
                let entry_stem = to_lowercase(trim_gpk(entry.filename.as_str()).as_str());
                let entry_chars = str_to_chars(entry_stem.as_str());
                if text_contains(stem_chars.as_slice(), entry_chars.as_slice()) || text_contains(
                    entry_chars.as_slice(),
                    stem_chars.as_slice(),
                ) {
                    let p = CompositePackage {
                        object_path: entry.object_path,
                        offset: 0,
                        size: 0,
                        file_version: 0,
                        licensee_version: 0,
                    };
                    assert(package_views(packages@.push(p)) =~= package_views(packages@).push(p@));
                    packages.push(p);
                }
            },
        }
        i += 1;
    }
    assert(all.take(n as int) =~= all);
    packages
}

/// Looks at the file of the mod `entry` of the list, whose content is `data`
/// where it can be had, against the active map `map`.
pub fn scan_mod_file(map: &CompositeMapperFile, entry: &mut ModEntry, data: Option<&[u8]>)
    ensures
        final(entry)@ == scanned(map@, old(entry)@, slice_view(data)),
{
    let data = match data {
        None => {
            return ;
        },
        Some(data) => data,
    };
    let read_ok = read_mod_file(data, &mut entry.mod_file).is_ok();
    let raw = !read_ok || (entry.mod_file.packages.len() == 1 && entry.mod_file.packages[0].size
        == 0);
    proof {
        if read_ok && entry.mod_file.packages.len() == 1 {
            assert(entry.mod_file@.packages[0] == entry.mod_file.packages[0]@);
        }
    }
    if raw {
        let matched = raw_fallback_packages(map, entry.file.as_str());
        if matched.len() > 0 {
            entry.mod_file.packages = matched;
            if entry.mod_file.mod_name.as_str().is_empty() {
                entry.mod_file.mod_name = entry.file.clone();
            }
            entry.mod_file.container = trim_gpk(entry.file.as_str());
        }
    } else {
        if entry.mod_file.container.as_str().is_empty() {
            entry.mod_file.container = trim_gpk(entry.file.as_str());
        }
    }
}

/// The content of a borrowed file, where there is one.
pub open spec fn slice_view(file: Option<&[u8]>) -> Option<Seq<u8>> {
    match file {
        Some(data) => Some(data@),
        None => None,
    }
}

/// Whether one of the process names is that of the game, `tera.exe`,
/// without regard to ASCII case.
pub open spec fn names_game(names: Seq<String>) -> bool {
    exists|i: int| 0 <= i < names.len() && eq_ignore_ascii_case((#[trigger] names[i])@, "tera.exe"@)
}

/// Tells whether the game runs, from the names of the running processes.
pub fn check_tera(names: &Vec<String>) -> (running: bool)
    ensures
        running == names_game(names@),
{
    let mut i: usize = 0;
    while i < names.len()
        invariant
            i <= names.len(),
            forall|k: int| 0 <= k < i ==> !eq_ignore_ascii_case((#[trigger] names[k])@, "tera.exe"@),
        decreases names.len() - i,
    {
        if ascii_eq_ignore_case(names[i].as_str(), "tera.exe") {
            return true;
        }
        i += 1;
    }
    false
}

/// What has to happen to the backup of the composite map file.
#[derive(Debug, Clone, Copy, PartialEq, Eq, Structural)]
pub enum BackupAction {
    /// There is a backup; it stays as it is.
    Keep,
    /// There is none; the composite map file is copied to it.
    CopyLive,
    /// There is none and there is no composite map file to copy.
    Unavailable,
}

/// Decides what has to happen to the backup of the composite map file: it is
/// made once, from the composite map file, and never made again.
pub fn backup_composite_mapper(backup_exists: bool, live_exists: bool) -> (action: BackupAction)
    ensures
        backup_exists ==> action == BackupAction::Keep,
        !backup_exists && live_exists ==> action == BackupAction::CopyLive,
        !backup_exists && !live_exists ==> action == BackupAction::Unavailable,
{
    if backup_exists {
        BackupAction::Keep
    } else if live_exists {
        BackupAction::CopyLive
    } else {
        BackupAction::Unavailable
    }
}

} // verus!
