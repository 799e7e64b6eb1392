//! Mods: what a mod package declares, and the list of installed mods.
//!
//! A mod package ends in a footer that locates its name, its author, its
//! container and the offsets of the objects packed in it. A file without the
//! footer is taken as a single object that spans the file.

use crate::reader::{
    can_read, has_bytes, i32_at, le_bytes_i32, le_bytes_u16, le_bytes_u32, le_write_i32, le_write_u16,
    le_write_u32, read_i32_at, read_string_at, read_u16_at, read_u32_at, string_at, u16_at,
    u32_at, ByteReader, ReadError,
};
use crate::text::{str_to_chars, string_from_chars};
use vstd::prelude::*;
use vstd::utf8::{encode_utf8, is_ascii_chars};

verus! {

/// The number that ends a mod package and a mod list.
pub const PACKAGE_MAGIC: u32 = 0x9E2A83C1;

/// One object that a mod replaces.
#[derive(Debug, PartialEq, Eq)]
pub struct CompositePackage {
    /// The path of the object that is replaced.
    pub object_path: String,
    /// Where the object starts in the mod's container.
    pub offset: usize,
    /// How many bytes of the container the object takes.
    pub size: usize,
    pub file_version: u16,
    pub licensee_version: u16,
}

/// The mathematical value of a [`CompositePackage`].
pub struct PackageView {
    pub object_path: Seq<char>,
    pub offset: usize,
    pub size: usize,
    pub file_version: u16,
    pub licensee_version: u16,
}

impl View for CompositePackage {
    type V = PackageView;

    open spec fn view(&self) -> PackageView {
        PackageView {
            object_path: self.object_path@,
            offset: self.offset,
            size: self.size,
            file_version: self.file_version,
            licensee_version: self.licensee_version,
        }
    }
}

impl Clone for CompositePackage {
    fn clone(&self) -> (copy: Self)
        ensures
            copy@ == self@,
    {
        CompositePackage {
            object_path: self.object_path.clone(),
            offset: self.offset,
            size: self.size,
            file_version: self.file_version,
            licensee_version: self.licensee_version,
        }
    }
}

impl Default for CompositePackage {
    fn default() -> (package: Self)
        ensures
            package@ == (PackageView {
                object_path: Seq::empty(),
                offset: 0,
                size: 0,
                file_version: 0,
                licensee_version: 0,
            }),
    {
        CompositePackage {
            object_path: String::new(),
            offset: 0,
            size: 0,
            file_version: 0,
            licensee_version: 0,
        }
    }
}

/// One texture cache entry of a mod.
#[derive(Debug, Clone, Copy, PartialEq, Eq, Structural)]
pub struct TfcPackage {
    pub offset: i32,
    pub size: i32,
    pub idx: i32,
    pub idx_offset: i32,
}

impl Default for TfcPackage {
    fn default() -> (package: Self)
        ensures
            package == (TfcPackage { offset: 0, size: 0, idx: 0, idx_offset: 0 }),
    {
        TfcPackage { offset: 0, size: 0, idx: 0, idx_offset: 0 }
    }
}

/// What a mod package declares.
#[derive(Debug, PartialEq, Eq)]
pub struct ModFile {
    pub region_lock: bool,
    pub mod_file_version: i32,
    /// The name under which the mod is shown.
    pub mod_name: String,
    /// The container that the redirected entries point to.
    pub container: String,
    pub mod_author: String,
    /// The objects that the mod replaces, in the order of the package.
    pub packages: Vec<CompositePackage>,
    pub tfc_packages: Vec<TfcPackage>,
}

/// The mathematical value of a [`ModFile`].
pub struct ModFileView {
    pub region_lock: bool,
    pub mod_file_version: i32,
    pub mod_name: Seq<char>,
    pub container: Seq<char>,
    pub mod_author: Seq<char>,
    pub packages: Seq<PackageView>,
    pub tfc_packages: Seq<TfcPackage>,
}

/// The values of a sequence of packages.
pub open spec fn package_views(packages: Seq<CompositePackage>) -> Seq<PackageView> {
    packages.map_values(|p: CompositePackage| p@)
}

/// The value of a mod file that declares nothing.
pub open spec fn empty_mod_file() -> ModFileView {
    ModFileView {
        region_lock: false,
        mod_file_version: 0,
        mod_name: Seq::empty(),
        container: Seq::empty(),
        mod_author: Seq::empty(),
        packages: Seq::empty(),
        tfc_packages: Seq::empty(),
    }
}

impl View for ModFile {
    type V = ModFileView;

    open spec fn view(&self) -> ModFileView {
        ModFileView {
            region_lock: self.region_lock,
            mod_file_version: self.mod_file_version,
            mod_name: self.mod_name@,
            container: self.container@,
            mod_author: self.mod_author@,
            packages: package_views(self.packages@),
            tfc_packages: self.tfc_packages@,
        }
    }
}

/// Copies of `packages`.
pub fn clone_packages(packages: &Vec<CompositePackage>) -> (copy: Vec<CompositePackage>)
    ensures
        package_views(copy@) == package_views(packages@),
{
    let mut copy: Vec<CompositePackage> = Vec::with_capacity(packages.len());
    let mut i: usize = 0;
    while i < packages.len()
        invariant
            i <= packages.len(),
            copy.len() == i,
            forall|k: int| 0 <= k < i ==> (#[trigger] copy[k])@ == packages[k]@,
        decreases packages.len() - i,
    {
        copy.push(packages[i].clone());
        i += 1;
    }
    assert(package_views(copy@) =~= package_views(packages@));
    copy
}

fn clone_tfc_packages(packages: &Vec<TfcPackage>) -> (copy: Vec<TfcPackage>)
    ensures
        copy@ == packages@,
{
    let mut copy: Vec<TfcPackage> = Vec::with_capacity(packages.len());
    let mut i: usize = 0;
    while i < packages.len()
        invariant
            i <= packages.len(),
            copy.len() == i,
            forall|k: int| 0 <= k < i ==> copy[k] == packages[k],
        decreases packages.len() - i,
    {
        copy.push(packages[i]);
        i += 1;
    }
    assert(copy@ =~= packages@);
    copy
}

impl Clone for ModFile {
    fn clone(&self) -> (copy: Self)
        ensures
            copy@ == self@,
    {
        ModFile {
            region_lock: self.region_lock,
            mod_file_version: self.mod_file_version,
            mod_name: self.mod_name.clone(),
            container: self.container.clone(),
            mod_author: self.mod_author.clone(),
            packages: clone_packages(&self.packages),
            tfc_packages: clone_tfc_packages(&self.tfc_packages),
        }
    }
}

impl Default for ModFile {
    fn default() -> (mod_file: Self)
        ensures
            mod_file@ == empty_mod_file(),
    {
        let mod_file = ModFile {
            region_lock: false,
            mod_file_version: 0,
            mod_name: String::new(),
            container: String::new(),
            mod_author: String::new(),
            packages: Vec::new(),
            tfc_packages: Vec::new(),
        };
        assert(package_views(mod_file.packages@) =~= Seq::<PackageView>::empty());
        mod_file
    }
}

/// One installed mod.
#[derive(Debug, PartialEq, Eq)]
pub struct ModEntry {
    /// The name of the mod's file.
    pub file: String,
    /// Whether the mod is enabled.
    pub enabled: bool,
    /// What the mod declares.
    pub mod_file: ModFile,
}

/// The mathematical value of a [`ModEntry`].
pub struct ModEntryView {
    pub file: Seq<char>,
    pub enabled: bool,
    pub mod_file: ModFileView,
}

impl View for ModEntry {
    type V = ModEntryView;

    open spec fn view(&self) -> ModEntryView {
        ModEntryView { file: self.file@, enabled: self.enabled, mod_file: self.mod_file@ }
    }
}

impl Clone for ModEntry {
    fn clone(&self) -> (copy: Self)
        ensures
            copy@ == self@,
    {
        ModEntry {
            file: self.file.clone(),
            enabled: self.enabled,
            mod_file: self.mod_file.clone(),
        }
    }
}

impl Default for ModEntry {
    fn default() -> (entry: Self)
        ensures
            entry@ == (ModEntryView {
                file: Seq::empty(),
                enabled: false,
                mod_file: empty_mod_file(),
            }),
    {
        ModEntry { file: String::new(), enabled: false, mod_file: ModFile::default() }
    }
}

/// The values of a sequence of installed mods.
pub open spec fn mod_views(mods: Seq<ModEntry>) -> Seq<ModEntryView> {
    mods.map_values(|m: ModEntry| m@)
}

/// Copies of `mods`.
pub fn clone_mods(mods: &Vec<ModEntry>) -> (copy: Vec<ModEntry>)
    ensures
        mod_views(copy@) == mod_views(mods@),
{
    let mut copy: Vec<ModEntry> = Vec::with_capacity(mods.len());
    let mut i: usize = 0;
    while i < mods.len()
        invariant
            i <= mods.len(),
            copy.len() == i,
            forall|k: int| 0 <= k < i ==> (#[trigger] copy[k])@ == mods[k]@,
        decreases mods.len() - i,
    {
        copy.push(mods[i].clone());
        i += 1;
    }
    assert(mod_views(copy@) =~= mod_views(mods@));
    copy
}

/// The list of installed mods, as it is kept on disk.
#[derive(Debug, PartialEq, Eq)]
pub struct GameConfigFile {
    pub mods: Vec<ModEntry>,
}

impl View for GameConfigFile {
    type V = Seq<ModEntryView>;

    open spec fn view(&self) -> Seq<ModEntryView> {
        mod_views(self.mods@)
    }
}

impl Clone for GameConfigFile {
    fn clone(&self) -> (copy: Self)
        ensures
            copy@ == self@,
    {
        GameConfigFile { mods: clone_mods(&self.mods) }
    }
}

impl Default for GameConfigFile {
    fn default() -> (config: Self)
        ensures
            config@ == Seq::<ModEntryView>::empty(),
    {
        let config = GameConfigFile { mods: Vec::new() };
        assert(config@ =~= Seq::<ModEntryView>::empty());
        config
    }
}

/// Whether `s` starts with `MOD:`.
pub open spec fn has_mod_tag(s: Seq<char>) -> bool {
    s.len() >= 4 && s[0] == 'M' && s[1] == 'O' && s[2] == 'D' && s[3] == ':'
}

/// The object path that the folder name of a packed object declares: what
/// follows `MOD:`, and nothing where the name does not start with it.
pub open spec fn declared_path(folder: Seq<char>) -> Seq<char> {
    if has_mod_tag(folder) {
        folder.subrange(4, folder.len() as int)
    } else {
        Seq::empty()
    }
}

/// The object packed at `pos`, its size still open: the versions stand 4 and
/// 6 bytes behind `pos`, the folder name 12 bytes behind it.
pub open spec fn package_at(data: Seq<u8>, pos: int) -> Result<PackageView, ReadError> {
    if !can_read(data, pos + 4, 4) {
        Err(ReadError::UnexpectedEof)
    } else {
        match string_at(data, pos + 12) {
            Err(e) => Err(e),
            Ok(folder) => Ok(
                PackageView {
                    object_path: declared_path(folder.0),
                    offset: pos as usize,
                    size: 0,
                    file_version: u16_at(data, pos + 4),
                    licensee_version: u16_at(data, pos + 6),
                },
            ),
        }
    }
}

/// The first `count` numbers of the offset table at `pos`; none of them may
/// be negative.
pub open spec fn offsets_at(data: Seq<u8>, pos: int, count: int) -> Result<Seq<int>, ReadError>
    decreases count,
{
    if count <= 0 {
        Ok(Seq::empty())
    } else {
        match offsets_at(data, pos, count - 1) {
            Err(e) => Err(e),
            Ok(before) => {
                let at = pos + 4 * (count - 1);
                if !can_read(data, at, 4) {
                    Err(ReadError::UnexpectedEof)
                } else if i32_at(data, at) < 0 {
                    Err(ReadError::Malformed)
                } else {
                    Ok(before.push(i32_at(data, at) as int))
                }
            },
        }
    }
}

/// The objects packed at `offsets`, in order.
pub open spec fn packages_at(data: Seq<u8>, offsets: Seq<int>) -> Result<
    Seq<PackageView>,
    ReadError,
>
    decreases offsets.len(),
{
    if offsets.len() == 0 {
        Ok(Seq::empty())
    } else {
        match packages_at(data, offsets.drop_last()) {
            Err(e) => Err(e),
            Ok(before) => match package_at(data, offsets.last()) {
                Err(e) => Err(e),
                Ok(p) => Ok(before.push(p)),
            },
        }
    }
}

/// The size of object `i`: it reaches to the start of the next object, the
/// last one to `limit`.
pub open spec fn package_size(packages: Seq<PackageView>, limit: int, i: int) -> int {
    (if i + 1 < packages.len() {
        packages[i + 1].offset as int
    } else {
        limit
    }) - packages[i].offset
}

/// Whether no object has a negative size.
pub open spec fn sizes_fit(packages: Seq<PackageView>, limit: int) -> bool {
    forall|i: int| 0 <= i < packages.len() ==> #[trigger] package_size(packages, limit, i) >= 0
}

/// `packages` with their sizes.
pub open spec fn with_sizes(packages: Seq<PackageView>, limit: int) -> Seq<PackageView> {
    Seq::new(
        packages.len(),
        |i: int| PackageView { size: package_size(packages, limit, i) as usize, ..packages[i] },
    )
}

/// The footer of a mod package: nine 32-bit numbers, of which the last is
/// [`PACKAGE_MAGIC`].
pub struct Footer {
    pub meta_size: int,
    pub count: int,
    pub offsets_offset: int,
    pub container_offset: int,
    pub name_offset: int,
    pub author_offset: int,
    pub version: i32,
    pub region_lock: bool,
}

/// The footer that `data` ends with.
pub open spec fn footer_of(data: Seq<u8>) -> Footer {
    let end = data.len() as int;
    Footer {
        meta_size: i32_at(data, end - 8) as int,
        count: i32_at(data, end - 12) as int,
        offsets_offset: i32_at(data, end - 16) as int,
        container_offset: i32_at(data, end - 20) as int,
        name_offset: i32_at(data, end - 24) as int,
        author_offset: i32_at(data, end - 28) as int,
        version: i32_at(data, end - 32),
        region_lock: i32_at(data, end - 36) != 0,
    }
}

/// Whether the footer of a package of `end` bytes holds no negative number
/// and no more metadata than the package has.
pub open spec fn footer_fits(f: Footer, end: int) -> bool {
    f.meta_size >= 0 && f.count >= 0 && f.offsets_offset >= 0 && f.container_offset >= 0
        && f.name_offset >= 0 && f.author_offset >= 0 && f.meta_size + 4 <= end
}

/// What a package with a footer declares. The texture cache entries of
/// `before` stay.
pub open spec fn packed_mod_file(data: Seq<u8>, before: ModFileView) -> Result<
    ModFileView,
    ReadError,
> {
    let end = data.len() as int;
    let f = footer_of(data);
    if end < 36 {
        Err(ReadError::UnexpectedEof)
    } else if !footer_fits(f, end) {
        Err(ReadError::Malformed)
    } else {
        match string_at(data, f.author_offset) {
            Err(e) => Err(e),
            Ok(author) => match string_at(data, f.name_offset) {
                Err(e) => Err(e),
                Ok(name) => match string_at(data, f.container_offset) {
                    Err(e) => Err(e),
                    Ok(container) => match offsets_at(data, f.offsets_offset, f.count) {
                        Err(e) => Err(e),
                        Ok(offsets) => match packages_at(data, offsets) {
                            Err(e) => Err(e),
                            Ok(packages) => if !sizes_fit(packages, end - f.meta_size) {
                                Err(ReadError::Malformed)
                            } else {
                                Ok(
                                    ModFileView {
                                        region_lock: f.region_lock,
                                        mod_file_version: f.version,
                                        mod_name: name.0,
                                        container: container.0,
                                        mod_author: author.0,
                                        packages: with_sizes(packages, end - f.meta_size),
                                        tfc_packages: before.tfc_packages,
                                    },
                                )
                            },
                        },
                    },
                },
            },
        }
    }
}

/// What the mod package `data` declares, read into a mod file that was
/// `before`. A package that ends with [`PACKAGE_MAGIC`] is read by its footer.
/// Any other is one object from the start of the file, as long as the file,
/// which is added to the objects of `before`.
pub open spec fn mod_file_of(data: Seq<u8>, before: ModFileView) -> Result<ModFileView, ReadError> {
    if data.len() < 4 {
        Err(ReadError::UnexpectedEof)
    } else if u32_at(data, data.len() - 4) == PACKAGE_MAGIC {
        packed_mod_file(data, before)
    } else {
        match package_at(data, 0) {
            Err(e) => Err(e),
            Ok(p) => Ok(
                ModFileView {
                    packages: before.packages.push(
                        PackageView { size: data.len() as usize, ..p },
                    ),
                    ..before
                },
            ),
        }
    }
}

/// Reads the object packed at `pos`, its size still open.
pub fn read_composite_package(data: &[u8], pos: usize) -> (r: Result<CompositePackage, ReadError>)
    ensures
        match r {
            Ok(p) => package_at(data@, pos as int) == Ok::<PackageView, ReadError>(p@),
            Err(e) => package_at(data@, pos as int) == Err::<PackageView, ReadError>(e),
        },
{
    if !has_bytes(data, pos, 16) {
        // the versions or the length of the folder name lie behind the end
        return Err(ReadError::UnexpectedEof);
    }
    let file_version = match read_u16_at(data, pos + 4) {
        Err(e) => {
            return Err(e);
        },
        Ok(v) => v,
    };
    let licensee_version = match read_u16_at(data, pos + 6) {
        Err(e) => {
            return Err(e);
        },
        Ok(v) => v,
    };
    let folder = match read_string_at(data, pos + 12) {
        Err(e) => {
            return Err(e);
        },
        Ok(found) => found.0,
    };
    let chars = str_to_chars(folder.as_str());
    let n = chars.len();
    let object_path = if n >= 4 && chars[0] == 'M' && chars[1] == 'O' && chars[2] == 'D' && chars[3]
        == ':' {
        string_from_chars(chars.as_slice(), 4, n)
    } else {
        String::new()
    };
    Ok(CompositePackage { object_path, offset: pos, size: 0, file_version, licensee_version })
}


/// The numbers of a sequence of positions.
pub open spec fn positions(offsets: Seq<usize>) -> Seq<int> {
    offsets.map_values(|x: usize| x as int)
}

/// An offset table that cannot be read up to some length cannot be read
/// beyond it, and fails in the same way.
pub proof fn lemma_offsets_error_stays(data: Seq<u8>, pos: int, k: int, n: int)
    requires
        0 <= k <= n,
        offsets_at(data, pos, k) is Err,
    ensures
        offsets_at(data, pos, n) == offsets_at(data, pos, k),
    decreases n - k,
{
    if k < n {
        lemma_offsets_error_stays(data, pos, k, n - 1);
    }
}

/// Objects that cannot be read up to some offset cannot be read beyond it,
/// and fail in the same way.
pub proof fn lemma_packages_error_stays(data: Seq<u8>, offsets: Seq<int>, k: int)
    requires
        0 <= k <= offsets.len(),
        packages_at(data, offsets.take(k)) is Err,
    ensures
        packages_at(data, offsets) == packages_at(data, offsets.take(k)),
    decreases offsets.len() - k,
{
    if k < offsets.len() {
        assert(offsets.drop_last().take(k) =~= offsets.take(k));
        lemma_packages_error_stays(data, offsets.drop_last(), k);
    } else {
        assert(offsets.take(k) =~= offsets);
    }
}

fn read_offsets(data: &[u8], pos: usize, count: usize) -> (r: Result<Vec<usize>, ReadError>)
    ensures
        match r {
            Ok(offsets) => offsets_at(data@, pos as int, count as int) == Ok::<
                Seq<int>,
                ReadError,
            >(positions(offsets@)) && offsets.len() == count && forall|k: int|
                0 <= k < offsets.len() ==> #[trigger] offsets[k] <= i32::MAX,
            Err(e) => offsets_at(data@, pos as int, count as int) == Err::<Seq<int>, ReadError>(e),
        },
{
    let mut offsets: Vec<usize> = Vec::new();
    let mut at: usize = pos;
    let mut i: usize = 0;
    assert(positions(offsets@) =~= Seq::<int>::empty());
    while i < count
        invariant
            i <= count,
            at == pos + 4 * i,
            offsets.len() == i,
            offsets_at(data@, pos as int, i as int) == Ok::<Seq<int>, ReadError>(positions(offsets@)),
            forall|k: int| 0 <= k < offsets.len() ==> #[trigger] offsets[k] <= i32::MAX,
        decreases count - i,
    {
        let v = match read_i32_at(data, at) {
            Err(e) => {
                proof {
                    lemma_offsets_error_stays(data@, pos as int, i + 1, count as int);
                }
                return Err(e);
            },
            Ok(v) => v,
        };
        if v < 0 {
            proof {
                lemma_offsets_error_stays(data@, pos as int, i + 1, count as int);
            }
            return Err(ReadError::Malformed);
        }
        assert(positions(offsets@.push(v as usize)) =~= positions(offsets@).push(v as int));
        offsets.push(v as usize);
        at = at + 4;
        i += 1;
    }
    Ok(offsets)
}

fn read_packages(data: &[u8], offsets: &Vec<usize>) -> (r: Result<Vec<CompositePackage>, ReadError>)
    ensures
        match r {
            Ok(packages) => packages_at(data@, positions(offsets@)) == Ok::<
                Seq<PackageView>,
                ReadError,
            >(package_views(packages@)),
            Err(e) => packages_at(data@, positions(offsets@)) == Err::<Seq<PackageView>, ReadError>(
                e,
            ),
        },
{
    let ghost all = positions(offsets@);
    let mut packages: Vec<CompositePackage> = Vec::new();
    let mut k: usize = 0;
    assert(package_views(packages@) =~= Seq::<PackageView>::empty());
    assert(all.take(0) =~= Seq::<int>::empty());
    while k < offsets.len()
        invariant
            k <= offsets.len(),
            all == positions(offsets@),
            packages_at(data@, all.take(k as int)) == Ok::<Seq<PackageView>, ReadError>(
                package_views(packages@),
            ),
        decreases offsets.len() - k,
    {
        proof {
            assert(all.take(k + 1).drop_last() =~= all.take(k as int));
            assert(all.take(k + 1).last() == offsets[k as int] as int);
        }
        let p = match read_composite_package(data, offsets[k]) {
            Err(e) => {
                proof {
                    lemma_packages_error_stays(data@, all, k + 1);
                }
                return Err(e);
            },
            Ok(p) => p,
        };
        assert(package_views(packages@.push(p)) =~= package_views(packages@).push(p@));
        packages.push(p);
        k += 1;
    }
    assert(all.take(offsets.len() as int) =~= all);
    Ok(packages)
}

/// Gives every object its size: it reaches to the start of the next object,
/// the last one to `limit`. Refuses where a size would be negative.
fn size_packages(packages: Vec<CompositePackage>, limit: usize) -> (r: Result<
    Vec<CompositePackage>,
    ReadError,
>)
    ensures
        match r {
            Ok(sized) => sizes_fit(package_views(packages@), limit as int) && package_views(sized@)
                == with_sizes(package_views(packages@), limit as int),
            Err(e) => !sizes_fit(package_views(packages@), limit as int) && e
                == ReadError::Malformed,
        },
{
    let ghost open = package_views(packages@);
    let n = packages.len();
    let mut sized: Vec<CompositePackage> = Vec::with_capacity(n);
    let mut j: usize = 0;
    while j < n
        invariant
            j <= n,
            n == packages.len(),
            open == package_views(packages@),
            sized.len() == j,
            forall|t: int| 0 <= t < j ==> #[trigger] package_size(open, limit as int, t) >= 0,
            forall|t: int|
                0 <= t < j ==> (#[trigger] sized[t])@ == (PackageView {
                    size: package_size(open, limit as int, t) as usize,
                    ..open[t]
                }),
        decreases n - j,
    {
        let next = if j + 1 < n {
            packages[j + 1].offset
        } else {
            limit
        };
        let current = &packages[j];
        assert(open[j as int] == current@);
        assert(j + 1 < n ==> open[j + 1] == packages[j + 1]@);
        if next < current.offset {
            assert(package_size(open, limit as int, j as int) < 0);
            return Err(ReadError::Malformed);
        }
        sized.push(
            CompositePackage {
                object_path: current.object_path.clone(),
                offset: current.offset,
                size: next - current.offset,
                file_version: current.file_version,
                licensee_version: current.licensee_version,
            },
        );
        j += 1;
    }
    assert(package_views(sized@) =~= with_sizes(open, limit as int));
    Ok(sized)
}

fn footer_field(data: &[u8], back: usize) -> (r: Result<usize, ReadError>)
    requires
        4 <= back <= 36 <= data.len(),
    ensures
        match r {
            Ok(v) => v == i32_at(data@, data.len() - back) && v <= i32::MAX,
            Err(e) => i32_at(data@, data.len() - back) < 0 && e == ReadError::Malformed,
        },
{
    match read_i32_at(data, data.len() - back) {
        Ok(v) => if v < 0 {
            Err(ReadError::Malformed)
        } else {
            Ok(v as usize)
        },
        Err(_) => Err(ReadError::Malformed),
    }
}

fn read_packed_mod_file(data: &[u8], tfc_packages: Vec<TfcPackage>) -> (r: Result<
    ModFile,
    ReadError,
>)
    ensures
        match r {
            Ok(m) => packed_mod_file(
                data@,
                ModFileView { tfc_packages: tfc_packages@, ..empty_mod_file() },
            ) == Ok::<ModFileView, ReadError>(m@),
            Err(e) => packed_mod_file(
                data@,
                ModFileView { tfc_packages: tfc_packages@, ..empty_mod_file() },
            ) == Err::<ModFileView, ReadError>(e),
        },
{
    let end = data.len();
    if end < 36 {
        return Err(ReadError::UnexpectedEof);
    }
    let meta_size = match footer_field(data, 8) {
        Err(e) => {
            return Err(e);
        },
        Ok(v) => v,
    };
    let count = match footer_field(data, 12) {
        Err(e) => {
            return Err(e);
        },
        Ok(v) => v,
    };
    let offsets_offset = match footer_field(data, 16) {
        Err(e) => {
            return Err(e);
        },
        Ok(v) => v,
    };
    let container_offset = match footer_field(data, 20) {
        Err(e) => {
            return Err(e);
        },
        Ok(v) => v,
    };
    let name_offset = match footer_field(data, 24) {
        Err(e) => {
            return Err(e);
        },
        Ok(v) => v,
    };
    let author_offset = match footer_field(data, 28) {
        Err(e) => {
            return Err(e);
        },
        Ok(v) => v,
    };
    let version = match read_i32_at(data, end - 32) {
        Err(e) => {
            return Err(e);
        },
        Ok(v) => v,
    };
    let lock = match read_i32_at(data, end - 36) {
        Err(e) => {
            return Err(e);
        },
        Ok(v) => v,
    };
    if meta_size > end - 4 {
        return Err(ReadError::Malformed);
    }
    let mod_author = match read_string_at(data, author_offset) {
        Err(e) => {
            return Err(e);
        },
        Ok(found) => found.0,
    };
    let mod_name = match read_string_at(data, name_offset) {
        Err(e) => {
            return Err(e);
        },
        Ok(found) => found.0,
    };
    let container = match read_string_at(data, container_offset) {
        Err(e) => {
            return Err(e);
        },
        Ok(found) => found.0,
    };
    let offsets = match read_offsets(data, offsets_offset, count) {
        Err(e) => {
            return Err(e);
        },
        Ok(offsets) => offsets,
    };
    let open = match read_packages(data, &offsets) {
        Err(e) => {
            return Err(e);
        },
        Ok(packages) => packages,
    };
    let packages = match size_packages(open, end - meta_size) {
        Err(e) => {
            return Err(e);
        },
        Ok(packages) => packages,
    };
    Ok(
        ModFile {
            region_lock: lock != 0,
            mod_file_version: version,
            mod_name,
            container,
            mod_author,
            packages,
            tfc_packages,
        },
    )
}

/// Reads what the mod package `data` declares into `m`. On failure `m` stays
/// as it was.
pub fn read_mod_file(data: &[u8], m: &mut ModFile) -> (r: Result<(), ReadError>)
    ensures
        match r {
            Ok(_) => mod_file_of(data@, old(m)@) == Ok::<ModFileView, ReadError>(final(m)@),
            Err(e) => mod_file_of(data@, old(m)@) == Err::<ModFileView, ReadError>(e) && *final(m)
                == *old(m),
        },
{
    let end = data.len();
    if end < 4 {
        return Err(ReadError::UnexpectedEof);
    }
    let magic = match read_u32_at(data, end - 4) {
        Err(e) => {
            return Err(e);
        },
        Ok(v) => v,
    };
    if magic == PACKAGE_MAGIC {
        match read_packed_mod_file(data, clone_tfc_packages(&m.tfc_packages)) {
            Err(e) => Err(e),
            Ok(read) => {
                *m = read;
                Ok(())
            },
        }
    } else {
        match read_composite_package(data, 0) {
            Err(e) => Err(e),
            Ok(p) => {
                let whole = CompositePackage {
                    object_path: p.object_path,
                    offset: p.offset,
                    size: end,
                    file_version: p.file_version,
                    licensee_version: p.licensee_version,
                };
                assert(package_views(m.packages@.push(whole)) =~= package_views(m.packages@).push(
                    whole@,
                ));
                m.packages.push(whole);
                Ok(())
            },
        }
    }
}


/// Why writing to a byte buffer failed.
#[derive(Debug, Clone, Copy, PartialEq, Eq, Structural)]
pub enum WriteError {
    /// A length does not fit the 32 bits that the format gives it.
    TooLong,
}

/// The UTF-16 units of `c`: one for a character of the basic plane, a
/// surrogate pair for any other.
pub open spec fn char_units(c: char) -> Seq<u16> {
    let v = c as int;
    if v < 0x10000 {
        seq![v as u16]
    } else {
        seq![(0xD800 + (v - 0x10000) / 0x400) as u16, (0xDC00 + (v - 0x10000) % 0x400) as u16]
    }
}

/// The UTF-16 units of `s`.
pub open spec fn utf16_units(s: Seq<char>) -> Seq<u16>
    decreases s.len(),
{
    if s.len() == 0 {
        Seq::empty()
    } else {
        utf16_units(s.drop_last()) + char_units(s.last())
    }
}

/// The bytes of `units`, each low byte first.
pub open spec fn units_bytes(units: Seq<u16>) -> Seq<u8>
    decreases units.len(),
{
    if units.len() == 0 {
        Seq::empty()
    } else {
        units_bytes(units.drop_last()) + le_bytes_u16(units.last())
    }
}

/// Whether the length of `s` fits the 32 bits that the format gives it.
pub open spec fn string_fits(s: Seq<char>) -> bool {
    if is_ascii_chars(s) {
        s.len() <= i32::MAX
    } else {
        utf16_units(s).len() <= i32::MAX
    }
}

/// The bytes that write `s`: an ASCII string as its length and its bytes, any
/// other as the negated number of its UTF-16 units and those units.
pub open spec fn string_bytes(s: Seq<char>) -> Seq<u8> {
    if is_ascii_chars(s) {
        le_bytes_i32(s.len() as i32) + encode_utf8(s)
    } else {
        le_bytes_i32((-(utf16_units(s).len() as int)) as i32) + units_bytes(utf16_units(s))
    }
}

fn append_bytes(out: &mut Vec<u8>, bytes: &[u8])
    ensures
        final(out)@ == old(out)@ + bytes@,
{
    let mut i: usize = 0;
    while i < bytes.len()
        invariant
            i <= bytes.len(),
            out@ == old(out)@ + bytes@.take(i as int),
        decreases bytes.len() - i,
    {
        out.push(bytes[i]);
        assert(bytes@.take(i + 1) =~= bytes@.take(i as int).push(bytes[i as int]));
        i += 1;
    }
    assert(bytes@.take(bytes.len() as int) =~= bytes@);
}

fn char_code(c: char) -> (code: u32)
    ensures
        code == c as int,
        code <= 0x10FFFF,
{
    c as u32
}

/// The UTF-16 units of `s`.
pub fn encode_utf16(s: &str) -> (units: Vec<u16>)
    ensures
        units@ == utf16_units(s@),
{
    let chars = str_to_chars(s);
    let mut units: Vec<u16> = Vec::new();
    let mut i: usize = 0;
    assert(chars@.take(0) =~= Seq::<char>::empty());
    while i < chars.len()
        invariant
            i <= chars.len(),
            chars@ == s@,
            units@ == utf16_units(chars@.take(i as int)),
        decreases chars.len() - i,
    {
        let v = char_code(chars[i]);
        proof {
            assert(chars@.take(i + 1).drop_last() =~= chars@.take(i as int));
            assert(chars@.take(i + 1).last() == chars[i as int]);
        }
        let ghost before = units@;
        if v < 0x10000 {
            units.push(v as u16);
            assert(units@ =~= before + char_units(chars[i as int]));
        } else {
            let w = v - 0x10000;
            units.push((0xD800 + w / 0x400) as u16);
            units.push((0xDC00 + w % 0x400) as u16);
            assert(units@ =~= before + char_units(chars[i as int]));
        }
        i += 1;
    }
    assert(chars@.take(chars.len() as int) =~= chars@);
    units
}

/// Appends `s` to `w` as a length-prefixed string. Refuses, and leaves `w` as
/// it is, where the length does not fit 32 bits.
pub fn write_string(w: &mut Vec<u8>, s: &str) -> (r: Result<(), WriteError>)
    ensures
        r is Ok <==> string_fits(s@),
        r is Ok ==> final(w)@ == old(w)@ + string_bytes(s@),
        r is Err ==> final(w)@ == old(w)@,
{
    broadcast use vstd::string::is_ascii_spec_bytes;

    if s.is_ascii() {
        let bytes = s.as_bytes();
        let n = bytes.len();
        assert(n == s@.len());
        if n > 0x7fff_ffff {
            return Err(WriteError::TooLong);
        }
        let size = le_write_i32(n as i32);
        append_bytes(w, size.as_slice());
        append_bytes(w, bytes);
        assert(w@ =~= old(w)@ + string_bytes(s@));
        Ok(())
    } else {
        let units = encode_utf16(s);
        let n = units.len();
        if n > 0x7fff_ffff {
            return Err(WriteError::TooLong);
        }
        let size = le_write_i32(-(n as i32));
        append_bytes(w, size.as_slice());
        let ghost head = w@;
        let mut i: usize = 0;
        assert(units@.take(0) =~= Seq::<u16>::empty());
        while i < n
            invariant
                i <= n,
                n == units.len(),
                w@ == head + units_bytes(units@.take(i as int)),
            decreases n - i,
        {
            proof {
                assert(units@.take(i + 1).drop_last() =~= units@.take(i as int));
                assert(units@.take(i + 1).last() == units[i as int]);
            }
            let pair = le_write_u16(units[i]);
            append_bytes(w, pair.as_slice());
            assert(w@ =~= head + (units_bytes(units@.take(i as int)) + le_bytes_u16(
                units[i as int],
            )));
            i += 1;
        }
        assert(units@.take(n as int) =~= units@);
        assert(w@ =~= old(w)@ + string_bytes(s@));
        Ok(())
    }
}

/// The mod of the list at `pos`, with the position behind it: whether it is
/// enabled, its file, its name and its container.
pub open spec fn listed_mod_at(data: Seq<u8>, pos: int) -> Result<(ModEntryView, int), ReadError> {
    if !can_read(data, pos, 4) {
        Err(ReadError::UnexpectedEof)
    } else {
        match string_at(data, pos + 4) {
            Err(e) => Err(e),
            Ok(file) => match string_at(data, file.1) {
                Err(e) => Err(e),
                Ok(name) => match string_at(data, name.1) {
                    Err(e) => Err(e),
                    Ok(container) => Ok(
                        (
                            ModEntryView {
                                file: file.0,
                                enabled: i32_at(data, pos) != 0,
                                mod_file: ModFileView {
                                    mod_name: name.0,
                                    container: container.0,
                                    ..empty_mod_file()
                                },
                            },
                            container.1,
                        ),
                    ),
                },
            },
        }
    }
}

/// The first `count` mods of the list that starts at `pos`, with the position
/// behind them.
pub open spec fn listed_mods_at(data: Seq<u8>, pos: int, count: int) -> Result<
    (Seq<ModEntryView>, int),
    ReadError,
>
    decreases count,
{
    if count <= 0 {
        Ok((Seq::empty(), pos))
    } else {
        match listed_mods_at(data, pos, count - 1) {
            Err(e) => Err(e),
            Ok(before) => match listed_mod_at(data, before.1) {
                Err(e) => Err(e),
                Ok(next) => Ok((before.0.push(next.0), next.1)),
            },
        }
    }
}

/// The mod list at `pos`, with the position behind it: the number of mods,
/// which may not be negative, and the mods.
pub open spec fn game_config_at(data: Seq<u8>, pos: int) -> Result<
    (Seq<ModEntryView>, int),
    ReadError,
> {
    if !can_read(data, pos, 4) {
        Err(ReadError::UnexpectedEof)
    } else if i32_at(data, pos) < 0 {
        Err(ReadError::Malformed)
    } else {
        listed_mods_at(data, pos + 4, i32_at(data, pos) as int)
    }
}

/// A list that cannot be read up to some length cannot be read beyond it, and
/// fails in the same way.
pub proof fn lemma_listed_error_stays(data: Seq<u8>, pos: int, k: int, n: int)
    requires
        0 <= k <= n,
        listed_mods_at(data, pos, k) is Err,
    ensures
        listed_mods_at(data, pos, n) == listed_mods_at(data, pos, k),
    decreases n - k,
{
    if k < n {
        lemma_listed_error_stays(data, pos, k, n - 1);
    }
}

fn read_listed_mod(data: &[u8], pos: usize) -> (r: Result<(ModEntry, usize), ReadError>)
    ensures
        match r {
            Ok(found) => listed_mod_at(data@, pos as int) == Ok::<(ModEntryView, int), ReadError>(
                (found.0@, found.1 as int),
            ),
            Err(e) => listed_mod_at(data@, pos as int) == Err::<(ModEntryView, int), ReadError>(e),
        },
{
    let flag = match read_i32_at(data, pos) {
        Err(e) => {
            return Err(e);
        },
        Ok(v) => v,
    };
    let file = match read_string_at(data, pos + 4) {
        Err(e) => {
            return Err(e);
        },
        Ok(found) => found,
    };
    let name = match read_string_at(data, file.1) {
        Err(e) => {
            return Err(e);
        },
        Ok(found) => found,
    };
    let container = match read_string_at(data, name.1) {
        Err(e) => {
            return Err(e);
        },
        Ok(found) => found,
    };
    let mut mod_file = ModFile::default();
    mod_file.mod_name = name.0;
    mod_file.container = container.0;
    Ok((ModEntry { file: file.0, enabled: flag != 0, mod_file }, container.1))
}

/// Reads a mod list and moves the reader behind it. On failure the reader
/// stays where it was.
pub fn read_game_config(s: &mut ByteReader) -> (r: Result<GameConfigFile, ReadError>)
    ensures
        final(s).data == old(s).data,
        match r {
            Ok(config) => game_config_at(old(s).data@, old(s).pos as int) == Ok::<
                (Seq<ModEntryView>, int),
                ReadError,
            >((config@, final(s).pos as int)),
            Err(e) => game_config_at(old(s).data@, old(s).pos as int) == Err::<
                (Seq<ModEntryView>, int),
                ReadError,
            >(e) && final(s).pos == old(s).pos,
        },
{
    let data = s.data;
    let start = s.pos;
    let count = match read_i32_at(data, start) {
        Err(e) => {
            return Err(e);
        },
        Ok(v) => v,
    };
    if count < 0 {
        return Err(ReadError::Malformed);
    }
    let count = count as usize;
    let first = start + 4;
    let mut mods: Vec<ModEntry> = Vec::new();
    let mut pos: usize = first;
    let mut i: usize = 0;
    assert(mod_views(mods@) =~= Seq::<ModEntryView>::empty());
    while i < count
        invariant
            i <= count,
            *s == *old(s),
            data == s.data,
            start == s.pos,
            first == start + 4,
            can_read(data@, start as int, 4),
            count == i32_at(data@, start as int),
            listed_mods_at(data@, first as int, i as int) == Ok::<
                (Seq<ModEntryView>, int),
                ReadError,
            >((mod_views(mods@), pos as int)),
        decreases count - i,
    {
        match read_listed_mod(data, pos) {
            Err(e) => {
                proof {
                    lemma_listed_error_stays(data@, first as int, i + 1, count as int);
                }
                return Err(e);
            },
            Ok(found) => {
                assert(mod_views(mods@.push(found.0)) =~= mod_views(mods@).push(found.0@));
                mods.push(found.0);
                pos = found.1;
            },
        }
        i += 1;
    }
    s.pos = pos;
    Ok(GameConfigFile { mods })
}

/// Whether the number of mods and the length of every string of the list fit
/// the 32 bits that the format gives them.
pub open spec fn config_fits(mods: Seq<ModEntryView>) -> bool {
    mods.len() <= i32::MAX && forall|i: int|
        0 <= i < mods.len() ==> string_fits((#[trigger] mods[i]).file) && string_fits(
            mods[i].mod_file.mod_name,
        ) && string_fits(mods[i].mod_file.container)
}

/// The bytes that write one mod of the list.
pub open spec fn listed_mod_bytes(m: ModEntryView) -> Seq<u8> {
    le_bytes_i32(
        if m.enabled {
            1i32
        } else {
            0i32
        },
    ) + string_bytes(m.file) + string_bytes(m.mod_file.mod_name) + string_bytes(
        m.mod_file.container,
    )
}

/// The bytes that write the mods of the list, one behind the other.
pub open spec fn listed_mods_bytes(mods: Seq<ModEntryView>) -> Seq<u8>
    decreases mods.len(),
{
    if mods.len() == 0 {
        Seq::empty()
    } else {
        listed_mods_bytes(mods.drop_last()) + listed_mod_bytes(mods.last())
    }
}

/// The bytes that write a mod list: the number of mods, the mods, and
/// [`PACKAGE_MAGIC`].
pub open spec fn config_bytes(mods: Seq<ModEntryView>) -> Seq<u8> {
    le_bytes_i32(mods.len() as i32) + listed_mods_bytes(mods) + le_bytes_u32(PACKAGE_MAGIC)
}

fn listed_mod_to_bytes(m: &ModEntry) -> (r: Result<Vec<u8>, WriteError>)
    ensures
        r is Ok <==> string_fits(m@.file) && string_fits(m@.mod_file.mod_name) && string_fits(
            m@.mod_file.container,
        ),
        r is Ok ==> r->Ok_0@ == listed_mod_bytes(m@),
{
    let mut out: Vec<u8> = Vec::new();
    let flag = le_write_i32(
        if m.enabled {
            1
        } else {
            0
        },
    );
    append_bytes(&mut out, flag.as_slice());
    if write_string(&mut out, m.file.as_str()).is_err() {
        return Err(WriteError::TooLong);
    }
    if write_string(&mut out, m.mod_file.mod_name.as_str()).is_err() {
        return Err(WriteError::TooLong);
    }
    if write_string(&mut out, m.mod_file.container.as_str()).is_err() {
        return Err(WriteError::TooLong);
    }
    assert(out@ =~= listed_mod_bytes(m@));
    Ok(out)
}

/// Appends the mod list `cfg` to `s`. Refuses, and leaves `s` as it is, where
/// a length does not fit 32 bits.
pub fn write_game_config(cfg: &GameConfigFile, s: &mut Vec<u8>) -> (r: Result<(), WriteError>)
    ensures
        r is Ok <==> config_fits(cfg@),
        r is Ok ==> final(s)@ == old(s)@ + config_bytes(cfg@),
        r is Err ==> final(s)@ == old(s)@,
{
    let n = cfg.mods.len();
    if n > 0x7fff_ffff {
        return Err(WriteError::TooLong);
    }
    let ghost all = cfg@;
    let mut out: Vec<u8> = Vec::new();
    let count = le_write_i32(n as i32);
    append_bytes(&mut out, count.as_slice());
    let mut i: usize = 0;
    assert(all.take(0) =~= Seq::<ModEntryView>::empty());
    while i < n
        invariant
            i <= n,
            n == cfg.mods.len(),
            n <= i32::MAX,
            all == cfg@,
            out@ == le_bytes_i32(n as i32) + listed_mods_bytes(all.take(i as int)),
            forall|k: int|
                0 <= k < i ==> string_fits((#[trigger] all[k]).file) && string_fits(
                    all[k].mod_file.mod_name,
                ) && string_fits(all[k].mod_file.container),
        decreases n - i,
    {
        let m = &cfg.mods[i];
        proof {
            assert(all[i as int] == m@);
            assert(all.take(i + 1).drop_last() =~= all.take(i as int));
            assert(all.take(i + 1).last() == m@);
        }
        match listed_mod_to_bytes(m) {
            Err(e) => {
                return Err(e);
            },
            Ok(bytes) => {
                append_bytes(&mut out, bytes.as_slice());
            },
        }
        assert(out@ =~= le_bytes_i32(n as i32) + (listed_mods_bytes(all.take(i as int))
            + listed_mod_bytes(m@)));
        i += 1;
    }
    assert(all.take(n as int) =~= all);
    let magic = le_write_u32(PACKAGE_MAGIC);
    append_bytes(&mut out, magic.as_slice());
    append_bytes(s, out.as_slice());
    assert(s@ =~= old(s)@ + config_bytes(cfg@));
    Ok(())
}

} // verus!
