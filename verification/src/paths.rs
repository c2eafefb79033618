//! Finds the regression logs in the listing of a directory of logs.
//!
//! The directory holds one directory for each package, which holds one
//! directory for each version, which holds the files of that build. A file
//! is the regression log of the build if its name says so.
//!
//! A listing is made by whoever reads the file system. Where a directory
//! cannot be listed to its end, the listing holds the entries that were read
//! and says so; the walk then fails when it comes to that place.

use vstd::prelude::*;
use crate::package::{Crate, CrateId};
use crate::regressions::{as_map, entries_by_content, well_formed, RegressionMap, Source};
use crate::text::{chars_of, starts_with, Text};

verus! {

/// An entry of the directory of a version, as listed.
#[derive(Debug, PartialEq, Eq)]
pub struct FileEntry {
    pub name: String,
    pub path: String,
    pub is_dir: bool,
}

/// An entry of the directory of a package, as listed, with the entries that
/// it holds if it is a directory. It is `unreadable` if listing it failed:
/// then `files` holds the entries that were listed before.
#[derive(Debug, PartialEq, Eq)]
pub struct VersionEntry {
    pub name: String,
    pub path: String,
    pub is_dir: bool,
    pub files: Vec<FileEntry>,
    pub unreadable: bool,
}

/// An entry of the directory of logs, as listed, with the entries that it
/// holds if it is a directory. It is `unreadable` if listing it failed: then
/// `versions` holds the entries that were listed before.
#[derive(Debug, PartialEq, Eq)]
pub struct PackageEntry {
    pub name: String,
    pub path: String,
    pub is_dir: bool,
    pub versions: Vec<VersionEntry>,
    pub unreadable: bool,
}

/// The directory of the logs of a run, as listed. It is `unreadable` if
/// listing it failed: then `packages` holds the entries that were listed
/// before.
#[derive(Debug, PartialEq, Eq)]
pub struct Directory {
    pub path: String,
    pub packages: Vec<PackageEntry>,
    pub unreadable: bool,
}

/// What contracts say of a `FileEntry`.
pub struct FileView {
    pub name: Text,
    pub path: Text,
    pub is_dir: bool,
}

/// What contracts say of a `VersionEntry`.
pub struct VersionView {
    pub name: Text,
    pub path: Text,
    pub is_dir: bool,
    pub files: Seq<FileView>,
    pub unreadable: bool,
}

/// What contracts say of a `PackageEntry`.
pub struct PackageView {
    pub name: Text,
    pub path: Text,
    pub is_dir: bool,
    pub versions: Seq<VersionView>,
    pub unreadable: bool,
}

/// What contracts say of a `Directory`.
pub struct DirectoryView {
    pub path: Text,
    pub packages: Seq<PackageView>,
    pub unreadable: bool,
}

impl View for FileEntry {
    type V = FileView;

    open spec fn view(&self) -> FileView {
        FileView { name: self.name@, path: self.path@, is_dir: self.is_dir }
    }
}

impl DeepView for FileEntry {
    type V = FileView;

    open spec fn deep_view(&self) -> FileView {
        self@
    }
}

impl View for VersionEntry {
    type V = VersionView;

    open spec fn view(&self) -> VersionView {
        VersionView {
            name: self.name@,
            path: self.path@,
            is_dir: self.is_dir,
            files: self.files.deep_view(),
            unreadable: self.unreadable,
        }
    }
}

impl DeepView for VersionEntry {
    type V = VersionView;

    open spec fn deep_view(&self) -> VersionView {
        self@
    }
}

impl View for PackageEntry {
    type V = PackageView;

    open spec fn view(&self) -> PackageView {
        PackageView {
            name: self.name@,
            path: self.path@,
            is_dir: self.is_dir,
            versions: self.versions.deep_view(),
            unreadable: self.unreadable,
        }
    }
}

impl DeepView for PackageEntry {
    type V = PackageView;

    open spec fn deep_view(&self) -> PackageView {
        self@
    }
}

impl View for Directory {
    type V = DirectoryView;

    open spec fn view(&self) -> DirectoryView {
        DirectoryView {
            path: self.path@,
            packages: self.packages.deep_view(),
            unreadable: self.unreadable,
        }
    }
}

/// Why a walk through a listing ends without a map. The first two are
/// violations of the expected structure; the third is a failure to read.
#[derive(Debug, PartialEq, Eq)]
pub enum WalkError {
    /// Something else stands where the directory of a package or of a version
    /// is expected.
    NotADirectory { path: String },
    /// A directory stands among the files of a version.
    NotAFile { path: String },
    /// The directory could not be listed to its end.
    Unreadable { path: String },
}

/// What contracts say of a `WalkError`.
pub enum Problem {
    NotADirectory { path: Text },
    NotAFile { path: Text },
    Unreadable { path: Text },
}

impl View for WalkError {
    type V = Problem;

    open spec fn view(&self) -> Problem {
        match self {
            WalkError::NotADirectory { path } => Problem::NotADirectory { path: path@ },
            WalkError::NotAFile { path } => Problem::NotAFile { path: path@ },
            WalkError::Unreadable { path } => Problem::Unreadable { path: path@ },
        }
    }
}

impl WalkError {
    /// Whether the listing is not of the expected structure, as opposed to
    /// not readable.
    pub fn is_structural(&self) -> (b: bool)
        ensures
            b == !(self@ is Unreadable),
    {
        match self {
            WalkError::Unreadable { .. } => false,
            _ => true,
        }
    }
}

/// Whether a file of this name is the regression log of its build: the log
/// of a build with the beta toolchain, or with a toolchain under trial.
pub open spec fn names_log(name: Text) -> bool {
    "beta-"@.is_prefix_of(name) || "try"@.is_prefix_of(name)
}

/// The first directory among the files of a version, if there is one.
pub open spec fn problem_in_files(files: Seq<FileView>) -> Option<Problem>
    decreases files.len(),
{
    if files.len() == 0 {
        None
    } else if files[0].is_dir {
        Some(Problem::NotAFile { path: files[0].path })
    } else {
        problem_in_files(files.drop_first())
    }
}

/// What is wrong with the entry of a version, if anything: it is no
/// directory, or a directory stands among its files, or its files could not
/// be listed to the end.
pub open spec fn problem_of_version(version: VersionView) -> Option<Problem> {
    if !version.is_dir {
        Some(Problem::NotADirectory { path: version.path })
    } else if problem_in_files(version.files) is Some {
        problem_in_files(version.files)
    } else if version.unreadable {
        Some(Problem::Unreadable { path: version.path })
    } else {
        None
    }
}

/// The first problem among the versions of a package, if there is one.
pub open spec fn problem_in_versions(versions: Seq<VersionView>) -> Option<Problem>
    decreases versions.len(),
{
    if versions.len() == 0 {
        None
    } else if problem_of_version(versions[0]) is Some {
        problem_of_version(versions[0])
    } else {
        problem_in_versions(versions.drop_first())
    }
}

/// What is wrong with the entry of a package, if anything: it is no
/// directory, or something is wrong with one of its versions, or its
/// versions could not be listed to the end.
pub open spec fn problem_of_package(package: PackageView) -> Option<Problem> {
    if !package.is_dir {
        Some(Problem::NotADirectory { path: package.path })
    } else if problem_in_versions(package.versions) is Some {
        problem_in_versions(package.versions)
    } else if package.unreadable {
        Some(Problem::Unreadable { path: package.path })
    } else {
        None
    }
}

/// The first problem among packages, if there is one.
pub open spec fn problem_in_packages(packages: Seq<PackageView>) -> Option<Problem>
    decreases packages.len(),
{
    if packages.len() == 0 {
        None
    } else if problem_of_package(packages[0]) is Some {
        problem_of_package(packages[0])
    } else {
        problem_in_packages(packages.drop_first())
    }
}

/// The first problem that a walk through the listing meets, if it meets
/// one. The walk takes the packages in their order, after each package its
/// versions, and after each version its files; it comes to the failure of a
/// listing after the entries that were listed.
pub open spec fn problem_in(dir: DirectoryView) -> Option<Problem> {
    if problem_in_packages(dir.packages) is Some {
        problem_in_packages(dir.packages)
    } else if dir.unreadable {
        Some(Problem::Unreadable { path: dir.path })
    } else {
        None
    }
}

/// Whether the entries of a version are files, as they have to be.
pub open spec fn holds_files_only(files: Seq<FileView>) -> bool {
    forall|l: int| 0 <= l < files.len() ==> !(#[trigger] files[l]).is_dir
}

/// Whether a version is a directory that was listed to its end and holds
/// files only.
pub open spec fn version_is_sound(version: VersionView) -> bool {
    version.is_dir && !version.unreadable && holds_files_only(version.files)
}

/// Whether the entries of a package are sound versions.
pub open spec fn holds_versions_only(versions: Seq<VersionView>) -> bool {
    forall|j: int| 0 <= j < versions.len() ==> version_is_sound(#[trigger] versions[j])
}

/// Whether a package is a directory that was listed to its end and holds
/// sound versions only.
pub open spec fn package_is_sound(package: PackageView) -> bool {
    package.is_dir && !package.unreadable && holds_versions_only(package.versions)
}

/// Whether the entries of the directory of logs are sound packages.
pub open spec fn holds_packages_only(packages: Seq<PackageView>) -> bool {
    forall|i: int| 0 <= i < packages.len() ==> package_is_sound(#[trigger] packages[i])
}

/// Whether a listing is complete and of the expected shape: directories of
/// packages, which hold directories of versions, which hold files, all
/// listed to their end.
pub open spec fn sound(dir: DirectoryView) -> bool {
    !dir.unreadable && holds_packages_only(dir.packages)
}

/// A walk meets a problem among the files of a version exactly when one of
/// them is a directory.
pub proof fn files_without_problem(files: Seq<FileView>)
    ensures
        problem_in_files(files) is None <==> holds_files_only(files),
    decreases files.len(),
{
    if files.len() > 0 {
        let rest = files.drop_first();
        files_without_problem(rest);
        if holds_files_only(files) {
            assert(!files[0].is_dir);
            assert forall|l: int| 0 <= l < rest.len() implies !(#[trigger] rest[l]).is_dir by {
                assert(rest[l] == files[l + 1]);
            }
        }
        if !files[0].is_dir && holds_files_only(rest) {
            assert forall|l: int| 0 <= l < files.len() implies !(#[trigger] files[l]).is_dir by {
                if l > 0 {
                    assert(files[l] == rest[l - 1]);
                }
            }
        }
    }
}

/// A walk meets a problem among the versions of a package exactly when one
/// of them is not sound.
pub proof fn versions_without_problem(versions: Seq<VersionView>)
    ensures
        problem_in_versions(versions) is None <==> holds_versions_only(versions),
    decreases versions.len(),
{
    if versions.len() > 0 {
        let rest = versions.drop_first();
        versions_without_problem(rest);
        files_without_problem(versions[0].files);
        if holds_versions_only(versions) {
            assert(version_is_sound(versions[0]));
            assert forall|j: int| 0 <= j < rest.len() implies version_is_sound(
                #[trigger] rest[j],
            ) by {
                assert(rest[j] == versions[j + 1]);
            }
        }
        if version_is_sound(versions[0]) && holds_versions_only(rest) {
            assert forall|j: int| 0 <= j < versions.len() implies version_is_sound(
                #[trigger] versions[j],
            ) by {
                if j > 0 {
                    assert(versions[j] == rest[j - 1]);
                }
            }
        }
    }
}

/// A walk meets a problem among packages exactly when one of them is not
/// sound.
pub proof fn packages_without_problem(packages: Seq<PackageView>)
    ensures
        problem_in_packages(packages) is None <==> holds_packages_only(packages),
    decreases packages.len(),
{
    if packages.len() > 0 {
        let rest = packages.drop_first();
        packages_without_problem(rest);
        versions_without_problem(packages[0].versions);
        if holds_packages_only(packages) {
            assert(package_is_sound(packages[0]));
            assert forall|i: int| 0 <= i < rest.len() implies package_is_sound(
                #[trigger] rest[i],
            ) by {
                assert(rest[i] == packages[i + 1]);
            }
        }
        if package_is_sound(packages[0]) && holds_packages_only(rest) {
            assert forall|i: int| 0 <= i < packages.len() implies package_is_sound(
                #[trigger] packages[i],
            ) by {
                if i > 0 {
                    assert(packages[i] == rest[i - 1]);
                }
            }
        }
    }
}

/// A walk meets a problem exactly when the listing is not sound.
pub proof fn listing_without_problem(dir: DirectoryView)
    ensures
        problem_in(dir) is None <==> sound(dir),
{
    packages_without_problem(dir.packages);
}

/// The regression logs among the files of a version, in the order of the
/// listing, each with the package that it belongs to.
pub open spec fn found_in_files(krate: CrateId, files: Seq<FileView>) -> Seq<(CrateId, Text)> {
    files.filter(|f: FileView| names_log(f.name)).map_values(|f: FileView| (krate, f.path))
}

/// The regression logs of the versions of a package, in the order of the
/// listing.
pub open spec fn found_in_versions(package: Text, versions: Seq<VersionView>) -> Seq<
    (CrateId, Text),
>
    decreases versions.len(),
{
    if versions.len() == 0 {
        Seq::empty()
    } else {
        found_in_versions(package, versions.drop_last()) + found_in_files(
            (package, versions.last().name),
            versions.last().files,
        )
    }
}

/// The regression logs of a listing, in the order in which a walk through it
/// meets them.
pub open spec fn found_in(packages: Seq<PackageView>) -> Seq<(CrateId, Text)>
    decreases packages.len(),
{
    if packages.len() == 0 {
        Seq::empty()
    } else {
        found_in(packages.drop_last()) + found_in_versions(
            packages.last().name,
            packages.last().versions,
        )
    }
}

/// The map `base` after the logs of `found` were recorded in their order
/// under the label `run`: of several logs of one package the last one stays.
pub open spec fn recorded(base: Map<CrateId, Source>, run: Text, found: Seq<(CrateId, Text)>) -> Map<
    CrateId,
    Source,
>
    decreases found.len(),
{
    if found.len() == 0 {
        base
    } else {
        recorded(base, run, found.drop_last()).insert(found.last().0, (run, found.last().1))
    }
}

/// The map of the logs of `found` under the label `run`.
pub open spec fn collected(run: Text, found: Seq<(CrateId, Text)>) -> Map<CrateId, Source> {
    recorded(Map::empty(), run, found)
}

/// Recording two runs of logs one after the other is recording them in one
/// go.
pub proof fn recorded_concat(
    base: Map<CrateId, Source>,
    run: Text,
    a: Seq<(CrateId, Text)>,
    b: Seq<(CrateId, Text)>,
)
    ensures
        recorded(base, run, a + b) == recorded(recorded(base, run, a), run, b),
    decreases b.len(),
{
    if b.len() == 0 {
        assert(a + b =~= a);
    } else {
        assert((a + b).drop_last() =~= a + b.drop_last());
        recorded_concat(base, run, a, b.drop_last());
    }
}

/// One more file, taken into account.
proof fn found_in_files_push(krate: CrateId, files: Seq<FileView>, file: FileView)
    ensures
        found_in_files(krate, files.push(file)) == if names_log(file.name) {
            found_in_files(krate, files).push((krate, file.path))
        } else {
            found_in_files(krate, files)
        },
{
    let pred = |f: FileView| names_log(f.name);
    files.lemma_filter_push(file, pred);
    if names_log(file.name) {
        assert(found_in_files(krate, files.push(file)) =~= found_in_files(krate, files).push(
            (krate, file.path),
        ));
    }
}

/// No package has two logs among `found`.
pub open spec fn one_log_each(found: Seq<(CrateId, Text)>) -> bool {
    forall|i: int, j: int|
        0 <= i < j < found.len() ==> (#[trigger] found[i]).0 != (#[trigger] found[j]).0
}

/// Where no package has two logs, the map holds exactly the logs that were
/// found, each under the label of the run.
pub proof fn collected_by_content(run: Text, found: Seq<(CrateId, Text)>)
    requires
        one_log_each(found),
    ensures
        forall|key: CrateId, source: Source| #[trigger]
            collected(run, found).contains_pair(key, source) <==> source.0 == run
                && found.contains((key, source.1)),
    decreases found.len(),
{
    if found.len() > 0 {
        let rest = found.drop_last();
        let last = found.last();
        assert forall|i: int, j: int| 0 <= i < j < rest.len() implies (#[trigger] rest[i]).0 != (
        #[trigger] rest[j]).0 by {
            assert(rest[i] == found[i] && rest[j] == found[j]);
        }
        collected_by_content(run, rest);
        assert forall|key: CrateId, source: Source| #[trigger]
            collected(run, found).contains_pair(key, source) <==> source.0 == run
                && found.contains((key, source.1)) by {
            if found.contains((key, source.1)) {
                let i = choose|i: int| 0 <= i < found.len() && found[i] == (key, source.1);
                if i < rest.len() {
                    assert(rest[i] == (key, source.1));
                    assert(found[i].0 != found[found.len() - 1].0);
                }
            }
            if rest.contains((key, source.1)) {
                let i = choose|i: int| 0 <= i < rest.len() && rest[i] == (key, source.1);
                assert(found[i] == (key, source.1));
                assert(found[i].0 != found[found.len() - 1].0);
            }
            if key == last.0 && source == (run, last.1) {
                assert(found[found.len() - 1] == (key, source.1));
            }
            assert(collected(run, rest).contains_pair(key, source) <==> source.0 == run
                && rest.contains((key, source.1)));
        }
    } else {
        assert forall|key: CrateId, source: Source| #[trigger]
            collected(run, found).contains_pair(key, source) <==> source.0 == run
                && found.contains((key, source.1)) by {}
    }
}

/// The order in which a directory is listed does not matter where no version
/// holds two regression logs: two walks that find the same logs, in whatever
/// order, give the same map.
pub proof fn collected_whatever_the_order(
    run: Text,
    a: Seq<(CrateId, Text)>,
    b: Seq<(CrateId, Text)>,
)
    requires
        one_log_each(a),
        one_log_each(b),
        a.to_set() == b.to_set(),
    ensures
        collected(run, a) == collected(run, b),
{
    collected_by_content(run, a);
    collected_by_content(run, b);
    let ma = collected(run, a);
    let mb = collected(run, b);
    assert forall|key: CrateId| ma.contains_key(key) implies mb.contains_pair(key, ma[key]) by {
        assert(ma.contains_pair(key, ma[key]));
        assert(a.to_set().contains((key, ma[key].1)));
        assert(b.contains((key, ma[key].1)));
    }
    assert forall|key: CrateId| mb.contains_key(key) implies ma.contains_pair(key, mb[key]) by {
        assert(mb.contains_pair(key, mb[key]));
        assert(b.to_set().contains((key, mb[key].1)));
        assert(a.contains((key, mb[key].1)));
    }
    assert(ma =~= mb);
}

/// Whether the listing holds a regression log at `path` for the package.
pub open spec fn lists_log(packages: Seq<PackageView>, key: CrateId, path: Text) -> bool {
    exists|i: int, j: int, l: int|
        {
            &&& 0 <= i < packages.len()
            &&& 0 <= j < packages[i].versions.len()
            &&& 0 <= l < packages[i].versions[j].files.len()
            &&& packages[i].name == key.0
            &&& packages[i].versions[j].name == key.1
            &&& names_log((#[trigger] packages[i].versions[j].files[l]).name)
            &&& packages[i].versions[j].files[l].path == path
        }
}

/// The logs found among the files of a version are the files whose name says
/// so.
proof fn found_in_files_by_content(krate: CrateId, files: Seq<FileView>, key: CrateId, path: Text)
    ensures
        found_in_files(krate, files).contains((key, path)) <==> key == krate && exists|l: int|
            0 <= l < files.len() && names_log((#[trigger] files[l]).name) && files[l].path == path,
    decreases files.len(),
{
    if files.len() == 0 {
        assert(found_in_files(krate, files) =~= Seq::empty()) by {
            reveal(Seq::filter);
        }
    } else {
        let rest = files.drop_last();
        let last = files.last();
        assert(files =~= rest.push(last));
        found_in_files_push(krate, rest, last);
        found_in_files_by_content(krate, rest, key, path);
        let before = found_in_files(krate, rest);
        let all = found_in_files(krate, files);
        if all.contains((key, path)) {
            let n = choose|n: int| 0 <= n < all.len() && all[n] == (key, path);
            if n < before.len() {
                assert(before[n] == (key, path));
                let l = choose|l: int|
                    0 <= l < rest.len() && names_log((#[trigger] rest[l]).name) && rest[l].path
                        == path;
                assert(files[l] == rest[l]);
            } else {
                assert(names_log(files[files.len() - 1].name));
            }
        }
        if key == krate && exists|l: int|
            0 <= l < files.len() && names_log((#[trigger] files[l]).name) && files[l].path == path {
            let l = choose|l: int|
                0 <= l < files.len() && names_log((#[trigger] files[l]).name) && files[l].path
                    == path;
            if l < rest.len() {
                assert(rest[l] == files[l]);
                let n = choose|n: int| 0 <= n < before.len() && before[n] == (key, path);
                assert(all[n] == (key, path));
            } else {
                assert(all[all.len() - 1] == (key, path));
            }
        }
    }
}

/// The logs found among the versions of a package are those of its versions.
proof fn found_in_versions_by_content(
    package: Text,
    versions: Seq<VersionView>,
    key: CrateId,
    path: Text,
)
    ensures
        found_in_versions(package, versions).contains((key, path)) <==> key.0 == package
            && exists|j: int, l: int|
            {
                &&& 0 <= j < versions.len()
                &&& 0 <= l < versions[j].files.len()
                &&& versions[j].name == key.1
                &&& names_log((#[trigger] versions[j].files[l]).name)
                &&& versions[j].files[l].path == path
            },
    decreases versions.len(),
{
    if versions.len() > 0 {
        let rest = versions.drop_last();
        let last = versions.last();
        let before = found_in_versions(package, rest);
        let added = found_in_files((package, last.name), last.files);
        let all = found_in_versions(package, versions);
        found_in_versions_by_content(package, rest, key, path);
        found_in_files_by_content((package, last.name), last.files, key, path);
        if all.contains((key, path)) {
            let n = choose|n: int| 0 <= n < all.len() && all[n] == (key, path);
            if n < before.len() {
                assert(before[n] == (key, path));
                let (j, l) = choose|j: int, l: int|
                    {
                        &&& 0 <= j < rest.len()
                        &&& 0 <= l < rest[j].files.len()
                        &&& rest[j].name == key.1
                        &&& names_log((#[trigger] rest[j].files[l]).name)
                        &&& rest[j].files[l].path == path
                    };
                assert(versions[j] == rest[j]);
                assert(names_log(versions[j].files[l].name));
            } else {
                assert(added[n - before.len()] == (key, path));
                let l = choose|l: int|
                    0 <= l < last.files.len() && names_log((#[trigger] last.files[l]).name)
                        && last.files[l].path == path;
                assert(names_log(versions[versions.len() - 1].files[l].name));
            }
        }
        if key.0 == package && exists|j: int, l: int|
            {
                &&& 0 <= j < versions.len()
                &&& 0 <= l < versions[j].files.len()
                &&& versions[j].name == key.1
                &&& names_log((#[trigger] versions[j].files[l]).name)
                &&& versions[j].files[l].path == path
            } {
            let (j, l) = choose|j: int, l: int|
                {
                    &&& 0 <= j < versions.len()
                    &&& 0 <= l < versions[j].files.len()
                    &&& versions[j].name == key.1
                    &&& names_log((#[trigger] versions[j].files[l]).name)
                    &&& versions[j].files[l].path == path
                };
            if j < rest.len() {
                assert(rest[j] == versions[j]);
                assert(names_log(rest[j].files[l].name));
                let n = choose|n: int| 0 <= n < before.len() && before[n] == (key, path);
                assert(all[n] == (key, path));
            } else {
                assert(names_log(last.files[l].name));
                let n = choose|n: int| 0 <= n < added.len() && added[n] == (key, path);
                assert(all[before.len() + n] == (key, path));
            }
        }
    }
}

/// The logs that a walk finds are the regression logs that the listing
/// holds, whatever the order of the listing.
pub proof fn found_in_by_content(packages: Seq<PackageView>, key: CrateId, path: Text)
    ensures
        found_in(packages).contains((key, path)) <==> lists_log(packages, key, path),
    decreases packages.len(),
{
    if packages.len() > 0 {
        let rest = packages.drop_last();
        let last = packages.last();
        let before = found_in(rest);
        let added = found_in_versions(last.name, last.versions);
        let all = found_in(packages);
        found_in_by_content(rest, key, path);
        found_in_versions_by_content(last.name, last.versions, key, path);
        if all.contains((key, path)) {
            let n = choose|n: int| 0 <= n < all.len() && all[n] == (key, path);
            if n < before.len() {
                assert(before[n] == (key, path));
                let (i, j, l) = choose|i: int, j: int, l: int|
                    {
                        &&& 0 <= i < rest.len()
                        &&& 0 <= j < rest[i].versions.len()
                        &&& 0 <= l < rest[i].versions[j].files.len()
                        &&& rest[i].name == key.0
                        &&& rest[i].versions[j].name == key.1
                        &&& names_log((#[trigger] rest[i].versions[j].files[l]).name)
                        &&& rest[i].versions[j].files[l].path == path
                    };
                assert(packages[i] == rest[i]);
                assert(names_log(packages[i].versions[j].files[l].name));
            } else {
                assert(added[n - before.len()] == (key, path));
                let (j, l) = choose|j: int, l: int|
                    {
                        &&& 0 <= j < last.versions.len()
                        &&& 0 <= l < last.versions[j].files.len()
                        &&& last.versions[j].name == key.1
                        &&& names_log((#[trigger] last.versions[j].files[l]).name)
                        &&& last.versions[j].files[l].path == path
                    };
                assert(names_log(packages[packages.len() - 1].versions[j].files[l].name));
            }
        }
        if lists_log(packages, key, path) {
            let (i, j, l) = choose|i: int, j: int, l: int|
                {
                    &&& 0 <= i < packages.len()
                    &&& 0 <= j < packages[i].versions.len()
                    &&& 0 <= l < packages[i].versions[j].files.len()
                    &&& packages[i].name == key.0
                    &&& packages[i].versions[j].name == key.1
                    &&& names_log((#[trigger] packages[i].versions[j].files[l]).name)
                    &&& packages[i].versions[j].files[l].path == path
                };
            if i < rest.len() {
                assert(rest[i] == packages[i]);
                assert(names_log(rest[i].versions[j].files[l].name));
                let n = choose|n: int| 0 <= n < before.len() && before[n] == (key, path);
                assert(all[n] == (key, path));
            } else {
                assert(names_log(last.versions[j].files[l].name));
                let n = choose|n: int| 0 <= n < added.len() && added[n] == (key, path);
                assert(all[before.len() + n] == (key, path));
            }
        }
    }
}

/// Two listings that hold the same regression logs, with no two of them in
/// one version, give the same map: the order of a listing does not matter.
pub proof fn paths_whatever_the_order(run: Text, a: Seq<PackageView>, b: Seq<PackageView>)
    requires
        one_log_each(found_in(a)),
        one_log_each(found_in(b)),
        forall|key: CrateId, path: Text| lists_log(a, key, path) <==> lists_log(b, key, path),
    ensures
        collected(run, found_in(a)) == collected(run, found_in(b)),
{
    assert forall|x: (CrateId, Text)| found_in(a).to_set().contains(x) <==> found_in(
        b,
    ).to_set().contains(x) by {
        found_in_by_content(a, x.0, x.1);
        found_in_by_content(b, x.0, x.1);
    }
    assert(found_in(a).to_set() =~= found_in(b).to_set());
    collected_whatever_the_order(run, found_in(a), found_in(b));
}

/// Two walks through listings that hold the same regression logs, with no
/// two of them in one version, end with the same map, entry for entry: the
/// order in which a directory is listed leaves no trace.
pub proof fn walks_agree(
    run: Text,
    a: Seq<PackageView>,
    b: Seq<PackageView>,
    first: Seq<(CrateId, Source)>,
    second: Seq<(CrateId, Source)>,
)
    requires
        one_log_each(found_in(a)),
        one_log_each(found_in(b)),
        forall|key: CrateId, path: Text| lists_log(a, key, path) <==> lists_log(b, key, path),
        well_formed(first),
        well_formed(second),
        as_map(first) == collected(run, found_in(a)),
        as_map(second) == collected(run, found_in(b)),
    ensures
        first == second,
{
    paths_whatever_the_order(run, a, b);
    entries_by_content(first, second);
}

/// Whether a file of this name is the regression log of its build.
pub fn is_regression_log(name: &str) -> (b: bool)
    ensures
        b == names_log(name@),
{
    let chars = chars_of(name);
    starts_with(&chars, "beta-") || starts_with(&chars, "try")
}

/// Records the regression logs among the files of a version.
fn collect_files(
    entries: &mut RegressionMap,
    run: &str,
    package: &str,
    version: &VersionEntry,
) -> (r: Result<(), WalkError>)
    requires
        well_formed(old(entries)@),
    ensures
        well_formed(final(entries)@),
        match r {
            Ok(_) => {
                &&& problem_in_files(version@.files) is None
                &&& as_map(final(entries)@) == recorded(
                    as_map(old(entries)@),
                    run@,
                    found_in_files((package@, version@.name), version@.files),
                )
            },
            Err(e) => problem_in_files(version@.files) == Some(e@),
        },
{
    let ghost files = version@.files;
    let ghost krate = (package@, version@.name);
    let ghost before = as_map(entries@);
    let mut k: usize = 0;
    proof {
        assert(files.skip(0) =~= files);
        assert(found_in_files(krate, files.take(0)) =~= Seq::empty()) by {
            reveal(Seq::filter);
        }
    }
    while k < version.files.len()
        invariant
            0 <= k <= version.files.len(),
            files == version@.files,
            krate == (package@, version@.name),
            well_formed(entries@),
            problem_in_files(files) == problem_in_files(files.skip(k as int)),
            as_map(entries@) == recorded(before, run@, found_in_files(krate, files.take(k as int))),
        decreases version.files.len() - k,
    {
        let file = &version.files[k];
        assert(files[k as int] == file@);
        assert(files.skip(k as int).drop_first() =~= files.skip(k + 1));
        if file.is_dir {
            return Err(WalkError::NotAFile { path: file.path.clone() });
        }
        proof {
            assert(files.take(k + 1) =~= files.take(k as int).push(file@));
            found_in_files_push(krate, files.take(k as int), file@);
            let logs = found_in_files(krate, files.take(k as int));
            assert(logs.push((krate, file@.path)).drop_last() =~= logs);
        }
        if is_regression_log(file.name.as_str()) {
            entries.insert(
                Crate::new(package, version.name.as_str()),
                run.to_owned(),
                file.path.clone(),
            );
        }
        k += 1;
    }
    assert(files.take(version.files.len() as int) =~= files);
    Ok(())
}

/// Records the regression logs of the versions of a package.
fn collect_versions(entries: &mut RegressionMap, run: &str, package: &PackageEntry) -> (r: Result<
    (),
    WalkError,
>)
    requires
        well_formed(old(entries)@),
    ensures
        well_formed(final(entries)@),
        match r {
            Ok(_) => {
                &&& problem_in_versions(package@.versions) is None
                &&& as_map(final(entries)@) == recorded(
                    as_map(old(entries)@),
                    run@,
                    found_in_versions(package@.name, package@.versions),
                )
            },
            Err(e) => problem_in_versions(package@.versions) == Some(e@),
        },
{
    let ghost versions = package@.versions;
    let ghost before = as_map(entries@);
    let mut j: usize = 0;
    assert(versions.skip(0) =~= versions);
    while j < package.versions.len()
        invariant
            0 <= j <= package.versions.len(),
            versions == package@.versions,
            well_formed(entries@),
            problem_in_versions(versions) == problem_in_versions(versions.skip(j as int)),
            as_map(entries@) == recorded(
                before,
                run@,
                found_in_versions(package@.name, versions.take(j as int)),
            ),
        decreases package.versions.len() - j,
    {
        let version = &package.versions[j];
        assert(versions[j as int] == version@);
        assert(versions.skip(j as int).drop_first() =~= versions.skip(j + 1));
        if !version.is_dir {
            return Err(WalkError::NotADirectory { path: version.path.clone() });
        }
        match collect_files(entries, run, package.name.as_str(), version) {
            Ok(_) => {},
            Err(e) => {
                return Err(e);
            },
        }
        if version.unreadable {
            return Err(WalkError::Unreadable { path: version.path.clone() });
        }
        proof {
            assert(versions.take(j + 1).drop_last() =~= versions.take(j as int));
            recorded_concat(
                before,
                run@,
                found_in_versions(package@.name, versions.take(j as int)),
                found_in_files((package@.name, version@.name), version@.files),
            );
        }
        j += 1;
    }
    assert(versions.take(package.versions.len() as int) =~= versions);
    Ok(())
}

/// The regression logs of a listing, under the label `name` of their run.
///
/// The walk goes through the packages in the order of the listing, through
/// the versions of each and the files of each version. What stands at the
/// place of a package or of a version must be a directory, and what stands
/// in a version must not be one; and each directory must have been listed
/// to its end. The first place where this fails is reported, and no map is
/// made. Otherwise each package and version with a regression log is in the
/// map, with the label and the path of the log; of several regression logs
/// in one version the one listed last stays.
pub fn collect_regression_paths(name: &str, dir: &Directory) -> (r: Result<RegressionMap, WalkError>)
    ensures
        r is Ok <==> sound(dir@),
        match r {
            Ok(map) => {
                &&& well_formed(map@)
                &&& as_map(map@) == collected(name@, found_in(dir@.packages))
            },
            Err(e) => problem_in(dir@) == Some(e@),
        },
{
    let ghost listing = dir@.packages;
    proof {
        listing_without_problem(dir@);
    }
    let mut paths = RegressionMap::new();
    let mut i: usize = 0;
    assert(listing.skip(0) =~= listing);
    assert(as_map(paths@) =~= Map::empty());
    while i < dir.packages.len()
        invariant
            0 <= i <= dir.packages.len(),
            listing == dir@.packages,
            well_formed(paths@),
            problem_in(dir@) is None <==> sound(dir@),
            problem_in_packages(listing) == problem_in_packages(listing.skip(i as int)),
            as_map(paths@) == collected(name@, found_in(listing.take(i as int))),
        decreases dir.packages.len() - i,
    {
        let package = &dir.packages[i];
        assert(listing[i as int] == package@);
        assert(listing.skip(i as int).drop_first() =~= listing.skip(i + 1));
        if !package.is_dir {
            return Err(WalkError::NotADirectory { path: package.path.clone() });
        }
        match collect_versions(&mut paths, name, package) {
            Ok(_) => {},
            Err(e) => {
                return Err(e);
            },
        }
        if package.unreadable {
            return Err(WalkError::Unreadable { path: package.path.clone() });
        }
        proof {
            assert(listing.take(i + 1).drop_last() =~= listing.take(i as int));
            recorded_concat(
                Map::empty(),
                name@,
                found_in(listing.take(i as int)),
                found_in_versions(package@.name, package@.versions),
            );
        }
        i += 1;
    }
    assert(listing.take(dir.packages.len() as int) =~= listing);
    if dir.unreadable {
        return Err(WalkError::Unreadable { path: dir.path.clone() });
    }
    Ok(paths)
}

} // verus!
