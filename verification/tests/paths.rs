use regression_report::errors::{ErrorMap, Regressed};
use regression_report::package::Crate;
use regression_report::paths::{
    collect_regression_paths, is_regression_log, Directory, FileEntry, PackageEntry, VersionEntry,
    WalkError,
};
use regression_report::regressions::{Regression, RegressionMap};

fn file(dir: &str, name: &str) -> FileEntry {
    FileEntry { name: name.to_string(), path: format!("{}/{}", dir, name), is_dir: false }
}

fn version(dir: &str, name: &str, files: &[&str]) -> VersionEntry {
    let path = format!("{}/{}", dir, name);
    let files = files.iter().map(|f| file(&path, f)).collect();
    VersionEntry { name: name.to_string(), path, is_dir: true, files, unreadable: false }
}

fn package(name: &str, versions: Vec<VersionEntry>) -> PackageEntry {
    PackageEntry {
        name: name.to_string(),
        path: format!("root/{}", name),
        is_dir: true,
        versions,
        unreadable: false,
    }
}

fn directory(packages: Vec<PackageEntry>) -> Directory {
    Directory { path: "root".to_string(), packages, unreadable: false }
}

fn stray_package(name: &str) -> PackageEntry {
    PackageEntry {
        name: name.to_string(),
        path: format!("root/{}", name),
        is_dir: false,
        versions: Vec::new(),
        unreadable: false,
    }
}

fn stray_version(dir: &str, name: &str) -> VersionEntry {
    VersionEntry {
        name: name.to_string(),
        path: format!("{}/{}", dir, name),
        is_dir: false,
        files: Vec::new(),
        unreadable: false,
    }
}

fn stray_directory(dir: &str, name: &str) -> FileEntry {
    FileEntry { name: name.to_string(), path: format!("{}/{}", dir, name), is_dir: true }
}

fn not_a_directory(path: &str) -> WalkError {
    WalkError::NotADirectory { path: path.to_string() }
}

fn not_a_file(path: &str) -> WalkError {
    WalkError::NotAFile { path: path.to_string() }
}

fn unreadable(path: &str) -> WalkError {
    WalkError::Unreadable { path: path.to_string() }
}

fn entry(name: &str, version: &str, run: &str, path: &str) -> Regression {
    Regression { krate: Crate::new(name, version), run: run.to_string(), path: path.to_string() }
}

#[test]
fn names_of_regression_logs() {
    assert!(is_regression_log("beta-1.log"));
    assert!(is_regression_log("beta-"));
    assert!(is_regression_log("try#abcdef.log"));
    assert!(is_regression_log("try"));
    assert!(!is_regression_log("beta"));
    assert!(!is_regression_log("stable-1.log"));
    assert!(!is_regression_log("a-beta-1.log"));
    assert!(!is_regression_log("Try.log"));
    assert!(!is_regression_log("tr"));
    assert!(!is_regression_log(""));
}

#[test]
fn logs_are_found_and_listed_by_package() {
    let listing = directory(vec![
        package("zed", vec![version("root/zed", "0.2.0", &["stable-1.log", "try#1.log"])]),
        package(
            "foo",
            vec![
                version("root/foo", "1.0.1", &["beta-2.log"]),
                version("root/foo", "1.0.0", &["beta-1.log", "results.txt"]),
                version("root/foo", "0.9.0", &["stable-1.log"]),
            ],
        ),
        package("bare", vec![]),
    ]);
    let map = collect_regression_paths("run1", &listing).unwrap();
    assert_eq!(
        map.entries(),
        &vec![
            entry("foo", "1.0.0", "run1", "root/foo/1.0.0/beta-1.log"),
            entry("foo", "1.0.1", "run1", "root/foo/1.0.1/beta-2.log"),
            entry("zed", "0.2.0", "run1", "root/zed/0.2.0/try#1.log"),
        ]
    );
}

#[test]
fn empty_listing_gives_an_empty_map() {
    let map = collect_regression_paths("run1", &directory(Vec::new())).unwrap();
    assert_eq!(map.entries().len(), 0);
    assert_eq!(map, RegressionMap::new());
}

#[test]
fn of_two_logs_in_a_version_the_last_stays() {
    let listing = directory(vec![package(
        "foo",
        vec![version("root/foo", "1.0.0", &["beta-1.log", "other", "try-2.log"])],
    )]);
    let map = collect_regression_paths("r", &listing).unwrap();
    assert_eq!(map.entries(), &vec![entry("foo", "1.0.0", "r", "root/foo/1.0.0/try-2.log")]);
}

#[test]
fn order_of_the_listing_does_not_matter() {
    let a = directory(vec![
        package(
            "a",
            vec![version("root/a", "1", &["x", "beta-1"]), version("root/a", "2", &["try"])],
        ),
        package("b", vec![version("root/b", "1", &["beta-9", "y"])]),
    ]);
    let b = directory(vec![
        package("b", vec![version("root/b", "1", &["y", "beta-9"])]),
        package(
            "a",
            vec![version("root/a", "2", &["try"]), version("root/a", "1", &["beta-1", "x"])],
        ),
    ]);
    assert_eq!(
        collect_regression_paths("r", &a).unwrap(),
        collect_regression_paths("r", &b).unwrap()
    );
}

#[test]
fn file_in_place_of_a_package_is_a_violation() {
    let listing = directory(vec![
        package("foo", vec![version("root/foo", "1.0.0", &["beta-1.log"])]),
        stray_package("README"),
    ]);
    let error = collect_regression_paths("r", &listing).unwrap_err();
    assert_eq!(error, not_a_directory("root/README"));
    assert!(error.is_structural());
}

#[test]
fn file_in_place_of_a_version_is_a_violation() {
    let listing = directory(vec![package(
        "foo",
        vec![version("root/foo", "1.0.0", &["beta-1.log"]), stray_version("root/foo", "notes")],
    )]);
    let error = collect_regression_paths("r", &listing).unwrap_err();
    assert_eq!(error, not_a_directory("root/foo/notes"));
    assert!(error.is_structural());
}

#[test]
fn directory_among_the_files_is_a_violation() {
    let mut v = version("root/foo", "1.0.0", &["beta-1.log"]);
    v.files.push(stray_directory("root/foo/1.0.0", "beta-dir"));
    let listing = directory(vec![package("foo", vec![v])]);
    let error = collect_regression_paths("r", &listing).unwrap_err();
    assert_eq!(error, not_a_file("root/foo/1.0.0/beta-dir"));
    assert!(error.is_structural());
}

#[test]
fn the_first_violation_of_the_walk_is_reported() {
    let mut deep = version("root/a", "1", &["x"]);
    deep.files.push(stray_directory("root/a/1", "d"));
    let listing = directory(vec![package("a", vec![deep]), stray_package("b")]);
    assert_eq!(collect_regression_paths("r", &listing), Err(not_a_file("root/a/1/d")));
}

#[test]
fn directory_that_cannot_be_listed_fails_the_walk() {
    let mut root = directory(vec![package("a", vec![version("root/a", "1", &["beta-1"])])]);
    root.unreadable = true;
    let error = collect_regression_paths("r", &root).unwrap_err();
    assert_eq!(error, unreadable("root"));
    assert!(!error.is_structural());

    let mut a = package("a", vec![version("root/a", "1", &["beta-1"])]);
    a.unreadable = true;
    let listing = directory(vec![a, package("b", vec![])]);
    assert_eq!(collect_regression_paths("r", &listing), Err(unreadable("root/a")));

    let mut v = version("root/a", "1", &["beta-1"]);
    v.unreadable = true;
    let listing = directory(vec![package("a", vec![v, version("root/a", "2", &[])])]);
    assert_eq!(collect_regression_paths("r", &listing), Err(unreadable("root/a/1")));

    let empty = Directory { path: "gone".to_string(), packages: Vec::new(), unreadable: true };
    assert_eq!(collect_regression_paths("r", &empty), Err(unreadable("gone")));
}

#[test]
fn what_the_walk_meets_first_is_reported() {
    // The listing of a version failed after a directory had been listed in it.
    let mut v = version("root/a", "1", &["x"]);
    v.files.push(stray_directory("root/a/1", "d"));
    v.unreadable = true;
    let listing = directory(vec![package("a", vec![v])]);
    assert_eq!(collect_regression_paths("r", &listing), Err(not_a_file("root/a/1/d")));

    // The listing of the first package failed; the second entry is out of place.
    let mut a = package("a", vec![version("root/a", "1", &["beta-1"])]);
    a.unreadable = true;
    let listing = directory(vec![a, stray_package("b")]);
    assert_eq!(collect_regression_paths("r", &listing), Err(unreadable("root/a")));

    // An entry out of place comes before the failure of the whole listing.
    let mut root = directory(vec![package("a", vec![]), stray_package("b")]);
    root.unreadable = true;
    assert_eq!(collect_regression_paths("r", &root), Err(not_a_directory("root/b")));

    // What is no directory was never listed.
    let mut stray = stray_version("root/a", "v");
    stray.unreadable = true;
    let listing = directory(vec![package("a", vec![stray])]);
    assert_eq!(collect_regression_paths("r", &listing), Err(not_a_directory("root/a/v")));
}

#[test]
fn inserting_keeps_packages_sorted_and_replaces() {
    let mut map = RegressionMap::new();
    map.insert(Crate::new("m", "1"), "r1".to_string(), "p1".to_string());
    map.insert(Crate::new("a", "2"), "r1".to_string(), "p2".to_string());
    map.insert(Crate::new("z", "0"), "r1".to_string(), "p3".to_string());
    map.insert(Crate::new("a", "10"), "r1".to_string(), "p4".to_string());
    map.insert(Crate::new("m", "1"), "r2".to_string(), "p5".to_string());
    assert_eq!(
        map.entries(),
        &vec![
            entry("a", "10", "r1", "p4"),
            entry("a", "2", "r1", "p2"),
            entry("m", "1", "r2", "p5"),
            entry("z", "0", "r1", "p3"),
        ]
    );
}

#[test]
fn extending_prefers_the_later_map() {
    let mut first = RegressionMap::new();
    first.insert(Crate::new("a", "1"), "r1".to_string(), "gh/a".to_string());
    first.insert(Crate::new("c", "1"), "r1".to_string(), "gh/c".to_string());
    let mut second = RegressionMap::new();
    second.insert(Crate::new("b", "1"), "r2".to_string(), "reg/b".to_string());
    second.insert(Crate::new("c", "1"), "r2".to_string(), "reg/c".to_string());
    first.extend(second);
    assert_eq!(
        first.entries(),
        &vec![
            entry("a", "1", "r1", "gh/a"),
            entry("b", "1", "r2", "reg/b"),
            entry("c", "1", "r2", "reg/c"),
        ]
    );
}

#[test]
fn end_to_end_example() {
    let listing =
        directory(vec![package("foo", vec![version("root/foo", "1.0.0", &["beta-1.log"])])]);
    let map = collect_regression_paths("run1", &listing).unwrap();
    let contents = "[INFO] [stderr] error[E0308]: mismatched types\n\
                    [INFO] [stderr]  expected `i32`, found `u8`\n\
                    [INFO] [stderr] error: aborting due to previous error\n";
    let mut errors = ErrorMap::new();
    for e in map.entries() {
        assert_eq!(e.path, "root/foo/1.0.0/beta-1.log");
        errors.record(&e.run, &e.krate, contents);
    }
    let groups = errors.groups();
    assert_eq!(groups.len(), 1);
    assert_eq!(groups[0].error, "error[E0308]: mismatched types");
    assert_eq!(
        groups[0].crates,
        vec![Regressed { run: "run1".to_string(), krate: Crate::new("foo", "1.0.0") }]
    );
}
