use std::collections::BTreeMap;

use regression_report::canon::erase_backtick_contents;
use regression_report::errors::collect_errors;
use regression_report::package::Crate;
use regression_report::paths::{
    collect_regression_paths, Directory, FileEntry, PackageEntry, VersionEntry,
};
use regression_report::regressions::RegressionMap;

/// A small generator of numbers, the same on every run.
struct Numbers(u64);

impl Numbers {
    fn next(&mut self, below: usize) -> usize {
        self.0 = self.0.wrapping_mul(6364136223846793005).wrapping_add(1442695040888963407);
        ((self.0 >> 33) as usize) % below
    }
}

const NAMES: [&str; 8] = ["serde", "Serde", "a", "ab", "a-b", "zed", "é", "rand"];
const VERSIONS: [&str; 6] = ["1.0.0", "1.0.10", "1.0.2", "0.9", "abcdef", "Z"];
const FILES: [&str; 7] =
    ["beta-1.log", "try#1.log", "stable.log", "beta", "try", "results.json", "beta-2.log"];
const LINES: [&str; 12] = [
    "[INFO] [stderr] error[E0308]: mismatched types",
    "[INFO] [stderr] error: cannot find `foo` in `bar`",
    "[INFO] [stderr] error: cannot find `x` in `y`",
    "[INFO] [stderr]    error: unclosed `quote",
    "[INFO] [stderr] error: aborting due to 3 previous errors",
    "[INFO] [stderr] error: could not compile `z`.",
    "[INFO] [stderr] warning: unused variable",
    "[INFO] [stdout] error: on the wrong stream",
    "error: no marker",
    "[INFO] [stderr][INFO] [stderr] error: é ü `λ`\r",
    "[INFO] [stderr] error[E0599]: no method named `a` found",
    "",
];

fn log_text(numbers: &mut Numbers) -> String {
    let mut text = String::new();
    let mut n = numbers.next(9);
    while n > 0 {
        text.push_str(LINES[numbers.next(LINES.len())]);
        text.push('\n');
        n -= 1;
    }
    text
}

fn errors_by_std(contents: &str) -> Vec<String> {
    let mut lines: Vec<String> = Vec::new();
    for l in contents.lines() {
        if !l.starts_with("[INFO] [stderr]") {
            continue;
        }
        let l = l.trim_start_matches("[INFO] [stderr]").trim();
        if !(l.starts_with("error:") || l.starts_with("error[")) {
            continue;
        }
        if l.starts_with("error: aborting")
            || l.starts_with("error: could not compile")
            || l.starts_with("error: Compilation failed, aborting rustdoc")
            || l.starts_with("error: Could not document")
            || l.starts_with("error: build failed")
            || l.starts_with("error: the lock file")
        {
            continue;
        }
        lines.push(erase_backtick_contents(l));
    }
    lines.sort();
    lines.dedup();
    lines
}

#[test]
fn maps_agree_with_ordered_maps() {
    let mut numbers = Numbers(7);
    let mut round = 0;
    while round < 40 {
        let mut listing: Vec<PackageEntry> = Vec::new();
        let mut expected: BTreeMap<(String, String), (String, String)> = BTreeMap::new();
        let mut names: Vec<&str> = NAMES.to_vec();
        let mut packages = numbers.next(6);
        while packages > 0 && !names.is_empty() {
            let name = names.remove(numbers.next(names.len()));
            let mut package = PackageEntry {
                name: name.to_string(),
                path: format!("root/{}", name),
                is_dir: true,
                versions: Vec::new(),
                unreadable: false,
            };
            let mut versions: Vec<&str> = VERSIONS.to_vec();
            let mut count = numbers.next(4);
            while count > 0 {
                let version = versions.remove(numbers.next(versions.len()));
                let mut entry = VersionEntry {
                    name: version.to_string(),
                    path: format!("root/{}/{}", name, version),
                    is_dir: true,
                    files: Vec::new(),
                    unreadable: false,
                };
                let mut files = numbers.next(4);
                while files > 0 {
                    let file = FILES[numbers.next(FILES.len())];
                    let path = format!("root/{}/{}/{}", name, version, file);
                    if file.starts_with("beta-") || file.starts_with("try") {
                        expected.insert(
                            (name.to_string(), version.to_string()),
                            ("run".to_string(), path.clone()),
                        );
                    }
                    entry.files.push(FileEntry { name: file.to_string(), path, is_dir: false });
                    files -= 1;
                }
                package.versions.push(entry);
                count -= 1;
            }
            listing.push(package);
            packages -= 1;
        }
        let listing = Directory { path: "root".to_string(), packages: listing, unreadable: false };
        let map = collect_regression_paths("run", &listing).unwrap();

        let found: Vec<((String, String), (String, String))> = map
            .entries()
            .iter()
            .map(|e| {
                ((e.krate.name.clone(), e.krate.version.clone()), (e.run.clone(), e.path.clone()))
            })
            .collect();
        let wanted: Vec<((String, String), (String, String))> =
            expected.iter().map(|(k, v)| (k.clone(), v.clone())).collect();
        assert_eq!(found, wanted, "round {}", round);

        let mut texts: Vec<String> = Vec::new();
        let mut groups: BTreeMap<String, Vec<(String, (String, String))>> = BTreeMap::new();
        for (krate, (run, _)) in &expected {
            let text = log_text(&mut numbers);
            for error in errors_by_std(&text) {
                groups.entry(error).or_default().push((run.clone(), krate.clone()));
            }
            texts.push(text);
        }
        let errors = collect_errors(&map, &texts).unwrap();
        let found: Vec<(String, Vec<(String, (String, String))>)> = errors
            .groups()
            .iter()
            .map(|g| {
                let hits = g
                    .crates
                    .iter()
                    .map(|h| (h.run.clone(), (h.krate.name.clone(), h.krate.version.clone())))
                    .collect();
                (g.error.clone(), hits)
            })
            .collect();
        let wanted: Vec<(String, Vec<(String, (String, String))>)> =
            groups.iter().map(|(k, v)| (k.clone(), v.clone())).collect();
        assert_eq!(found, wanted, "round {}", round);
        round += 1;
    }
}

#[test]
fn extending_agrees_with_ordered_maps() {
    let mut numbers = Numbers(11);
    let mut round = 0;
    while round < 40 {
        let mut ours = RegressionMap::new();
        let mut theirs: BTreeMap<(String, String), (String, String)> = BTreeMap::new();
        let mut part = 0;
        while part < 3 {
            let mut more = RegressionMap::new();
            let mut other: BTreeMap<(String, String), (String, String)> = BTreeMap::new();
            let mut count = numbers.next(6);
            while count > 0 {
                let name = NAMES[numbers.next(NAMES.len())];
                let version = VERSIONS[numbers.next(VERSIONS.len())];
                let run = format!("run{}", part);
                let path = format!("{}/{}", part, count);
                more.insert(Crate::new(name, version), run.clone(), path.clone());
                other.insert((name.to_string(), version.to_string()), (run, path));
                count -= 1;
            }
            ours.extend(more);
            theirs.extend(other);
            part += 1;
        }
        let found: Vec<((String, String), (String, String))> = ours
            .entries()
            .iter()
            .map(|e| {
                ((e.krate.name.clone(), e.krate.version.clone()), (e.run.clone(), e.path.clone()))
            })
            .collect();
        let wanted: Vec<((String, String), (String, String))> =
            theirs.iter().map(|(k, v)| (k.clone(), v.clone())).collect();
        assert_eq!(found, wanted, "round {}", round);
        round += 1;
    }
}
