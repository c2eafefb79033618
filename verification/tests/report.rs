use regression_report::errors::ErrorMap;
use regression_report::package::Crate;
use regression_report::report::generate_report;

/// The errors of the logs, each given as run, name, version and text.
fn collect(logs: &[(&str, &str, &str, &str)]) -> ErrorMap {
    let mut errors = ErrorMap::new();
    for (run, name, version, text) in logs {
        errors.record(run, &Crate::new(name, version), text);
    }
    errors
}

#[test]
fn empty_map_gives_an_empty_report() {
    assert_eq!(generate_report(&ErrorMap::new()), "");
}

#[test]
fn registry_package_links_to_its_release() {
    let errors = collect(&[(
        "run1",
        "foo",
        "1.0.0",
        "[INFO] [stderr] error[E0308]: mismatched types\n",
    )]);
    assert_eq!(
        generate_report(&errors),
        "### error[E0308]: mismatched types\n\
         Number of crates regressed: 1\n\
         <details>\n\
         \n\
         - [`foo v1.0.0`](https://crater-reports.s3.amazonaws.com/run1/reg/foo-1.0.0/log.txt)\n\
         \n\
         </details>"
    );
}

#[test]
fn repository_package_links_to_its_revision() {
    let errors = collect(&[(
        "pr-1",
        "owner.repo",
        "abc123",
        "[INFO] [stderr] error: oops\n",
    )]);
    assert_eq!(
        generate_report(&errors),
        "### error: oops\n\
         Number of crates regressed: 1\n\
         <details>\n\
         \n\
         - [`owner.repo/abc123`](https://crater-reports.s3.amazonaws.com/pr-1/gh/owner.repo.abc123/log.txt)\n\
         \n\
         </details>"
    );
}

#[test]
fn sections_are_parted_by_an_empty_line() {
    let errors = collect(&[
        ("r", "a", "0.1.0", "[INFO] [stderr] error: two\n[INFO] [stderr] error: one `x`\n"),
        ("r", "b", "f00", "[INFO] [stderr] error: one `y`\n"),
    ]);
    assert_eq!(
        generate_report(&errors),
        "### error: one `...`\n\
         Number of crates regressed: 2\n\
         <details>\n\
         \n\
         - [`a v0.1.0`](https://crater-reports.s3.amazonaws.com/r/reg/a-0.1.0/log.txt)\n\
         - [`b/f00`](https://crater-reports.s3.amazonaws.com/r/gh/b.f00/log.txt)\n\
         \n\
         </details>\n\
         \n\
         ### error: two\n\
         Number of crates regressed: 1\n\
         <details>\n\
         \n\
         - [`a v0.1.0`](https://crater-reports.s3.amazonaws.com/r/reg/a-0.1.0/log.txt)\n\
         \n\
         </details>"
    );
}

#[test]
fn counts_are_written_in_decimal() {
    let mut errors = ErrorMap::new();
    let mut n = 0;
    while n < 120 {
        errors.record("r", &Crate::new(&format!("p{:03}", n), "1"), "[INFO] [stderr] error: many\n");
        n += 1;
        let report = generate_report(&errors);
        let head = format!("### error: many\nNumber of crates regressed: {}\n<details>\n\n- [`p000 v1`]", n);
        assert!(report.starts_with(&head), "{}", n);
        assert_eq!(report.lines().filter(|l| l.starts_with("- [`")).count(), n);
    }
}

#[test]
fn only_ascii_digits_mark_a_release() {
    let errors = collect(&[
        ("r", "a", "٣.0", "[INFO] [stderr] error: e\n"),
        ("r", "b", "v1", "[INFO] [stderr] error: e\n"),
        ("r", "c", "9", "[INFO] [stderr] error: e\n"),
    ]);
    assert_eq!(
        generate_report(&errors),
        "### error: e\n\
         Number of crates regressed: 3\n\
         <details>\n\
         \n\
         - [`a/٣.0`](https://crater-reports.s3.amazonaws.com/r/gh/a.٣.0/log.txt)\n\
         - [`b/v1`](https://crater-reports.s3.amazonaws.com/r/gh/b.v1/log.txt)\n\
         - [`c v9`](https://crater-reports.s3.amazonaws.com/r/reg/c-9/log.txt)\n\
         \n\
         </details>"
    );
}

#[test]
fn empty_version_is_no_release() {
    let errors = collect(&[("r", "odd", "", "[INFO] [stderr] error: e\n")]);
    assert_eq!(
        generate_report(&errors),
        "### error: e\n\
         Number of crates regressed: 1\n\
         <details>\n\
         \n\
         - [`odd/`](https://crater-reports.s3.amazonaws.com/r/gh/odd./log.txt)\n\
         \n\
         </details>"
    );
}
