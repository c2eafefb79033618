use regression_report::canon::erase_backtick_contents;
use regression_report::filter::{extract_error_lines, process_regression_file, whitespace};

/// The same selection written with the string methods of the standard
/// library.
fn expected_by_std(contents: &str) -> Vec<String> {
    let mut lines: Vec<String> = Vec::new();
    for l in contents.lines() {
        if !l.starts_with("[INFO] [stderr]") {
            continue;
        }
        let l = l.trim_start_matches("[INFO] [stderr]").trim();
        if !(l.starts_with("error:") || l.starts_with("error[")) {
            continue;
        }
        if l.starts_with("error: aborting")
            || l.starts_with("error: could not compile")
            || l.starts_with("error: Compilation failed, aborting rustdoc")
            || l.starts_with("error: Could not document")
            || l.starts_with("error: build failed")
            || l.starts_with("error: the lock file")
        {
            continue;
        }
        lines.push(erase_backtick_contents(l));
    }
    lines.sort();
    lines.dedup();
    lines
}

#[test]
fn marked_error_lines_are_extracted_in_order() {
    let log = "[INFO] [stderr] error[E0308]: mismatched types\n\
               [INFO] [stdout] error: not from standard error\n\
               [INFO] [stderr] error: cannot find `x`\n\
               [INFO] [stderr] warning: unused\n\
               [INFO] [stderr] error[E0308]: mismatched types\n";
    assert_eq!(
        extract_error_lines(log),
        vec![
            "error[E0308]: mismatched types".to_string(),
            "error: cannot find `x`".to_string(),
            "error[E0308]: mismatched types".to_string(),
        ]
    );
}

#[test]
fn log_without_errors_gives_nothing() {
    assert_eq!(extract_error_lines(""), Vec::<String>::new());
    assert_eq!(extract_error_lines("\n\n"), Vec::<String>::new());
    assert_eq!(
        process_regression_file("[INFO] [stderr] warning: unused\n[INFO] done\n"),
        Vec::<String>::new()
    );
}

#[test]
fn unmarked_line_is_excluded() {
    let log = "error: this looks like an error\n\
               error[E0001]: so does this\n\
               [INFO] error: and this\n\
               \u{20}[INFO] [stderr] error: the marker does not open the line\n";
    assert_eq!(process_regression_file(log), Vec::<String>::new());
}

#[test]
fn summaries_are_never_errors() {
    let log = "[INFO] [stderr] error: aborting due to 2 previous errors\n\
               [INFO] [stderr] error[E0277]: the trait bound `T: Copy` is not satisfied\n";
    assert_eq!(
        process_regression_file(log),
        vec!["error[E0277]: the trait bound `...` is not satisfied".to_string()]
    );
}

#[test]
fn every_kind_of_summary_is_left_out() {
    let log = "[INFO] [stderr] error: aborting due to previous error\n\
               [INFO] [stderr] error: could not compile `foo`.\n\
               [INFO] [stderr] error: Compilation failed, aborting rustdoc\n\
               [INFO] [stderr] error: Could not document `foo`.\n\
               [INFO] [stderr] error: build failed\n\
               [INFO] [stderr] error: the lock file needs to be updated\n";
    assert_eq!(process_regression_file(log), Vec::<String>::new());
}

#[test]
fn summaries_are_matched_with_their_case() {
    let log = "[INFO] [stderr] error: Aborting\n\
               [INFO] [stderr] error: could not document\n\
               [INFO] [stderr] error:aborting\n";
    assert_eq!(
        process_regression_file(log),
        vec![
            "error: Aborting".to_string(),
            "error: could not document".to_string(),
            "error:aborting".to_string(),
        ]
    );
}

#[test]
fn message_must_open_with_the_error_token() {
    let log = "[INFO] [stderr] an error: in the middle\n\
               [INFO] [stderr] Error: capital\n\
               [INFO] [stderr] error\n\
               [INFO] [stderr] error(x)\n\
               [INFO] [stderr] error:\n\
               [INFO] [stderr] error[\n";
    assert_eq!(
        extract_error_lines(log),
        vec!["error:".to_string(), "error[".to_string()]
    );
}

#[test]
fn repeated_markers_and_white_space_are_stripped() {
    let log = "[INFO] [stderr][INFO] [stderr] \t error: twice marked \t \n\
               [INFO] [stderr]error: no space\n\
               [INFO] [stderr]  [INFO] [stderr] error: marker after space\n";
    assert_eq!(
        extract_error_lines(log),
        vec!["error: twice marked".to_string(), "error: no space".to_string()]
    );
}

#[test]
fn carriage_returns_and_missing_final_line_feed() {
    let log = "[INFO] [stderr] error: one\r\n[INFO] [stderr] error: two\r\n[INFO] [stderr] error: three";
    assert_eq!(
        extract_error_lines(log),
        vec![
            "error: one".to_string(),
            "error: two".to_string(),
            "error: three".to_string(),
        ]
    );
}

#[test]
fn unicode_white_space_is_trimmed() {
    let log = "[INFO] [stderr]\u{a0}\u{2003}error: wide\u{3000}\u{85}\n";
    assert_eq!(extract_error_lines(log), vec!["error: wide".to_string()]);
}

#[test]
fn errors_of_a_file_are_sorted_and_distinct() {
    let log = "[INFO] [stderr] error: zebra `a`\n\
               [INFO] [stderr] error[E0002]: beta\n\
               [INFO] [stderr] error: zebra `b`\n\
               [INFO] [stderr] error: Alpha\n\
               [INFO] [stderr] error[E0002]: beta\n\
               [INFO] [stderr] error: zebra `c`\n";
    assert_eq!(
        process_regression_file(log),
        vec![
            "error: Alpha".to_string(),
            "error: zebra `...`".to_string(),
            "error[E0002]: beta".to_string(),
        ]
    );
}

#[test]
fn same_line_three_times_counts_once() {
    let log = "[INFO] [stderr] error: same\n\
               [INFO] [stderr] error: same\n\
               [INFO] [stderr] error: same\n";
    assert_eq!(process_regression_file(log), vec!["error: same".to_string()]);
    assert_eq!(extract_error_lines(log).len(), 3);
}

#[test]
fn agrees_with_the_standard_library() {
    let logs = [
        "",
        "\n",
        "[INFO] [stderr] error: a\n",
        "[INFO] [stderr] error: b\n[INFO] [stderr] error: a\n[INFO] [stderr] error: b",
        "[INFO] [stderr] error: `x` y\r\n\r\n[INFO] [stderr]   error[E1]: z `w\r\n",
        "[INFO] [stderr][INFO] [stderr]error: é\n[INFO] [stderr] error: e\u{301}\n[INFO] [stderr] error: z\n[INFO] [stderr] error: \u{10348}\n[INFO] [stderr] error: \u{ff5a}\n",
        "[INFO] [stderr] error: aborting\n[INFO] [stderr] error: abort\n[INFO] [stderr] error: build failedx\n",
        "x[INFO] [stderr] error: a\n[INFO] [stderr] \u{2028}error: sep\u{2029}\n[INFO] [stderr] \u{200b}error: zero width\n",
        "[INFO] [stderr] error: ab\n[INFO] [stderr] error: a\n[INFO] [stderr] error: abc\n[INFO] [stderr] error: \n[INFO] [stderr] error:\n",
    ];
    for log in logs {
        assert_eq!(process_regression_file(log), expected_by_std(log), "log: {:?}", log);
    }
}

#[test]
fn white_space_is_what_the_standard_library_says() {
    let mut u: u32 = 0;
    while u <= 0x10ffff {
        if let Some(c) = char::from_u32(u) {
            assert_eq!(whitespace(c), c.is_whitespace(), "U+{:04X}", u);
        }
        u += 1;
    }
}
