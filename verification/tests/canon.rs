use regression_report::canon::erase_backtick_contents;

#[test]
fn quoted_names_become_placeholders() {
    assert_eq!(
        erase_backtick_contents("error[E0308]: expected `i32`, found `u8`"),
        "error[E0308]: expected `...`, found `...`"
    );
}

#[test]
fn line_without_backticks_is_unchanged() {
    assert_eq!(
        erase_backtick_contents("error[E0308]: mismatched types"),
        "error[E0308]: mismatched types"
    );
}

#[test]
fn empty_line_stays_empty() {
    assert_eq!(erase_backtick_contents(""), "");
}

#[test]
fn lines_that_differ_in_quoted_names_agree() {
    let a = erase_backtick_contents("error[E0599]: no method named `foo` found for type `Bar`");
    let b = erase_backtick_contents("error[E0599]: no method named `quux` found for type `u8`");
    assert_eq!(a, b);
    assert_eq!(a, "error[E0599]: no method named `...` found for type `...`");
}

#[test]
fn lines_that_differ_outside_quotes_disagree() {
    let a = erase_backtick_contents("error: cannot find `x` in this scope");
    let b = erase_backtick_contents("error: cannot find `x` in that scope");
    assert_ne!(a, b);
}

#[test]
fn empty_span_gets_the_placeholder() {
    assert_eq!(erase_backtick_contents("a``b"), "a`...`b");
}

#[test]
fn open_span_drops_the_rest() {
    assert_eq!(erase_backtick_contents("error: unclosed `span here"), "error: unclosed `");
    assert_eq!(erase_backtick_contents("`"), "`");
    assert_eq!(erase_backtick_contents("a `b` c `d"), "a `...` c `");
}

#[test]
fn canonical_line_is_a_fixed_point() {
    for line in [
        "error[E0308]: expected `i32`, found `u8`",
        "a `b` c `d",
        "``",
        "plain",
        "`...`",
    ] {
        let once = erase_backtick_contents(line);
        assert_eq!(erase_backtick_contents(&once), once);
    }
}

#[test]
fn characters_beyond_ascii_are_kept_outside_spans() {
    assert_eq!(
        erase_backtick_contents("error: é `λ→x` ü"),
        "error: é `...` ü"
    );
}
