use regression_report::package::{compare_crates, Crate};
use regression_report::text::{chars_of, compare, Order};

fn expected(a: &str, b: &str) -> Order {
    if a < b {
        Order::Less
    } else if a == b {
        Order::Equal
    } else {
        Order::Greater
    }
}

#[test]
fn characters_are_copied_in_order() {
    assert_eq!(chars_of("aé\u{10348}"), vec!['a', 'é', '\u{10348}']);
    assert_eq!(chars_of(""), Vec::<char>::new());
}

#[test]
fn prefix_precedes_and_first_difference_decides() {
    assert_eq!(compare("", ""), Order::Equal);
    assert_eq!(compare("", "a"), Order::Less);
    assert_eq!(compare("a", ""), Order::Greater);
    assert_eq!(compare("abc", "abd"), Order::Less);
    assert_eq!(compare("abd", "abc"), Order::Greater);
    assert_eq!(compare("ab", "abc"), Order::Less);
    assert_eq!(compare("abc", "abc"), Order::Equal);
    assert_eq!(compare("B", "a"), Order::Less);
}

#[test]
fn texts_compare_as_strings_do() {
    let samples = [
        "", "a", "A", "ab", "abc", "b", "é", "e\u{301}", "z", "\u{7f}", "\u{80}", "\u{7ff}",
        "\u{800}", "\u{d7ff}", "\u{e000}", "\u{ffff}", "\u{10000}", "\u{10ffff}", "a\u{10000}",
        "a\u{ffff}", "error: x", "error[E0308]",
    ];
    for a in samples {
        for b in samples {
            assert_eq!(compare(a, b), expected(a, b), "{:?} and {:?}", a, b);
        }
    }
}

#[test]
fn packages_compare_by_name_then_version() {
    let a = Crate::new("foo", "1.0.0");
    let b = Crate::new("foo", "1.0.1");
    let c = Crate::new("fop", "0.0.1");
    assert_eq!(compare_crates(&a, &a), Order::Equal);
    assert_eq!(compare_crates(&a, &b), Order::Less);
    assert_eq!(compare_crates(&b, &a), Order::Greater);
    assert_eq!(compare_crates(&b, &c), Order::Less);
    assert_eq!(compare_crates(&c, &a), Order::Greater);
    assert_eq!(a.clone(), a);
}
