use window_layout::text::{compare_text, same_text, Standing};

#[test]
fn same_text_compares_every_character() {
    assert!(same_text("", ""));
    assert!(same_text("bash", "bash"));
    assert!(!same_text("bash", "bash "));
    assert!(!same_text("bash", "Bash"));
    assert!(!same_text("", "a"));
    assert!(same_text("na\u{ef}ve", "na\u{ef}ve"));
    assert!(!same_text("na\u{ef}ve", "naive"));
}

#[test]
fn compare_text_orders_as_str_does() {
    let words = [
        "", "A", "B", "a", "ab", "abc", "abd", "b", "Terminal", "Term", "iTerm2", "Finder",
        "\u{e9}t\u{e9}", "ete", "z", "\u{4e2d}\u{6587}", "~", " ", "0", "10", "9",
    ];
    for a in words {
        for b in words {
            let expected = match a.cmp(b) {
                std::cmp::Ordering::Less => Standing::Before,
                std::cmp::Ordering::Equal => Standing::Same,
                std::cmp::Ordering::Greater => Standing::After,
            };
            assert_eq!(compare_text(a, b), expected, "{:?} / {:?}", a, b);
        }
    }
}

#[test]
fn a_prefix_comes_before_the_longer_text() {
    assert_eq!(compare_text("Term", "Terminal"), Standing::Before);
    assert_eq!(compare_text("Terminal", "Term"), Standing::After);
    assert_eq!(compare_text("", "x"), Standing::Before);
}

#[test]
fn upper_case_comes_before_lower_case() {
    assert_eq!(compare_text("Zed", "alpha"), Standing::Before);
    assert_eq!(compare_text("alpha", "Zed"), Standing::After);
}
