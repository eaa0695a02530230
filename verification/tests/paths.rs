use window_layout::paths::expand_home;

#[test]
fn leading_tilde_becomes_the_home_directory() {
    assert_eq!(expand_home("~/.layout.yaml", "/Users/ada"), "/Users/ada/.layout.yaml");
    assert_eq!(expand_home("~", "/Users/ada"), "/Users/ada");
    assert_eq!(expand_home("~other/x", "/Users/ada"), "/Users/adaother/x");
}

#[test]
fn only_a_tilde_at_the_beginning_is_replaced() {
    assert_eq!(expand_home("/tmp/~/layout.yaml", "/Users/ada"), "/tmp/~/layout.yaml");
    assert_eq!(expand_home("layout~.yaml", "/Users/ada"), "layout~.yaml");
    assert_eq!(expand_home("~/a/~/b", "/h"), "/h/a/~/b");
    assert_eq!(expand_home("~~", "/h"), "/h~");
    assert_eq!(expand_home("", "/h"), "");
}

#[test]
fn path_without_tilde_is_kept() {
    assert_eq!(expand_home("/etc/layout.yaml", "/Users/ada"), "/etc/layout.yaml");
    assert_eq!(expand_home("relative/layout.yaml", "/Users/ada"), "relative/layout.yaml");
}

#[test]
fn home_is_expanded_as_a_replacement() {
    // A dollar sign in the replacement refers to a capture group.
    assert_eq!(expand_home("~/x", "/Users/$$ada"), "/Users/$ada/x");
    assert_eq!(expand_home("~/x", "/Users/$0"), "/Users/~/x");
}
