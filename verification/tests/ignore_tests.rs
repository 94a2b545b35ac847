use gik::ignore::IgnoreMatcher;

#[test]
fn test_default_ignores() {
    let matcher = IgnoreMatcher::new();

    assert!(matcher.is_ignored(".gik.db"));
    assert!(matcher.is_ignored(".git"));
    assert!(matcher.is_ignored(".git/config"));
    assert!(!matcher.is_ignored("README.md"));
    assert!(!matcher.is_ignored(".github/workflows"));
}

#[test]
fn test_custom_ignore_file() {
    let matcher = IgnoreMatcher::with_ignore_file("target\n*.tmp\n# comment\n\n");
    assert!(matcher.is_ignored("target"));
    assert!(matcher.is_ignored("test.tmp"));
    assert!(!matcher.is_ignored("src/main.rs"));
}

#[test]
fn ignore_default_matches_new() {
    let m = IgnoreMatcher::default();
    assert!(m.is_ignored("x_gik_test_y"));
    assert!(m.is_ignored(".gik.db/objects"));
}
