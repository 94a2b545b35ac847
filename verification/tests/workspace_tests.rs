use gik::models::IndexEntry;
use gik::workspace::{cached_hash, ignored_paths, paths_not_in};

fn h(v: u8) -> gik::hash::Hash {
    gik::hash::Hash([v; 20])
}

#[test]
fn cached_hash_needs_same_size_and_time() {
    let e = IndexEntry { hash: h(1), size: 10, mtime: 20 };
    assert_eq!(cached_hash(Some(e), 10, 20), Some(h(1)));
    assert_eq!(cached_hash(Some(e), 11, 20), None);
    assert_eq!(cached_hash(None, 10, 20), None);
}

#[test]
fn paths_not_in_other_list() {
    let disk = vec![("a".to_string(), h(1)), ("b".to_string(), h(2)), ("c".to_string(), h(3))];
    let tree = vec![("b".to_string(), h(9))];
    assert_eq!(paths_not_in(&disk, &tree), vec!["a".to_string(), "c".to_string()]);
}

#[test]
fn ignored_staged_paths() {
    let m = gik::ignore::IgnoreMatcher::with_ignore_file("*.log\n");
    let staged = vec![("x.log".to_string(), h(1)), ("x.rs".to_string(), h(2))];
    assert_eq!(ignored_paths(&m, &staged), vec!["x.log".to_string()]);
}
