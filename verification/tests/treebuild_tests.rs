use gik::treebuild::{build_tree_recursive, sort_entries};

fn h(v: u8) -> gik::hash::Hash {
    gik::hash::Hash([v; 20])
}

#[test]
fn tree_of_nested_paths() {
    let files = vec![
        ("b.txt".to_string(), h(1)),
        ("src/main.rs".to_string(), h(2)),
        ("src/lib/mod.rs".to_string(), h(3)),
        ("a.txt".to_string(), h(4)),
    ];
    let mut stored = Vec::new();
    let (root, root_stored) = build_tree_recursive(&files, &mut stored);

    // src/lib holds mod.rs
    let lib_entries = vec![(0o100644u32, "mod.rs".to_string(), h(3))];
    let lib_hash = gik::objects::hash_tree(&lib_entries);
    // src holds lib/ and main.rs, sorted by name
    let src_entries = vec![(0o040000u32, "lib".to_string(), lib_hash), (0o100644u32, "main.rs".to_string(), h(2))];
    let src_hash = gik::objects::hash_tree(&src_entries);
    let root_entries = vec![
        (0o100644u32, "a.txt".to_string(), h(4)),
        (0o100644u32, "b.txt".to_string(), h(1)),
        (0o040000u32, "src".to_string(), src_hash),
    ];
    assert_eq!(root, gik::objects::hash_tree(&root_entries));
    assert_eq!(root_stored, gik::objects::compress_tree(&root_entries));
    assert_eq!(stored.len(), 2);
    assert_eq!(stored[0].0, lib_hash);
    assert_eq!(stored[1].0, src_hash);
}

#[test]
fn tree_paths_with_backslashes_and_trailing_slash() {
    let files = vec![("dir\\f".to_string(), h(1)), ("x/".to_string(), h(2)), ("/skipped".to_string(), h(3))];
    let mut stored = Vec::new();
    let (root, _) = build_tree_recursive(&files, &mut stored);
    let dir_hash = gik::objects::hash_tree(&[(0o100644u32, "f".to_string(), h(1))]);
    let expected = vec![(0o040000u32, "dir".to_string(), dir_hash), (0o100644u32, "x".to_string(), h(2))];
    assert_eq!(root, gik::objects::hash_tree(&expected));
}

#[test]
fn sorting_is_stable_by_name() {
    let es = vec![
        (1u32, "b".to_string(), h(1)),
        (2u32, "a".to_string(), h(2)),
        (3u32, "b".to_string(), h(3)),
    ];
    let s = sort_entries(es);
    let modes: Vec<u32> = s.iter().map(|e| e.0).collect();
    assert_eq!(modes, vec![2, 1, 3]);
}

#[test]
fn empty_tree() {
    let mut stored = Vec::new();
    let (root, _) = build_tree_recursive(&[], &mut stored);
    assert_eq!(hex::encode(root.0), "4b825dc642cb6eb9a060e54bf8d69288fbee4904");
    assert!(stored.is_empty());
}

#[test]
fn tree_level_splits_files_and_directories() {
    let entries = vec![
        (0o100644u32, "a.txt".to_string(), h(1)),
        (0o040000u32, "src".to_string(), h(2)),
        (0o100644u32, "z.txt".to_string(), h(3)),
    ];
    let (files, dirs) = gik::treebuild::tree_level("", &entries);
    assert_eq!(files, vec![("a.txt".to_string(), h(1)), ("z.txt".to_string(), h(3))]);
    assert_eq!(dirs, vec![("src".to_string(), h(2))]);
    let (files, dirs) = gik::treebuild::tree_level("lib/x", &entries);
    assert_eq!(files[0].0, "lib/x/a.txt");
    assert_eq!(dirs[0].0, "lib/x/src");
}

#[test]
fn tree_order_reads_directories_with_a_slash() {
    let es = vec![
        (0o040000u32, "a".to_string(), h(1)),
        (0o100644u32, "a.txt".to_string(), h(2)),
        (0o100644u32, "a0".to_string(), h(3)),
        (0o100644u32, "B".to_string(), h(4)),
    ];
    let sorted = sort_entries(es);
    let names: Vec<&str> = sorted.iter().map(|e| e.1.as_str()).collect();
    // 'B' < 'a'; "a.txt" < "a/" < "a0" bytewise.
    assert_eq!(names, vec!["B", "a.txt", "a", "a0"]);
}

#[test]
fn tree_of_dir_and_file_sharing_a_prefix_uses_git_order() {
    let files = vec![("a/x".to_string(), h(1)), ("a.txt".to_string(), h(2))];
    let mut stored = Vec::new();
    let (root, _) = build_tree_recursive(&files, &mut stored);
    let sub = gik::objects::hash_tree(&[(0o100644u32, "x".to_string(), h(1))]);
    let expected = gik::objects::hash_tree(&[
        (0o100644u32, "a.txt".to_string(), h(2)),
        (0o040000u32, "a".to_string(), sub),
    ]);
    assert_eq!(root, expected);
}
