use gik::utils::{find_repo_root, resolve_hash, resolve_path};

#[test]
fn test_resolve_path() {
    let root = "/repo";
    let cwd1 = "/repo/src";

    assert_eq!(resolve_path(cwd1, root, "main.rs"), "src/main.rs");
    assert_eq!(resolve_path(cwd1, root, "."), "src");
    assert_eq!(resolve_path(root, root, "."), ".");
    assert_eq!(resolve_path(root, root, "src/main.rs"), "src/main.rs");
}

#[test]
fn resolve_path_outside_root_keeps_input() {
    assert_eq!(resolve_path("/elsewhere", "/repo", "a\\b"), "a/b");
}

#[test]
fn find_repo_root_takes_first_with_database() {
    let c = vec!["/a/b".to_string(), "/a".to_string(), "/".to_string()];
    assert_eq!(find_repo_root(&c, &[false, true, true]).unwrap(), "/a");
    match find_repo_root(&c, &[false, false, false]) {
        Err(gik::error::GikError::NotFound(m)) => {
            assert_eq!(m, "Not a gik repository (or any of the parent directories): .gik")
        }
        other => panic!("unexpected {:?}", other),
    }
}

#[test]
fn repo_root_candidates_walk_up() {
    assert_eq!(gik::utils::repo_root_candidates("/a/b"), vec!["/a/b".to_string(), "/a".to_string(), "/".to_string()]);
}

#[test]
fn resolve_hash_prefers_bookmark() {
    let h = gik::hash::Hash([9; 20]);
    assert_eq!(resolve_hash("main", Some(h), &[]).unwrap(), (h, Some("main".to_string())));
}

#[test]
fn resolve_hash_full_hash() {
    let full = "ab".repeat(20);
    assert_eq!(resolve_hash(&full, None, &[]).unwrap(), (gik::hash::Hash([0xab; 20]), None));
    let bad = "zz".repeat(20);
    assert!(matches!(resolve_hash(&bad, None, &[]), Err(gik::error::GikError::Validation(_))));
}

#[test]
fn resolve_hash_prefix() {
    let a = gik::hash::Hash([0xab; 20]);
    let b = gik::hash::Hash([0xac; 20]);
    assert_eq!(resolve_hash("ab", None, &[a, b]).unwrap(), (a, None));
    match resolve_hash("a", None, &[a, b]) {
        Err(gik::error::GikError::AmbiguousHash(m)) => assert_eq!(m, "a"),
        other => panic!("unexpected {:?}", other),
    }
    match resolve_hash("ff", None, &[a, b]) {
        Err(gik::error::GikError::NotFound(m)) => assert_eq!(m, "Object not found: ff"),
        other => panic!("unexpected {:?}", other),
    }
}

#[test]
fn repo_root_candidates_go_from_nearest_up() {
    let c = gik::utils::repo_root_candidates("/repo/src");
    assert_eq!(c, vec!["/repo/src".to_string(), "/repo".to_string(), "/".to_string()]);
    let has_db = vec![false, true, true];
    assert_eq!(gik::utils::find_repo_root(&c, &has_db).unwrap(), "/repo");
}
