use gik::merge::{analyze_tree_maps, MergeAction};

fn dummy_hash(val: u8) -> gik::hash::Hash {
    gik::hash::Hash([val; 20])
}

fn action_for(actions: &[(String, MergeAction)], path: &str) -> MergeAction {
    let found: Vec<&MergeAction> = actions.iter().filter(|(p, _)| p == path).map(|(_, a)| a).collect();
    assert_eq!(found.len(), 1);
    match found[0] {
        MergeAction::KeepOurs => MergeAction::KeepOurs,
        MergeAction::TakeTheirs(h) => MergeAction::TakeTheirs(*h),
        MergeAction::DeleteOurs => MergeAction::DeleteOurs,
        MergeAction::Merge { base, ours, theirs } => MergeAction::Merge { base: *base, ours: *ours, theirs: *theirs },
    }
}

#[test]
fn test_analyzer_keep_ours_when_theirs_unchanged() {
    let base = vec![("file.txt".to_string(), dummy_hash(1))];
    let ours = vec![("file.txt".to_string(), dummy_hash(2))];
    let theirs = vec![("file.txt".to_string(), dummy_hash(1))];
    let actions = analyze_tree_maps(&base, &ours, &theirs);
    assert_eq!(action_for(&actions, "file.txt"), MergeAction::KeepOurs);
}

#[test]
fn test_analyzer_take_theirs_when_ours_unchanged() {
    let base = vec![("file.txt".to_string(), dummy_hash(1))];
    let ours = vec![("file.txt".to_string(), dummy_hash(1))];
    let theirs = vec![("file.txt".to_string(), dummy_hash(3))];
    let actions = analyze_tree_maps(&base, &ours, &theirs);
    assert_eq!(action_for(&actions, "file.txt"), MergeAction::TakeTheirs(dummy_hash(3)));
}

#[test]
fn test_analyzer_delete_ours_when_theirs_deleted_and_ours_unchanged() {
    let base = vec![("file.txt".to_string(), dummy_hash(1))];
    let ours = vec![("file.txt".to_string(), dummy_hash(1))];
    let theirs: Vec<(String, gik::hash::Hash)> = vec![];
    let actions = analyze_tree_maps(&base, &ours, &theirs);
    assert_eq!(action_for(&actions, "file.txt"), MergeAction::DeleteOurs);
}

#[test]
fn test_analyzer_merge_when_both_changed_differently() {
    let base = vec![("file.txt".to_string(), dummy_hash(1))];
    let ours = vec![("file.txt".to_string(), dummy_hash(2))];
    let theirs = vec![("file.txt".to_string(), dummy_hash(3))];
    let actions = analyze_tree_maps(&base, &ours, &theirs);
    assert_eq!(
        action_for(&actions, "file.txt"),
        MergeAction::Merge { base: Some(dummy_hash(1)), ours: Some(dummy_hash(2)), theirs: Some(dummy_hash(3)) }
    );
}

#[test]
fn test_analyzer_keep_ours_when_both_changed_identically() {
    let base = vec![("file.txt".to_string(), dummy_hash(1))];
    let ours = vec![("file.txt".to_string(), dummy_hash(4))];
    let theirs = vec![("file.txt".to_string(), dummy_hash(4))];
    let actions = analyze_tree_maps(&base, &ours, &theirs);
    assert_eq!(action_for(&actions, "file.txt"), MergeAction::KeepOurs);
}

#[test]
fn analyzer_covers_every_path_once() {
    let base = vec![("a".to_string(), dummy_hash(1)), ("b".to_string(), dummy_hash(2))];
    let ours = vec![("b".to_string(), dummy_hash(2)), ("c".to_string(), dummy_hash(3))];
    let theirs = vec![("c".to_string(), dummy_hash(3)), ("d".to_string(), dummy_hash(4))];
    let actions = analyze_tree_maps(&base, &ours, &theirs);
    assert_eq!(actions.len(), 4);
    // a: removed on our side, unchanged on theirs' (absent) -> both agree it is gone
    assert_eq!(action_for(&actions, "a"), MergeAction::KeepOurs);
    // b: unchanged by us, deleted by them
    assert_eq!(action_for(&actions, "b"), MergeAction::DeleteOurs);
    // c: added identically on both sides
    assert_eq!(action_for(&actions, "c"), MergeAction::KeepOurs);
    // d: added by them only
    assert_eq!(action_for(&actions, "d"), MergeAction::TakeTheirs(dummy_hash(4)));
}
