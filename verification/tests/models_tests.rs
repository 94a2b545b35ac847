use gik::models::{CommitMeta, FileState, IndexEntry, RepoStatus, TransactionRecord, UndoAction};

#[test]
fn commit_meta_reads_back_built_commit() {
    // The metadata a packed commit yields is what was written.
    let tree = gik::hash::Hash([2; 20]);
    let parent = gik::hash::Hash([1; 20]);
    let content = gik::objects::build_commit_content(tree, &[parent], "Author", "a@b", 1234567890, "Initial commit");
    let meta = gik::unpack::parse_commit_meta(content.as_bytes()).unwrap();
    let expected = CommitMeta {
        parent_hashes: vec![parent],
        tree_hash: tree,
        timestamp: 1234567890,
        author: "Author <a@b>".to_string(),
        message: "Initial commit".to_string(),
    };
    assert_eq!(meta, expected);
}

#[test]
fn transaction_record_holds_its_action() {
    let record = TransactionRecord {
        timestamp: 1234567890,
        action: UndoAction::Unstage { path: "test.txt".to_string(), old_entry: None },
    };
    assert_eq!(record.timestamp, 1234567890);
    assert_eq!(record.action, UndoAction::Unstage { path: "test.txt".to_string(), old_entry: None });
}

#[test]
fn repo_status_default_is_empty() {
    let s = RepoStatus::default();
    assert!(s.staged.is_empty() && s.unstaged.is_empty() && s.untracked.is_empty());
}

#[test]
fn index_entry_is_copy() {
    let e = IndexEntry { hash: gik::hash::Hash([3; 20]), size: 5, mtime: 9 };
    let f = e;
    assert_eq!(e, f);
    assert_eq!(FileState::New, FileState::New);
}
