use gik::models::FileState;
use gik::status::get_status;

fn h(v: u8) -> gik::hash::Hash {
    gik::hash::Hash([v; 20])
}

fn e(p: &str, v: u8) -> (String, gik::hash::Hash) {
    (p.to_string(), h(v))
}

fn state_of(list: &[(String, FileState)], p: &str) -> Option<FileState> {
    list.iter().find(|(q, _)| q == p).map(|(_, s)| *s)
}

#[test]
fn status_compares_head_index_and_disk() {
    let head = vec![e("same", 1), e("changed", 2), e("removed", 3)];
    let index = vec![e("same", 1), e("changed", 9), e("added", 4), e("gone_from_disk", 5)];
    let disk = vec![e("same", 7), e("changed", 9), e("added", 4), e("zeta", 6), e("alpha", 6)];
    let s = get_status(&head, &index, &disk);
    assert_eq!(s.staged.len(), 4);
    assert_eq!(state_of(&s.staged, "changed"), Some(FileState::Modified));
    assert_eq!(state_of(&s.staged, "removed"), Some(FileState::Deleted));
    assert_eq!(state_of(&s.staged, "added"), Some(FileState::New));
    assert_eq!(state_of(&s.staged, "gone_from_disk"), Some(FileState::New));
    assert_eq!(s.unstaged.len(), 2);
    assert_eq!(state_of(&s.unstaged, "same"), Some(FileState::Modified));
    assert_eq!(state_of(&s.unstaged, "gone_from_disk"), Some(FileState::Deleted));
    assert_eq!(s.untracked, vec!["alpha".to_string(), "zeta".to_string()]);
}

#[test]
fn status_of_clean_tree_is_empty() {
    let files = vec![e("a", 1)];
    let s = get_status(&files, &files, &files);
    assert!(s.staged.is_empty() && s.unstaged.is_empty() && s.untracked.is_empty());
}
