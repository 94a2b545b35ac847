use gik::models::{IndexEntry, UndoAction};
use gik::undo::RepoState;

fn h(v: u8) -> gik::hash::Hash {
    gik::hash::Hash([v; 20])
}

fn state() -> RepoState {
    RepoState {
        index: vec![("a".to_string(), IndexEntry { hash: h(1), size: 1, mtime: 1 })],
        heads: vec![h(5)],
        refs: vec![("main".to_string(), h(5))],
    }
}

#[test]
fn undo_stage_restores_entry() {
    let mut s = state();
    let a = s.stage("a", IndexEntry { hash: h(2), size: 2, mtime: 2 });
    assert_eq!(s.index[0].1.hash, h(2));
    s.apply_undo(&a);
    assert_eq!(s.index, state().index);
}

#[test]
fn undo_stage_of_new_path_removes_it() {
    let mut s = state();
    let a = s.stage("b", IndexEntry { hash: h(3), size: 3, mtime: 3 });
    assert_eq!(s.index.len(), 2);
    s.apply_undo(&a);
    assert_eq!(s.index, state().index);
}

#[test]
fn undo_commit_restores_heads() {
    let mut s = state();
    let a = s.commit(Some(h(5)), h(6));
    assert_eq!(s.heads, vec![h(6)]);
    s.apply_undo(&a);
    assert_eq!(s.heads, vec![h(5)]);
}

#[test]
fn undo_bookmark_move() {
    let mut s = state();
    let a = s.move_bookmark("main", h(6));
    assert_eq!(a, UndoAction::MoveBookmark { name: "main".into(), old_hash: Some(h(5)), new_hash: h(6) });
    s.apply_undo(&a);
    assert_eq!(s.refs, state().refs);
}

#[test]
fn undo_unstage_puts_the_entry_back() {
    let mut s = state();
    let a = s.unstage("a").unwrap();
    assert!(s.index.is_empty());
    s.apply_undo(&a);
    assert_eq!(s.index, state().index);
}
