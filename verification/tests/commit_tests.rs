use gik::commit::{author_identity, plan_commit, resolve_bookmarks, BookmarkPlan, SessionChange};
use gik::models::UndoAction;

fn h(v: u8) -> gik::hash::Hash {
    gik::hash::Hash([v; 20])
}

#[test]
fn commit_plan_matches_objects() {
    let plan = plan_commit(h(1), Some(h(2)), Some(h(3)), "N", "e@x", 42, "msg");
    assert_eq!(plan.meta.parent_hashes, vec![h(2), h(3)]);
    assert_eq!(plan.meta.author, "N <e@x>");
    assert_eq!(plan.hash, gik::objects::hash_commit(h(1), &[h(2), h(3)], "N", "e@x", 42, "msg"));
    assert_eq!(plan.undo, UndoAction::RevertCommit { old_head: Some(h(2)), new_head: plan.hash });
    let (kind, _, content) = gik::objects::decompress_object(&plan.stored).unwrap();
    assert_eq!(kind, "commit");
    assert_eq!(content, gik::objects::build_commit_content(h(1), &[h(2), h(3)], "N", "e@x", 42, "msg").into_bytes());
}

#[test]
fn author_identity_requires_both() {
    assert!(author_identity(Some("a".into()), Some("b".into())).is_ok());
    assert!(matches!(author_identity(None, Some("b".into())), Err(gik::error::GikError::Validation(_))));
}

#[test]
fn bookmarks_explicit_branch_wins() {
    let p = resolve_bookmarks(&[], None, None, Some("dev".into()));
    assert_eq!(p, BookmarkPlan { move_bookmark: Some("dev".into()), session: SessionChange::SetTo("dev".into()), warning: None });
}

#[test]
fn bookmarks_first_commit_creates_main() {
    let p = resolve_bookmarks(&[], None, None, None);
    assert_eq!(p.move_bookmark, Some("main".to_string()));
}

#[test]
fn bookmarks_single_at_parent_follows() {
    let refs = vec![("main".to_string(), h(1)), ("old".to_string(), h(2))];
    let p = resolve_bookmarks(&refs, None, Some(h(1)), None);
    assert_eq!(p, BookmarkPlan { move_bookmark: Some("main".into()), session: SessionChange::SetTo("main".into()), warning: None });
}

#[test]
fn bookmarks_none_at_parent_clears_session() {
    let refs = vec![("main".to_string(), h(1))];
    let p = resolve_bookmarks(&refs, Some("main".into()), Some(h(5)), None);
    assert_eq!(p, BookmarkPlan { move_bookmark: None, session: SessionChange::Clear, warning: None });
}

#[test]
fn bookmarks_several_at_parent() {
    let refs = vec![("a".to_string(), h(1)), ("b".to_string(), h(1))];
    let p = resolve_bookmarks(&refs, Some("b".into()), Some(h(1)), None);
    assert_eq!(p, BookmarkPlan { move_bookmark: Some("b".into()), session: SessionChange::Keep, warning: None });
    let p = resolve_bookmarks(&refs, Some("c".into()), Some(h(1)), None);
    assert_eq!(p.move_bookmark, None);
    assert_eq!(p.session, SessionChange::Clear);
    assert_eq!(
        p.warning,
        Some("Warning: Multiple bookmarks found at parent (a, b), but none match current session hint (c). Bookmark left behind.".to_string())
    );
    let p = resolve_bookmarks(&refs, None, Some(h(1)), None);
    assert_eq!(p.session, SessionChange::Keep);
    assert_eq!(
        p.warning,
        Some("Warning: Multiple bookmarks found at parent (a, b). Please specify which one to move using --branch <name>. Bookmark left behind.".to_string())
    );
}
