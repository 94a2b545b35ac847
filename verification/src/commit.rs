//! What a commit decides: its parents, the author identity it requires, the
//! commit object and metadata it writes, the undo record it leaves, and
//! which bookmark moves along with it.

use vstd::prelude::*;
use crate::error::GikError;
use crate::external::{chars_to_string, str_to_chars};
use crate::models::{CommitMeta, UndoAction};

verus! {

/// The parents of a new commit: the current head, if any, then the commit
/// being merged in, if a merge is under way.
pub open spec fn spec_commit_parents(head: Option<Seq<u8>>, merge_head: Option<Seq<u8>>) -> Seq<Seq<u8>> {
    (match head {
        Some(h) => seq![h],
        None => Seq::empty(),
    }) + (match merge_head {
        Some(m) => seq![m],
        None => Seq::empty(),
    })
}

/// The parents of a new commit.
pub fn commit_parents(head: Option<crate::hash::Hash>, merge_head: Option<crate::hash::Hash>) -> (r: Vec<crate::hash::Hash>)
    ensures
        crate::objects::hash_views(r@) == spec_commit_parents(crate::merge::opt_view(head), crate::merge::opt_view(merge_head)),
{
    let mut r: Vec<crate::hash::Hash> = Vec::new();
    if let Some(h) = head {
        r.push(h);
    }
    if let Some(m) = merge_head {
        r.push(m);
    }
    assert(crate::objects::hash_views(r@) =~= spec_commit_parents(crate::merge::opt_view(head), crate::merge::opt_view(merge_head)));
    r
}

/// The message given when the author's name or email is not configured.
pub open spec fn identity_unknown_message() -> Seq<char> {
    "Author identity unknown.\n\nPlease tell me who you are.\n\nRun:\n  gik config --global user.email \"you@example.com\"\n  gik config --global user.name \"Your Name\"\n\nOr import from git:\n  gik config --import-git\n"@
}

/// The author's name and email, both of which must be configured.
pub fn author_identity(name: Option<String>, email: Option<String>) -> (r: Result<(String, String), GikError>)
    ensures
        match (name, email) {
            (Some(n), Some(e)) => r matches Ok((rn, re)) && rn@ == n@ && re@ == e@,
            _ => r matches Err(GikError::Validation(m)) && m@ == identity_unknown_message(),
        },
{
    match (name, email) {
        (Some(n), Some(e)) => Ok((n, e)),
        _ => Err(GikError::Validation(
            "Author identity unknown.\n\nPlease tell me who you are.\n\nRun:\n  gik config --global user.email \"you@example.com\"\n  gik config --global user.name \"Your Name\"\n\nOr import from git:\n  gik config --import-git\n".to_string(),
        )),
    }
}

/// The author as the metadata records it: "<name> <<email>>".
pub open spec fn author_line(name: Seq<char>, email: Seq<char>) -> Seq<char> {
    name + " <"@ + email + ">"@
}

/// Everything a commit writes: its hash, its stored (compressed) object,
/// its metadata, and how to undo it.
pub struct CommitPlan {
    pub hash: crate::hash::Hash,
    pub stored: Vec<u8>,
    pub meta: CommitMeta,
    pub undo: UndoAction,
}

/// Plans a commit of `tree` on top of `head` (and `merge_head`, when a
/// merge is being concluded) by `name` <`email`> at `timestamp`.
pub fn plan_commit(
    tree: crate::hash::Hash,
    head: Option<crate::hash::Hash>,
    merge_head: Option<crate::hash::Hash>,
    name: &str,
    email: &str,
    timestamp: u64,
    message: &str,
) -> (p: CommitPlan)
    ensures
        ({
            let parents = spec_commit_parents(crate::merge::opt_view(head), crate::merge::opt_view(merge_head));
            let content = crate::objects::commit_content(tree@, parents, name@, email@, timestamp as nat, message@);
            &&& p.hash@ == crate::external::sha1_digest(crate::objects::commit_object(content))
            &&& p.stored@ == crate::external::zlib_compress(crate::objects::commit_object(content))
            &&& crate::objects::hash_views(p.meta.parent_hashes@) == parents
            &&& p.meta.tree_hash == tree
            &&& p.meta.timestamp == timestamp
            &&& p.meta.author@ == author_line(name@, email@)
            &&& p.meta.message@ == message@
            &&& p.undo matches UndoAction::RevertCommit { old_head: o, new_head: n }
            &&& crate::merge::opt_view(o) == crate::merge::opt_view(head) && n == p.hash
        }),
{
    let parents = commit_parents(head, merge_head);
    let hash = crate::objects::hash_commit(tree, parents.as_slice(), name, email, timestamp, message);
    let stored = crate::objects::compress_commit(tree, parents.as_slice(), name, email, timestamp, message);
    let mut author = str_to_chars(name);
    crate::text::push_str(&mut author, " <");
    crate::text::push_str(&mut author, email);
    crate::text::push_str(&mut author, ">");
    let meta = CommitMeta {
        parent_hashes: parents,
        tree_hash: tree,
        timestamp,
        author: chars_to_string(author.as_slice()),
        message: message.to_string(),
    };
    CommitPlan { hash, stored, meta, undo: UndoAction::RevertCommit { old_head: head, new_head: hash } }
}

/// What happens to the session's current bookmark.
#[derive(Debug, PartialEq, Eq)]
pub enum SessionChange {
    Keep,
    SetTo(String),
    Clear,
}

/// Which bookmark follows a new commit, what becomes of the session's
/// current bookmark, and the warning to show, if any.
#[derive(Debug, PartialEq, Eq)]
pub struct BookmarkPlan {
    pub move_bookmark: Option<String>,
    pub session: SessionChange,
    pub warning: Option<String>,
}

/// The names of the bookmarks that point at `parent`, in order.
pub open spec fn names_at(refs: Seq<(String, crate::hash::Hash)>, parent: Seq<u8>) -> Seq<Seq<char>> {
    refs.filter(|r: (String, crate::hash::Hash)| r.1@ == parent).map_values(|r: (String, crate::hash::Hash)| r.0@)
}

/// The warning when several bookmarks sit at the parent and none is the
/// session's.
pub open spec fn no_hint_match_warning(names: Seq<Seq<char>>, hint: Seq<char>) -> Seq<char> {
    "Warning: Multiple bookmarks found at parent ("@ + crate::text::join_sep(names, ", "@)
        + "), but none match current session hint ("@ + hint + "). Bookmark left behind."@
}

/// The warning when several bookmarks sit at the parent and the session
/// names none.
pub open spec fn no_hint_warning(names: Seq<Seq<char>>) -> Seq<char> {
    "Warning: Multiple bookmarks found at parent ("@ + crate::text::join_sep(names, ", "@)
        + "). Please specify which one to move using --branch <name>. Bookmark left behind."@
}

/// Whether a plan moves the named bookmark (or none), changes the session
/// as given, and warns as given.
pub open spec fn plan_is(
    p: BookmarkPlan,
    moved: Option<Seq<char>>,
    set: Option<Option<Seq<char>>>,
    warning: Option<Seq<char>>,
) -> bool {
    &&& match moved {
        Some(n) => p.move_bookmark matches Some(m) && m@ == n,
        None => p.move_bookmark is None,
    }
    &&& match set {
        None => p.session is Keep,
        Some(None) => p.session is Clear,
        Some(Some(n)) => p.session matches SessionChange::SetTo(m) && m@ == n,
    }
    &&& match warning {
        Some(w) => p.warning matches Some(x) && x@ == w,
        None => p.warning is None,
    }
}

/// Which bookmark follows a commit made on `parent`: the one named
/// explicitly; else "main" when there are no bookmarks yet; else the only
/// bookmark at the parent, or among several the session's own (the others
/// stay behind, with a warning when the session names none of them).
pub open spec fn bookmarks_follow(
    p: BookmarkPlan,
    refs: Seq<(String, crate::hash::Hash)>,
    hint: Option<Seq<char>>,
    parent: Option<Seq<u8>>,
    explicit: Option<Seq<char>>,
) -> bool {
    match explicit {
        Some(b) => plan_is(p, Some(b), Some(Some(b)), None),
        None => if refs.len() == 0 {
            plan_is(p, Some("main"@), Some(Some("main"@)), None)
        } else {
            match parent {
                None => plan_is(p, None, None, None),
                Some(par) => {
                    let ns = names_at(refs, par);
                    if ns.len() == 0 {
                        plan_is(p, None, Some(None), None)
                    } else if ns.len() == 1 {
                        plan_is(p, Some(ns[0]), Some(Some(ns[0])), None)
                    } else {
                        match hint {
                            Some(h) => if ns.contains(h) {
                                plan_is(p, Some(h), None, None)
                            } else {
                                plan_is(p, None, Some(None), Some(no_hint_match_warning(ns, h)))
                            },
                            None => plan_is(p, None, None, Some(no_hint_warning(ns))),
                        }
                    }
                },
            }
        },
    }
}

/// The optional text of an optional string.
pub open spec fn opt_text(s: Option<String>) -> Option<Seq<char>> {
    match s {
        Some(x) => Some(x@),
        None => None,
    }
}

/// Decides which bookmark moves to a new commit made on `parent_hash`,
/// given the bookmarks, the session's current bookmark and the one named on
/// the command line.
pub fn resolve_bookmarks(
    refs: &[(String, crate::hash::Hash)],
    session_hint: Option<String>,
    parent_hash: Option<crate::hash::Hash>,
    explicit_branch: Option<String>,
) -> (p: BookmarkPlan)
    ensures
        bookmarks_follow(p, refs@, opt_text(session_hint), crate::merge::opt_view(parent_hash), opt_text(explicit_branch)),
{
    if let Some(b) = explicit_branch {
        let s = b.clone();
        return BookmarkPlan { move_bookmark: Some(b), session: SessionChange::SetTo(s), warning: None };
    }
    if refs.len() == 0 {
        return BookmarkPlan {
            move_bookmark: Some("main".to_string()),
            session: SessionChange::SetTo("main".to_string()),
            warning: None,
        };
    }
    let parent = match parent_hash {
        Some(p) => p,
        None => {
            return BookmarkPlan { move_bookmark: None, session: SessionChange::Keep, warning: None };
        },
    };
    let ghost pred = |r: (String, crate::hash::Hash)| r.1@ == parent@;
    let mut names: Vec<Vec<char>> = Vec::new();
    let mut k: usize = 0;
    while k < refs.len()
        invariant
            k <= refs@.len(),
            pred == (|r: (String, crate::hash::Hash)| r.1@ == parent@),
            crate::text::views(names@) == refs@.subrange(0, k as int).filter(pred).map_values(
                |r: (String, crate::hash::Hash)| r.0@,
            ),
        decreases refs@.len() - k,
    {
        let ghost before = crate::text::views(names@);
        let hit = refs[k].1 == parent;
        if hit {
            names.push(str_to_chars(refs[k].0.as_str()));
        }
        proof {
            reveal(Seq::filter);
            let sub = refs@.subrange(0, k + 1);
            assert(sub.drop_last() =~= refs@.subrange(0, k as int));
            assert(sub.last() == refs@[k as int]);
            if hit {
                assert(crate::text::views(names@) =~= before.push(refs@[k as int].0@));
                assert(sub.filter(pred) =~= refs@.subrange(0, k as int).filter(pred).push(refs@[k as int]));
            } else {
                assert(crate::text::views(names@) =~= before);
            }
        }
        k += 1;
    }
    proof {
        assert(refs@.subrange(0, refs@.len() as int) =~= refs@);
    }
    let ghost ns = names_at(refs@, parent@);
    if names.len() == 0 {
        return BookmarkPlan { move_bookmark: None, session: SessionChange::Clear, warning: None };
    }
    if names.len() == 1 {
        let n = chars_to_string(names[0].as_slice());
        let s = chars_to_string(names[0].as_slice());
        return BookmarkPlan { move_bookmark: Some(n), session: SessionChange::SetTo(s), warning: None };
    }
    let joined = crate::text::join_texts(names.as_slice(), str_to_chars(", ").as_slice());
    match session_hint {
        Some(hint) => {
            let hc = str_to_chars(hint.as_str());
            let mut found = false;
            let mut j: usize = 0;
            while j < names.len()
                invariant
                    j <= names@.len(),
                    crate::text::views(names@) == ns,
                    hc@ == hint@,
                    found <==> exists|i: int| 0 <= i < j && ns[i] == hint@,
                decreases names@.len() - j,
            {
                if crate::text::text_equal(names[j].as_slice(), hc.as_slice()) {
                    found = true;
                }
                proof {
                    assert(ns[j as int] == names@[j as int]@);
                }
                j += 1;
            }
            if found {
                BookmarkPlan { move_bookmark: Some(hint), session: SessionChange::Keep, warning: None }
            } else {
                let mut w = str_to_chars("Warning: Multiple bookmarks found at parent (");
                crate::text::push_chars(&mut w, joined.as_slice());
                crate::text::push_str(&mut w, "), but none match current session hint (");
                crate::text::push_str(&mut w, hint.as_str());
                crate::text::push_str(&mut w, "). Bookmark left behind.");
                BookmarkPlan { move_bookmark: None, session: SessionChange::Clear, warning: Some(chars_to_string(w.as_slice())) }
            }
        },
        None => {
            let mut w = str_to_chars("Warning: Multiple bookmarks found at parent (");
            crate::text::push_chars(&mut w, joined.as_slice());
            crate::text::push_str(&mut w, "). Please specify which one to move using --branch <name>. Bookmark left behind.");
            BookmarkPlan { move_bookmark: None, session: SessionChange::Keep, warning: Some(chars_to_string(w.as_slice())) }
        },
    }
}

/// Bookmarks slide forward: when one bookmark, and only one, points at the
/// commit a new commit is made on, and none is named explicitly, that
/// bookmark moves to the new commit and becomes the session's.
pub proof fn law_single_bookmark_slides_forward(
    p: BookmarkPlan,
    refs: Seq<(String, crate::hash::Hash)>,
    hint: Option<Seq<char>>,
    parent: Seq<u8>,
    name: Seq<char>,
)
    requires
        bookmarks_follow(p, refs, hint, Some(parent), None),
        names_at(refs, parent) == seq![name],
    ensures
        p.move_bookmark matches Some(m) && m@ == name,
        p.session matches SessionChange::SetTo(s) && s@ == name,
{
    if refs.len() == 0 {
        reveal(Seq::filter);
        assert(names_at(refs, parent).len() == 0);
    }
}

} // verus!
