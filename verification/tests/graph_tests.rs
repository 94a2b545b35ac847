use gik::ancestry::{ancestors, find_lowest_common_ancestor};
use gik::graph::{object_children, MissingWalk, WalkStep};
use gik::models::CommitMeta;

fn h(v: u8) -> gik::hash::Hash {
    gik::hash::Hash([v; 20])
}

/// A small history: 1 <- 2 <- 3, 2 <- 4, (3, 4) <- 5
fn history() -> Vec<(gik::hash::Hash, Vec<gik::hash::Hash>)> {
    vec![(h(2), vec![h(1)]), (h(3), vec![h(2)]), (h(4), vec![h(2)]), (h(5), vec![h(3), h(4)]), (h(1), vec![])]
}

#[test]
fn lca_of_branches() {
    let g = history();
    assert_eq!(find_lowest_common_ancestor(h(3), h(4), &g), Some(h(2)));
    assert_eq!(find_lowest_common_ancestor(h(5), h(1), &g), Some(h(1)));
    assert_eq!(find_lowest_common_ancestor(h(3), h(3), &g), Some(h(3)));
    assert_eq!(find_lowest_common_ancestor(h(3), h(9), &g), None);
}

#[test]
fn lca_is_the_lowest_not_the_nearest_by_breadth() {
    // Both commits have parents [X, L], and L's parent is X: L is the lowest.
    let (x, l, a, b) = (h(1), h(2), h(3), h(4));
    let g = vec![(a, vec![x, l]), (b, vec![x, l]), (l, vec![x])];
    assert_eq!(find_lowest_common_ancestor(a, b, &g), Some(l));
}

#[test]
fn ancestors_include_the_commit_itself() {
    let g = history();
    assert_eq!(ancestors(&g, h(5)), vec![h(5), h(3), h(4), h(2), h(1)]);
    assert_eq!(ancestors(&g, h(9)), vec![h(9)]);
}

#[test]
fn missing_objects_of_a_push() {
    // children: commit 3 -> (tree 30, parent 2); commit 2 -> (tree 20, parent 1); trees point to blobs
    let children = |c: gik::hash::Hash| -> Vec<gik::hash::Hash> {
        match c.0[0] {
            3 => vec![h(30), h(2)],
            2 => vec![h(20), h(1)],
            1 => vec![h(10)],
            30 => vec![h(31), h(21)],
            20 => vec![h(21)],
            _ => vec![],
        }
    };
    let mut w = MissingWalk::new(Some(h(2)), h(3));
    loop {
        match w.next_step() {
            WalkStep::NeedChildren(c) => w.give_children(&children(c)),
            WalkStep::Done => break,
        }
    }
    assert_eq!(w.into_missing(), vec![h(3), h(30), h(31)]);
}

#[test]
fn missing_objects_without_remote() {
    let mut w = MissingWalk::new(None, h(7));
    assert_eq!(w.next_step(), WalkStep::NeedChildren(h(7)));
    w.give_children(&[h(8), h(7)]);
    assert_eq!(w.next_step(), WalkStep::NeedChildren(h(8)));
    w.give_children(&[]);
    assert_eq!(w.next_step(), WalkStep::Done);
    assert_eq!(w.into_missing(), vec![h(7), h(8)]);
}

#[test]
fn children_of_commit_and_tree() {
    let meta = CommitMeta { parent_hashes: vec![h(1), h(2)], tree_hash: h(9), timestamp: 0, author: String::new(), message: String::new() };
    assert_eq!(object_children(Some(&meta), None).unwrap(), vec![h(9), h(1), h(2)]);
    let entries = vec![(0o100644u32, "f".to_string(), h(5))];
    let stored = gik::objects::compress_tree(&entries);
    assert_eq!(object_children(None, Some(&stored)).unwrap(), vec![h(5)]);
    let blob = gik::objects::compress_blob(b"x", 1);
    assert!(object_children(None, Some(&blob)).unwrap().is_empty());
    assert!(object_children(None, None).unwrap().is_empty());
    assert!(object_children(None, Some(b"junk")).is_err());
}
