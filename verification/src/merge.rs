//! Three-way merging: deciding per path what to do with the files of two
//! trees and their common base, and merging two versions of a text line by
//! line against their base.

use vstd::prelude::*;

verus! {

/// What to do with one path when merging "theirs" into "ours".
#[derive(Debug, PartialEq, Eq)]
pub enum MergeAction {
    KeepOurs,
    TakeTheirs(crate::hash::Hash),
    DeleteOurs,
    Merge {
        base: Option<crate::hash::Hash>,
        ours: Option<crate::hash::Hash>,
        theirs: Option<crate::hash::Hash>,
    },
}

/// An optional hash as an optional byte sequence.
pub open spec fn opt_view(h: Option<crate::hash::Hash>) -> Option<Seq<u8>> {
    match h {
        Some(x) => Some(x@),
        None => None,
    }
}

/// The decision for one path, given what the base, our side and their side
/// hold there: equal sides keep ours; if only their side changed, take
/// theirs (or delete, when they removed it); if only ours changed, keep
/// ours; otherwise merge the three versions.
pub open spec fn decides(
    a: MergeAction,
    base: Option<Seq<u8>>,
    ours: Option<Seq<u8>>,
    theirs: Option<Seq<u8>>,
) -> bool {
    if ours == theirs {
        a is KeepOurs
    } else if ours == base {
        match theirs {
            Some(t) => a matches MergeAction::TakeTheirs(h) && h@ == t,
            None => a is DeleteOurs,
        }
    } else if theirs == base {
        a is KeepOurs
    } else {
        a matches MergeAction::Merge { base: b, ours: o, theirs: t } && opt_view(b) == base
            && opt_view(o) == ours && opt_view(t) == theirs
    }
}

/// The hash that a list of (path, hash) entries gives `path`: the first
/// entry's with that path.
pub open spec fn lookup(m: Seq<(String, crate::hash::Hash)>, path: Seq<char>) -> Option<Seq<u8>>
    decreases m.len(),
{
    if m.len() == 0 {
        None
    } else if m[0].0@ == path {
        Some(m[0].1@)
    } else {
        lookup(m.drop_first(), path)
    }
}

/// No path occurs twice, as in a map.
pub open spec fn distinct_keys<T>(m: Seq<(String, T)>) -> bool {
    forall|i: int, j: int| 0 <= i < j < m.len() ==> m[i].0@ != m[j].0@
}

/// Whether some entry has the path.
pub open spec fn has_key<T>(m: Seq<(String, T)>, path: Seq<char>) -> bool {
    exists|i: int| 0 <= i < m.len() && m[i].0@ == path
}

pub proof fn lemma_lookup(m: Seq<(String, crate::hash::Hash)>, path: Seq<char>)
    requires
        distinct_keys(m),
    ensures
        lookup(m, path) is Some <==> has_key(m, path),
        forall|i: int| 0 <= i < m.len() && m[i].0@ == path ==> lookup(m, path) == Some(m[i].1@),
    decreases m.len(),
{
    if m.len() > 0 {
        let t = m.drop_first();
        assert(distinct_keys(t)) by {
            assert forall|i: int, j: int| 0 <= i < j < t.len() implies t[i].0@ != t[j].0@ by {
                assert(t[i] == m[i + 1] && t[j] == m[j + 1]);
            }
        }
        lemma_lookup(t, path);
        if m[0].0@ != path {
            assert(has_key(m, path) ==> has_key(t, path)) by {
                if has_key(m, path) {
                    let i = choose|i: int| 0 <= i < m.len() && m[i].0@ == path;
                    assert(t[i - 1] == m[i]);
                }
            }
            assert(has_key(t, path) ==> has_key(m, path)) by {
                if has_key(t, path) {
                    let i = choose|i: int| 0 <= i < t.len() && t[i].0@ == path;
                    assert(t[i] == m[i + 1]);
                }
            }
            assert forall|i: int| 0 <= i < m.len() && m[i].0@ == path implies lookup(m, path) == Some(m[i].1@) by {
                assert(t[i - 1] == m[i]);
            }
        } else {
            assert(m[0].0@ == path);
        }
    }
}

/// Finds the hash of `path`.
pub fn find_entry(m: &[(String, crate::hash::Hash)], path: &String) -> (r: Option<crate::hash::Hash>)
    ensures
        opt_view(r) == lookup(m@, path@),
{
    let mut i: usize = 0;
    assert(m@.subrange(0, m@.len() as int) =~= m@);
    while i < m.len()
        invariant
            i <= m@.len(),
            lookup(m@, path@) == lookup(m@.subrange(i as int, m@.len() as int), path@),
        decreases m@.len() - i,
    {
        assert(m@.subrange(i as int, m@.len() as int).drop_first() =~= m@.subrange(i + 1, m@.len() as int));
        if m[i].0 == *path {
            return Some(m[i].1);
        }
        i += 1;
    }
    None
}

fn same(a: Option<crate::hash::Hash>, b: Option<crate::hash::Hash>) -> (r: bool)
    ensures
        r == (opt_view(a) == opt_view(b)),
{
    match (a, b) {
        (Some(x), Some(y)) => x == y,
        (None, None) => true,
        _ => false,
    }
}

/// Decides what to do with one path.
pub fn decide(
    base_h: Option<crate::hash::Hash>,
    ours_h: Option<crate::hash::Hash>,
    theirs_h: Option<crate::hash::Hash>,
) -> (a: MergeAction)
    ensures
        decides(a, opt_view(base_h), opt_view(ours_h), opt_view(theirs_h)),
{
    if same(ours_h, theirs_h) {
        return MergeAction::KeepOurs;
    }
    if same(ours_h, base_h) {
        if let Some(th) = theirs_h {
            return MergeAction::TakeTheirs(th);
        } else {
            return MergeAction::DeleteOurs;
        }
    }
    if same(theirs_h, base_h) {
        return MergeAction::KeepOurs;
    }
    MergeAction::Merge { base: base_h, ours: ours_h, theirs: theirs_h }
}

/// What the result of `analyze_tree_maps` says: one action per path found in
/// any of the three maps and no other, each the decision for that path.
pub open spec fn analyzes(
    actions: Seq<(String, MergeAction)>,
    base: Seq<(String, crate::hash::Hash)>,
    ours: Seq<(String, crate::hash::Hash)>,
    theirs: Seq<(String, crate::hash::Hash)>,
) -> bool {
    &&& distinct_keys(actions)
    &&& forall|i: int| 0 <= i < actions.len() ==> (has_key(base, #[trigger] actions[i].0@)
        || has_key(ours, actions[i].0@) || has_key(theirs, actions[i].0@))
    &&& forall|i: int| 0 <= i < actions.len() ==> decides(
        #[trigger] actions[i].1,
        lookup(base, actions[i].0@),
        lookup(ours, actions[i].0@),
        lookup(theirs, actions[i].0@),
    )
    &&& forall|p: Seq<char>| has_key(base, p) || has_key(ours, p) || has_key(theirs, p) ==> has_key(actions, p)
}

} // verus!

verus! {

/// Whether one of the first `n` entries has the path.
pub open spec fn has_key_before<T>(m: Seq<(String, T)>, n: int, path: Seq<char>) -> bool {
    exists|j: int| 0 <= j < n && j < m.len() && m[j].0@ == path
}

/// Decides, for every path of the three maps, what the merge does with it.
/// Each map holds a path at most once, as the maps of tree files do.
pub fn analyze_tree_maps(
    base_map: &[(String, crate::hash::Hash)],
    ours_map: &[(String, crate::hash::Hash)],
    theirs_map: &[(String, crate::hash::Hash)],
) -> (actions: Vec<(String, MergeAction)>)
    requires
        distinct_keys(base_map@),
        distinct_keys(ours_map@),
        distinct_keys(theirs_map@),
    ensures
        analyzes(actions@, base_map@, ours_map@, theirs_map@),
{
    let mut actions: Vec<(String, MergeAction)> = Vec::new();
    let ghost b = base_map@;
    let ghost o = ours_map@;
    let ghost t = theirs_map@;
    let mut k: usize = 0;
    while k < base_map.len()
        invariant
            k <= b.len(),
            b == base_map@,
            o == ours_map@,
            t == theirs_map@,
            distinct_keys(b),
            actions@.len() == k,
            forall|i: int| 0 <= i < k ==> (#[trigger] actions@[i]).0@ == b[i].0@,
            forall|i: int| 0 <= i < actions@.len() ==> decides(
                #[trigger] actions@[i].1,
                lookup(b, actions@[i].0@),
                lookup(o, actions@[i].0@),
                lookup(t, actions@[i].0@),
            ),
        decreases b.len() - k,
    {
        let path = base_map[k].0.clone();
        let bh = find_entry(base_map, &path);
        let oh = find_entry(ours_map, &path);
        let th = find_entry(theirs_map, &path);
        let a = decide(bh, oh, th);
        actions.push((path, a));
        k += 1;
    }
    proof {
        assert forall|i: int, j: int| 0 <= i < j < actions@.len() implies actions@[i].0@ != actions@[j].0@ by {
            assert(actions@[i].0@ == b[i].0@ && actions@[j].0@ == b[j].0@);
        }
        assert forall|p: Seq<char>| has_key(b, p) implies has_key(actions@, p) by {
            let i = choose|i: int| 0 <= i < b.len() && b[i].0@ == p;
            assert(actions@[i].0@ == p);
        }
        assert forall|i: int| 0 <= i < actions@.len() implies has_key(b, #[trigger] actions@[i].0@) by {
            assert(b[i].0@ == actions@[i].0@);
        }
    }
    let mut k: usize = 0;
    while k < ours_map.len()
        invariant
            k <= o.len(),
            b == base_map@,
            o == ours_map@,
            t == theirs_map@,
            distinct_keys(b),
            distinct_keys(o),
            distinct_keys(actions@),
            forall|i: int| 0 <= i < actions@.len() ==> has_key(b, #[trigger] actions@[i].0@)
                || has_key_before(o, k as int, actions@[i].0@),
            forall|i: int| 0 <= i < actions@.len() ==> decides(
                #[trigger] actions@[i].1,
                lookup(b, actions@[i].0@),
                lookup(o, actions@[i].0@),
                lookup(t, actions@[i].0@),
            ),
            forall|p: Seq<char>| has_key(b, p) ==> has_key(actions@, p),
            forall|j: int| 0 <= j < k ==> has_key(actions@, #[trigger] o[j].0@),
        decreases o.len() - k,
    {
        let path = ours_map[k].0.clone();
        let bh = find_entry(base_map, &path);
        proof {
            lemma_lookup(b, path@);
        }
        if bh.is_none() {
            let oh = find_entry(ours_map, &path);
            let th = find_entry(theirs_map, &path);
            let a = decide(None, oh, th);
            let ghost before = actions@;
            actions.push((path, a));
            proof {
                assert(!has_key(b, path@));
                assert forall|i: int| 0 <= i < before.len() implies before[i].0@ != path@ by {
                    if has_key_before(o, k as int, before[i].0@) {
                        let j = choose|j: int| 0 <= j < k && j < o.len() && o[j].0@ == before[i].0@;
                        assert(o[j].0@ != o[k as int].0@);
                    }
                }
                assert forall|i: int, j: int| 0 <= i < j < actions@.len() implies actions@[i].0@ != actions@[j].0@ by {
                    if j < before.len() {
                        assert(actions@[i] == before[i] && actions@[j] == before[j]);
                    } else {
                        assert(actions@[i] == before[i]);
                    }
                }
                assert forall|i: int| 0 <= i < actions@.len() implies has_key(b, #[trigger] actions@[i].0@)
                    || has_key_before(o, k + 1, actions@[i].0@) by {
                    if i < before.len() {
                        assert(actions@[i] == before[i]);
                        if has_key_before(o, k as int, before[i].0@) {
                            let j = choose|j: int| 0 <= j < k && j < o.len() && o[j].0@ == before[i].0@;
                            assert(has_key_before(o, k + 1, actions@[i].0@));
                        }
                    } else {
                        assert(o[k as int].0@ == actions@[i].0@);
                        assert(has_key_before(o, k + 1, actions@[i].0@));
                    }
                }
                assert forall|i: int| 0 <= i < actions@.len() implies decides(
                    #[trigger] actions@[i].1,
                    lookup(b, actions@[i].0@),
                    lookup(o, actions@[i].0@),
                    lookup(t, actions@[i].0@),
                ) by {
                    if i < before.len() {
                        assert(actions@[i] == before[i]);
                    }
                }
                assert forall|p: Seq<char>| has_key(b, p) implies has_key(actions@, p) by {
                    let i = choose|i: int| 0 <= i < before.len() && before[i].0@ == p;
                    assert(actions@[i] == before[i]);
                }
                assert forall|j: int| 0 <= j < k + 1 implies has_key(actions@, #[trigger] o[j].0@) by {
                    if j < k {
                        let i = choose|i: int| 0 <= i < before.len() && before[i].0@ == o[j].0@;
                        assert(actions@[i] == before[i]);
                    } else {
                        assert(actions@[before.len() as int].0@ == o[j].0@);
                    }
                }
            }
        } else {
            proof {
                assert(has_key(b, path@));
                assert forall|i: int| 0 <= i < actions@.len() implies has_key(b, #[trigger] actions@[i].0@)
                    || has_key_before(o, k + 1, actions@[i].0@) by {
                    if has_key_before(o, k as int, actions@[i].0@) {
                        let j = choose|j: int| 0 <= j < k && j < o.len() && o[j].0@ == actions@[i].0@;
                        assert(has_key_before(o, k + 1, actions@[i].0@));
                    }
                }
            }
        }
        k += 1;
    }
    let mut k: usize = 0;
    while k < theirs_map.len()
        invariant
            k <= t.len(),
            b == base_map@,
            o == ours_map@,
            t == theirs_map@,
            distinct_keys(b),
            distinct_keys(o),
            distinct_keys(t),
            distinct_keys(actions@),
            forall|i: int| 0 <= i < actions@.len() ==> has_key(b, #[trigger] actions@[i].0@)
                || has_key(o, actions@[i].0@) || has_key_before(t, k as int, actions@[i].0@),
            forall|i: int| 0 <= i < actions@.len() ==> decides(
                #[trigger] actions@[i].1,
                lookup(b, actions@[i].0@),
                lookup(o, actions@[i].0@),
                lookup(t, actions@[i].0@),
            ),
            forall|p: Seq<char>| has_key(b, p) || has_key(o, p) ==> has_key(actions@, p),
            forall|j: int| 0 <= j < k ==> has_key(actions@, #[trigger] t[j].0@),
        decreases t.len() - k,
    {
        let path = theirs_map[k].0.clone();
        let bh = find_entry(base_map, &path);
        let oh = find_entry(ours_map, &path);
        proof {
            lemma_lookup(b, path@);
            lemma_lookup(o, path@);
        }
        if bh.is_none() && oh.is_none() {
            let th = find_entry(theirs_map, &path);
            let a = decide(None, None, th);
            let ghost before = actions@;
            actions.push((path, a));
            proof {
                assert forall|i: int| 0 <= i < before.len() implies before[i].0@ != path@ by {
                    if has_key_before(t, k as int, before[i].0@) {
                        let j = choose|j: int| 0 <= j < k && j < t.len() && t[j].0@ == before[i].0@;
                        assert(t[j].0@ != t[k as int].0@);
                    }
                }
                assert forall|i: int, j: int| 0 <= i < j < actions@.len() implies actions@[i].0@ != actions@[j].0@ by {
                    if j < before.len() {
                        assert(actions@[i] == before[i] && actions@[j] == before[j]);
                    } else {
                        assert(actions@[i] == before[i]);
                    }
                }
                assert forall|i: int| 0 <= i < actions@.len() implies has_key(b, #[trigger] actions@[i].0@)
                    || has_key(o, actions@[i].0@) || has_key_before(t, k + 1, actions@[i].0@) by {
                    if i < before.len() {
                        assert(actions@[i] == before[i]);
                        if has_key_before(t, k as int, before[i].0@) {
                            let j = choose|j: int| 0 <= j < k && j < t.len() && t[j].0@ == before[i].0@;
                            assert(has_key_before(t, k + 1, actions@[i].0@));
                        }
                    } else {
                        assert(t[k as int].0@ == actions@[i].0@);
                        assert(has_key_before(t, k + 1, actions@[i].0@));
                    }
                }
                assert forall|i: int| 0 <= i < actions@.len() implies decides(
                    #[trigger] actions@[i].1,
                    lookup(b, actions@[i].0@),
                    lookup(o, actions@[i].0@),
                    lookup(t, actions@[i].0@),
                ) by {
                    if i < before.len() {
                        assert(actions@[i] == before[i]);
                    }
                }
                assert forall|p: Seq<char>| has_key(b, p) || has_key(o, p) implies has_key(actions@, p) by {
                    let i = choose|i: int| 0 <= i < before.len() && before[i].0@ == p;
                    assert(actions@[i] == before[i]);
                }
                assert forall|j: int| 0 <= j < k + 1 implies has_key(actions@, #[trigger] t[j].0@) by {
                    if j < k {
                        let i = choose|i: int| 0 <= i < before.len() && before[i].0@ == t[j].0@;
                        assert(actions@[i] == before[i]);
                    } else {
                        assert(actions@[before.len() as int].0@ == t[j].0@);
                    }
                }
            }
        } else {
            proof {
                assert(has_key(b, path@) || has_key(o, path@));
                assert forall|i: int| 0 <= i < actions@.len() implies has_key(b, #[trigger] actions@[i].0@)
                    || has_key(o, actions@[i].0@) || has_key_before(t, k + 1, actions@[i].0@) by {
                    if has_key_before(t, k as int, actions@[i].0@) {
                        let j = choose|j: int| 0 <= j < k && j < t.len() && t[j].0@ == actions@[i].0@;
                        assert(has_key_before(t, k + 1, actions@[i].0@));
                    }
                }
            }
        }
        k += 1;
    }
    proof {
        assert forall|i: int| 0 <= i < actions@.len() implies (has_key(b, #[trigger] actions@[i].0@)
            || has_key(o, actions@[i].0@) || has_key(t, actions@[i].0@)) by {
            if has_key_before(t, k as int, actions@[i].0@) {
                let j = choose|j: int| 0 <= j < k && j < t.len() && t[j].0@ == actions@[i].0@;
            }
        }
        assert forall|p: Seq<char>| has_key(b, p) || has_key(o, p) || has_key(t, p) implies has_key(actions@, p) by {
            if has_key(t, p) && !has_key(b, p) && !has_key(o, p) {
                let j = choose|j: int| 0 <= j < t.len() && t[j].0@ == p;
                assert(has_key(actions@, t[j].0@));
            }
        }
    }
    actions
}

} // verus!
