//! Ancestry in the commit graph: the ancestors of a commit, and the lowest
//! common ancestors of two commits.

use vstd::prelude::*;
use crate::objects::hash_views;
use crate::undo::{distinct_hashes, has_hash};
use crate::graph::contains_hash;

verus! {

/// A commit graph as plain values: each commit with its parents.
pub open spec fn graph_view(g: Seq<(crate::hash::Hash, Vec<crate::hash::Hash>)>) -> Seq<(Seq<u8>, Seq<Seq<u8>>)> {
    g.map_values(|e: (crate::hash::Hash, Vec<crate::hash::Hash>)| (e.0@, hash_views(e.1@)))
}

/// The parents of `x`: those of its first entry, none when it has no entry.
pub open spec fn parents_in(g: Seq<(Seq<u8>, Seq<Seq<u8>>)>, x: Seq<u8>) -> Seq<Seq<u8>>
    decreases g.len(),
{
    if g.len() == 0 {
        Seq::empty()
    } else if g[0].0 == x {
        g[0].1
    } else {
        parents_in(g.drop_first(), x)
    }
}

/// The commits reached from `x` in at most `k` steps from a commit to a
/// parent.
pub open spec fn reach(g: Seq<(Seq<u8>, Seq<Seq<u8>>)>, x: Seq<u8>, k: nat) -> Set<Seq<u8>>
    decreases k,
{
    if k == 0 {
        set![x]
    } else {
        let r = reach(g, x, (k - 1) as nat);
        r + Set::new(|z: Seq<u8>| exists|y: Seq<u8>| r.contains(y) && parents_in(g, y).contains(z))
    }
}

/// `a` is an ancestor of `x`: `x` itself, or reached through parents.
pub open spec fn is_ancestor(g: Seq<(Seq<u8>, Seq<Seq<u8>>)>, a: Seq<u8>, x: Seq<u8>) -> bool {
    exists|k: nat| #[trigger] reach(g, x, k).contains(a)
}

/// `a` is an ancestor of both commits.
pub open spec fn common_ancestor(g: Seq<(Seq<u8>, Seq<Seq<u8>>)>, a: Seq<u8>, h1: Seq<u8>, h2: Seq<u8>) -> bool {
    is_ancestor(g, a, h1) && is_ancestor(g, a, h2)
}

/// `a` is a lowest common ancestor: a common ancestor that is not an
/// ancestor of any other common ancestor.
pub open spec fn lowest_common_ancestor(g: Seq<(Seq<u8>, Seq<Seq<u8>>)>, a: Seq<u8>, h1: Seq<u8>, h2: Seq<u8>) -> bool {
    &&& common_ancestor(g, a, h1, h2)
    &&& forall|c: Seq<u8>| #[trigger] common_ancestor(g, c, h1, h2) && c != a ==> !is_ancestor(g, a, c)
}

/// Every parent named anywhere in the graph.
pub open spec fn all_parents(g: Seq<(Seq<u8>, Seq<Seq<u8>>)>) -> Seq<Seq<u8>>
    decreases g.len(),
{
    if g.len() == 0 {
        Seq::empty()
    } else {
        g[0].1 + all_parents(g.drop_first())
    }
}

proof fn lemma_parent_listed(g: Seq<(Seq<u8>, Seq<Seq<u8>>)>, y: Seq<u8>, p: Seq<u8>)
    requires
        parents_in(g, y).contains(p),
    ensures
        all_parents(g).contains(p),
    decreases g.len(),
{
    if g.len() > 0 {
        if g[0].0 == y {
            let i = choose|i: int| 0 <= i < g[0].1.len() && g[0].1[i] == p;
            assert((g[0].1 + all_parents(g.drop_first()))[i] == p);
        } else {
            lemma_parent_listed(g.drop_first(), y, p);
            let i = choose|i: int| 0 <= i < all_parents(g.drop_first()).len() && all_parents(g.drop_first())[i] == p;
            assert((g[0].1 + all_parents(g.drop_first()))[g[0].1.len() + i] == p);
        }
    }
}

proof fn lemma_self_ancestor(g: Seq<(Seq<u8>, Seq<Seq<u8>>)>, x: Seq<u8>)
    ensures
        is_ancestor(g, x, x),
{
    assert(reach(g, x, 0).contains(x));
}

/// A parent of an ancestor is an ancestor.
proof fn lemma_parent_step(g: Seq<(Seq<u8>, Seq<Seq<u8>>)>, y: Seq<u8>, p: Seq<u8>, x: Seq<u8>)
    requires
        is_ancestor(g, y, x),
        parents_in(g, y).contains(p),
    ensures
        is_ancestor(g, p, x),
{
    let k = choose|k: nat| #[trigger] reach(g, x, k).contains(y);
    assert(reach(g, x, k + 1).contains(p));
}

/// An ancestor of an ancestor is an ancestor.
proof fn lemma_reach_trans(g: Seq<(Seq<u8>, Seq<Seq<u8>>)>, x: Seq<u8>, c: Seq<u8>, k2: nat, k1: nat)
    requires
        reach(g, x, k2).contains(c),
    ensures
        forall|z: Seq<u8>| reach(g, c, k1).contains(z) ==> #[trigger] reach(g, x, k2 + k1).contains(z),
    decreases k1,
{
    if k1 > 0 {
        lemma_reach_trans(g, x, c, k2, (k1 - 1) as nat);
        assert forall|z: Seq<u8>| reach(g, c, k1).contains(z) implies #[trigger] reach(g, x, k2 + k1).contains(z) by {
            let k1m = (k1 - 1) as nat;
            let r = reach(g, c, k1m);
            assert((k2 + k1 - 1) as nat == k2 + k1m);
            if r.contains(z) {
                assert(reach(g, x, k2 + k1m).contains(z));
            } else {
                let y = choose|y: Seq<u8>| r.contains(y) && parents_in(g, y).contains(z);
                assert(reach(g, x, k2 + k1m).contains(y));
            }
        }
    }
}

proof fn lemma_ancestor_trans(g: Seq<(Seq<u8>, Seq<Seq<u8>>)>, a: Seq<u8>, c: Seq<u8>, x: Seq<u8>)
    requires
        is_ancestor(g, a, c),
        is_ancestor(g, c, x),
    ensures
        is_ancestor(g, a, x),
{
    let k1 = choose|k: nat| #[trigger] reach(g, c, k).contains(a);
    let k2 = choose|k: nat| #[trigger] reach(g, x, k).contains(c);
    lemma_reach_trans(g, x, c, k2, k1);
    assert(reach(g, x, k2 + k1).contains(a));
}

/// When `a` is a proper ancestor of `c`, some ancestor `d` of `c` other than
/// `a` has `a` as a parent.
proof fn lemma_last_step(g: Seq<(Seq<u8>, Seq<Seq<u8>>)>, a: Seq<u8>, c: Seq<u8>, k: nat) -> (d: Seq<u8>)
    requires
        reach(g, c, k).contains(a),
        a != c,
    ensures
        is_ancestor(g, d, c),
        d != a,
        parents_in(g, d).contains(a),
    decreases k,
{
    if k == 0 {
        assert(false);
        c
    } else {
        let r = reach(g, c, (k - 1) as nat);
        if r.contains(a) {
            lemma_last_step(g, a, c, (k - 1) as nat)
        } else {
            let y = choose|y: Seq<u8>| r.contains(y) && parents_in(g, y).contains(a);
            assert(reach(g, c, (k - 1) as nat).contains(y));
            y
        }
    }
}

/// A set that holds `x` and the parents of each of its members holds every
/// ancestor of `x`.
proof fn lemma_closed_holds_ancestors(g: Seq<(Seq<u8>, Seq<Seq<u8>>)>, x: Seq<u8>, s: Set<Seq<u8>>, k: nat)
    requires
        s.contains(x),
        forall|y: Seq<u8>, p: Seq<u8>| s.contains(y) && #[trigger] parents_in(g, y).contains(p) ==> s.contains(p),
    ensures
        forall|z: Seq<u8>| #[trigger] reach(g, x, k).contains(z) ==> s.contains(z),
    decreases k,
{
    if k > 0 {
        lemma_closed_holds_ancestors(g, x, s, (k - 1) as nat);
        assert forall|z: Seq<u8>| #[trigger] reach(g, x, k).contains(z) implies s.contains(z) by {
            let r = reach(g, x, (k - 1) as nat);
            if !r.contains(z) {
                let y = choose|y: Seq<u8>| r.contains(y) && parents_in(g, y).contains(z);
                assert(s.contains(y));
            }
        }
    }
}

/// Distinct hashes, each among `u`, are no more than `u`.
proof fn lemma_distinct_bound(v: Seq<crate::hash::Hash>, u: Seq<Seq<u8>>)
    requires
        distinct_hashes(v),
        forall|i: int| 0 <= i < v.len() ==> u.contains(#[trigger] v[i]@),
    ensures
        v.len() <= u.len(),
{
    let hv = hash_views(v);
    assert(hv.no_duplicates()) by {
        assert forall|i: int, j: int| 0 <= i < hv.len() && 0 <= j < hv.len() && i != j implies hv[i] != hv[j] by {
            if i < j {
                assert(v[i]@ != v[j]@);
            } else {
                assert(v[j]@ != v[i]@);
            }
        }
    }
    hv.unique_seq_to_set();
    assert(hv.to_set().subset_of(u.to_set())) by {
        assert forall|h: Seq<u8>| hv.to_set().contains(h) implies u.to_set().contains(h) by {
            let i = choose|i: int| 0 <= i < hv.len() && hv[i] == h;
            assert(u.contains(v[i]@));
        }
    }
    vstd::seq_lib::seq_to_set_is_finite(u);
    vstd::set_lib::lemma_len_subset(hv.to_set(), u.to_set());
    u.lemma_cardinality_of_set();
}

/// The parents of `x` in the graph.
pub fn parents_of(g: &[(crate::hash::Hash, Vec<crate::hash::Hash>)], x: crate::hash::Hash) -> (r: Vec<crate::hash::Hash>)
    ensures
        hash_views(r@) == parents_in(graph_view(g@), x@),
{
    let ghost gv = graph_view(g@);
    let mut i: usize = 0;
    assert(gv.skip(0) =~= gv);
    while i < g.len()
        invariant
            i <= g@.len(),
            gv == graph_view(g@),
            parents_in(gv, x@) == parents_in(gv.skip(i as int), x@),
        decreases g@.len() - i,
    {
        let ghost rest = gv.skip(i as int);
        assert(rest[0] == (g@[i as int].0@, hash_views(g@[i as int].1@)));
        assert(rest.drop_first() =~= gv.skip(i + 1));
        if g[i].0 == x {
            let ps = &g[i].1;
            let mut out: Vec<crate::hash::Hash> = Vec::new();
            let mut k: usize = 0;
            while k < ps.len()
                invariant
                    k <= ps@.len(),
                    hash_views(out@) == hash_views(ps@).subrange(0, k as int),
                decreases ps@.len() - k,
            {
                let ghost before = out@;
                out.push(ps[k]);
                assert(out@ == before.push(ps@[k as int]));
                assert(hash_views(out@) =~= hash_views(before).push(ps@[k as int]@));
                assert(hash_views(ps@)[k as int] == ps@[k as int]@);
                assert(hash_views(ps@).subrange(0, k + 1) =~= hash_views(ps@).subrange(0, k as int).push(ps@[k as int]@));
                k += 1;
            }
            assert(hash_views(ps@).subrange(0, ps@.len() as int) =~= hash_views(ps@));
            return out;
        }
        i += 1;
    }
    assert(gv.skip(i as int).len() == 0);
    Vec::new()
}

/// The ancestors of `x` (itself included), each once, in breadth-first
/// order.
pub fn ancestors(g: &[(crate::hash::Hash, Vec<crate::hash::Hash>)], x: crate::hash::Hash) -> (r: Vec<crate::hash::Hash>)
    ensures
        distinct_hashes(r@),
        forall|a: Seq<u8>| has_hash(r@, a) <==> is_ancestor(graph_view(g@), a, x@),
{
    let ghost gv = graph_view(g@);
    let ghost u = all_parents(gv).push(x@);
    let mut visited: Vec<crate::hash::Hash> = Vec::new();
    visited.push(x);
    proof {
        lemma_self_ancestor(gv, x@);
        assert(visited@[0]@ == x@);
        assert(u[u.len() - 1] == x@);
    }
    let mut head: usize = 0;
    while head < visited.len()
        invariant
            gv == graph_view(g@),
            u == all_parents(gv).push(x@),
            head <= visited@.len(),
            visited@.len() >= 1,
            visited@[0]@ == x@,
            distinct_hashes(visited@),
            forall|i: int| 0 <= i < visited@.len() ==> is_ancestor(gv, #[trigger] visited@[i]@, x@),
            forall|i: int| 0 <= i < visited@.len() ==> u.contains(#[trigger] visited@[i]@),
            forall|i: int, p: Seq<u8>| 0 <= i < head && #[trigger] parents_in(gv, visited@[i]@).contains(p)
                ==> has_hash(visited@, p),
        decreases u.len() - visited@.len(), visited@.len() - head,
    {
        proof {
            lemma_distinct_bound(visited@, u);
        }
        let y = visited[head];
        let ps = parents_of(g, y);
        let ghost len0 = visited@.len();
        let ghost v0 = visited@;
        let mut i: usize = 0;
        while i < ps.len()
            invariant
                gv == graph_view(g@),
                u == all_parents(gv).push(x@),
                head < len0 <= visited@.len(),
                y == visited@[head as int],
                hash_views(ps@) == parents_in(gv, y@),
                i <= ps@.len(),
                visited@.subrange(0, len0 as int) == v0,
                visited@[0]@ == x@,
                distinct_hashes(visited@),
                is_ancestor(gv, y@, x@),
                forall|j: int| 0 <= j < visited@.len() ==> is_ancestor(gv, #[trigger] visited@[j]@, x@),
                forall|j: int| 0 <= j < visited@.len() ==> u.contains(#[trigger] visited@[j]@),
                forall|j: int| 0 <= j < i ==> has_hash(visited@, #[trigger] ps@[j]@),
            decreases ps@.len() - i,
        {
            let p = ps[i];
            proof {
                assert(hash_views(ps@)[i as int] == p@);
                assert(parents_in(gv, y@).contains(p@));
            }
            if !contains_hash(&visited, p) {
                proof {
                    lemma_parent_step(gv, y@, p@, x@);
                    lemma_parent_listed(gv, y@, p@);
                    let k = choose|k: int| 0 <= k < all_parents(gv).len() && all_parents(gv)[k] == p@;
                    assert(u[k] == p@);
                }
                let ghost before = visited@;
                visited.push(p);
                proof {
                    assert(visited@[visited@.len() - 1] == p);
                    assert forall|a: int, b: int| 0 <= a < b < visited@.len() implies (#[trigger] visited@[a])@ != (#[trigger] visited@[b])@ by {
                        if b < before.len() {
                            assert(visited@[a] == before[a] && visited@[b] == before[b]);
                        } else {
                            assert(visited@[a] == before[a]);
                        }
                    }
                    assert forall|j: int| 0 <= j <= i implies has_hash(visited@, #[trigger] ps@[j]@) by {
                        if j < i {
                            let w = choose|w: int| 0 <= w < before.len() && (#[trigger] before[w])@ == ps@[j]@;
                            assert(visited@[w] == before[w]);
                        } else {
                            assert(visited@[visited@.len() - 1]@ == ps@[j]@);
                        }
                    }
                    assert(visited@.subrange(0, len0 as int) =~= v0);
                }
            }
            i += 1;
        }
        proof {
            assert forall|j: int, p: Seq<u8>| 0 <= j < head + 1 && #[trigger] parents_in(gv, visited@[j]@).contains(p)
                implies has_hash(visited@, p) by {
                assert(visited@[j] == v0[j]);
                if j < head {
                    assert(parents_in(gv, v0[j]@).contains(p));
                    let w = choose|w: int| 0 <= w < v0.len() && (#[trigger] v0[w])@ == p;
                    assert(visited@[w] == v0[w]);
                } else {
                    let w = choose|w: int| 0 <= w < hash_views(ps@).len() && hash_views(ps@)[w] == p;
                    assert(hash_views(ps@)[w] == ps@[w]@);
                }
            }
            lemma_distinct_bound(visited@, u);
        }
        head += 1;
    }
    proof {
        let s = Set::new(|h: Seq<u8>| has_hash(visited@, h));
        assert(s.contains(x@));
        assert forall|y: Seq<u8>, p: Seq<u8>| s.contains(y) && #[trigger] parents_in(gv, y).contains(p) implies s.contains(p) by {
            let w = choose|w: int| 0 <= w < visited@.len() && (#[trigger] visited@[w])@ == y;
            assert(parents_in(gv, visited@[w]@).contains(p));
        }
        assert forall|a: Seq<u8>| has_hash(visited@, a) <==> is_ancestor(gv, a, x@) by {
            if has_hash(visited@, a) {
                let w = choose|w: int| 0 <= w < visited@.len() && (#[trigger] visited@[w])@ == a;
                assert(is_ancestor(gv, visited@[w]@, x@));
            }
            if is_ancestor(gv, a, x@) {
                let k = choose|k: nat| #[trigger] reach(gv, x@, k).contains(a);
                lemma_closed_holds_ancestors(gv, x@, s, k);
                assert(s.contains(a));
            }
        }
    }
    visited
}

/// `x` is the parent of a common ancestor other than itself.
pub open spec fn is_lowered(g: Seq<(Seq<u8>, Seq<Seq<u8>>)>, common: Seq<crate::hash::Hash>, x: Seq<u8>) -> bool {
    exists|j: int| 0 <= j < common.len() && common[j]@ != x && parents_in(g, common[j]@).contains(x)
}

/// A lowest common ancestor of two commits in the graph: a commit that is
/// an ancestor of both (each commit is its own ancestor) and not an ancestor
/// of any other common ancestor. Two equal hashes are their own answer.
/// `None` means no common ancestor is lowest, which in a graph without
/// cycles means the two have no common ancestor at all.
pub fn find_lowest_common_ancestor(hash1: crate::hash::Hash, hash2: crate::hash::Hash, graph: &[(crate::hash::Hash, Vec<crate::hash::Hash>)]) -> (r: Option<crate::hash::Hash>)
    ensures
        hash1@ == hash2@ ==> r == Some(hash1),
        hash1@ != hash2@ ==> match r {
            Some(a) => lowest_common_ancestor(graph_view(graph@), a@, hash1@, hash2@),
            None => forall|a: Seq<u8>| !lowest_common_ancestor(graph_view(graph@), a, hash1@, hash2@),
        },
{
    if hash1 == hash2 {
        return Some(hash1);
    }
    let ghost gv = graph_view(graph@);
    let a1 = ancestors(graph, hash1);
    let a2 = ancestors(graph, hash2);
    // The common ancestors.
    let mut common: Vec<crate::hash::Hash> = Vec::new();
    let mut i: usize = 0;
    while i < a1.len()
        invariant
            i <= a1@.len(),
            gv == graph_view(graph@),
            forall|a: Seq<u8>| has_hash(a1@, a) <==> is_ancestor(gv, a, hash1@),
            forall|a: Seq<u8>| has_hash(a2@, a) <==> is_ancestor(gv, a, hash2@),
            forall|j: int| 0 <= j < common@.len() ==> common_ancestor(gv, #[trigger] common@[j]@, hash1@, hash2@),
            forall|j: int| 0 <= j < i && common_ancestor(gv, #[trigger] a1@[j]@, hash1@, hash2@) ==> has_hash(common@, a1@[j]@),
        decreases a1@.len() - i,
    {
        let c = a1[i];
        proof {
            assert(has_hash(a1@, c@));
        }
        if contains_hash(&a2, c) {
            let ghost before = common@;
            common.push(c);
            proof {
                assert forall|j: int| 0 <= j <= i && common_ancestor(gv, #[trigger] a1@[j]@, hash1@, hash2@) implies has_hash(common@, a1@[j]@) by {
                    if j < i {
                        let w = choose|w: int| 0 <= w < before.len() && (#[trigger] before[w])@ == a1@[j]@;
                        assert(common@[w] == before[w]);
                    } else {
                        assert(common@[common@.len() - 1] == c);
                    }
                }
            }
        } else {
            proof {
                assert(!is_ancestor(gv, c@, hash2@));
            }
        }
        i += 1;
    }
    proof {
        assert forall|a: Seq<u8>| common_ancestor(gv, a, hash1@, hash2@) implies has_hash(common@, a) by {
            assert(has_hash(a1@, a));
            let w = choose|w: int| 0 <= w < a1@.len() && (#[trigger] a1@[w])@ == a;
            assert(common_ancestor(gv, a1@[w]@, hash1@, hash2@));
        }
    }
    // The common ancestors that are a parent of another common ancestor.
    let mut lowered: Vec<crate::hash::Hash> = Vec::new();
    let mut k: usize = 0;
    while k < common.len()
        invariant
            k <= common@.len(),
            gv == graph_view(graph@),
            forall|j: int| 0 <= j < common@.len() ==> common_ancestor(gv, #[trigger] common@[j]@, hash1@, hash2@),
            forall|l: int| 0 <= l < lowered@.len() ==> is_lowered(gv, common@, #[trigger] lowered@[l]@),
            forall|j: int, p: Seq<u8>| 0 <= j < k && #[trigger] parents_in(gv, common@[j]@).contains(p)
                && p != common@[j]@ ==> has_hash(lowered@, p),
        decreases common@.len() - k,
    {
        let d = common[k];
        let ps = parents_of(graph, d);
        let ghost l0 = lowered@;
        let mut m: usize = 0;
        while m < ps.len()
            invariant
                k < common@.len(),
                d == common@[k as int],
                hash_views(ps@) == parents_in(gv, d@),
                m <= ps@.len(),
                gv == graph_view(graph@),
                l0.len() <= lowered@.len(),
                lowered@.subrange(0, l0.len() as int) == l0,
                forall|l: int| 0 <= l < lowered@.len() ==> is_lowered(gv, common@, #[trigger] lowered@[l]@),
                forall|q: int| 0 <= q < m && ps@[q]@ != d@ ==> has_hash(lowered@, #[trigger] ps@[q]@),
            decreases ps@.len() - m,
        {
            let p = ps[m];
            proof {
                assert(hash_views(ps@)[m as int] == p@);
            }
            if !(p == d) {
                let ghost before = lowered@;
                lowered.push(p);
                proof {
                    assert forall|l: int| 0 <= l < lowered@.len() implies is_lowered(gv, common@, #[trigger] lowered@[l]@) by {
                        if l < before.len() {
                            assert(lowered@[l] == before[l]);
                        } else {
                            assert(lowered@[l] == p);
                            assert(parents_in(gv, common@[k as int]@).contains(p@));
                            assert(common@[k as int]@ != p@);
                        }
                    }
                    assert forall|q: int| 0 <= q <= m && ps@[q]@ != d@ implies has_hash(lowered@, #[trigger] ps@[q]@) by {
                        if q < m {
                            let w = choose|w: int| 0 <= w < before.len() && (#[trigger] before[w])@ == ps@[q]@;
                            assert(lowered@[w] == before[w]);
                        } else {
                            assert(lowered@[lowered@.len() - 1] == p);
                        }
                    }
                    assert(lowered@.subrange(0, l0.len() as int) =~= l0);
                }
            }
            m += 1;
        }
        proof {
            assert forall|j: int, p: Seq<u8>| 0 <= j < k + 1 && #[trigger] parents_in(gv, common@[j]@).contains(p)
                && p != common@[j]@ implies has_hash(lowered@, p) by {
                if j < k {
                    let w = choose|w: int| 0 <= w < l0.len() && (#[trigger] l0[w])@ == p;
                    assert(lowered@[w] == l0[w]);
                } else {
                    let w = choose|w: int| 0 <= w < hash_views(ps@).len() && hash_views(ps@)[w] == p;
                    assert(hash_views(ps@)[w] == ps@[w]@);
                }
            }
        }
        k += 1;
    }
    // The first common ancestor that is no other's parent.
    let mut n: usize = 0;
    while n < common.len()
        invariant
            n <= common@.len(),
            gv == graph_view(graph@),
            hash1@ != hash2@,
            forall|a: Seq<u8>| #[trigger] common_ancestor(gv, a, hash1@, hash2@) ==> has_hash(common@, a),
            forall|j: int| 0 <= j < common@.len() ==> common_ancestor(gv, #[trigger] common@[j]@, hash1@, hash2@),
            forall|l: int| 0 <= l < lowered@.len() ==> is_lowered(gv, common@, #[trigger] lowered@[l]@),
            forall|j: int, p: Seq<u8>| 0 <= j < common@.len() && #[trigger] parents_in(gv, common@[j]@).contains(p)
                && p != common@[j]@ ==> has_hash(lowered@, p),
            forall|j: int| 0 <= j < n ==> has_hash(lowered@, #[trigger] common@[j]@),
        decreases common@.len() - n,
    {
        let a = common[n];
        if !contains_hash(&lowered, a) {
            proof {
                assert(common_ancestor(gv, a@, hash1@, hash2@));
                assert forall|c: Seq<u8>| #[trigger] common_ancestor(gv, c, hash1@, hash2@) && c != a@
                    implies !is_ancestor(gv, a@, c) by {
                    if is_ancestor(gv, a@, c) {
                        let kk = choose|kk: nat| #[trigger] reach(gv, c, kk).contains(a@);
                        let d = lemma_last_step(gv, a@, c, kk);
                        lemma_ancestor_trans(gv, d, c, hash1@);
                        lemma_ancestor_trans(gv, d, c, hash2@);
                        assert(common_ancestor(gv, d, hash1@, hash2@));
                        assert(has_hash(common@, d));
                        let w = choose|w: int| 0 <= w < common@.len() && (#[trigger] common@[w])@ == d;
                        assert(parents_in(gv, common@[w]@).contains(a@));
                        assert(has_hash(lowered@, a@));
                    }
                }
            }
            return Some(a);
        }
        n += 1;
    }
    proof {
        assert forall|a: Seq<u8>| !lowest_common_ancestor(gv, a, hash1@, hash2@) by {
            if common_ancestor(gv, a, hash1@, hash2@) {
                let w = choose|w: int| 0 <= w < common@.len() && (#[trigger] common@[w])@ == a;
                assert(has_hash(lowered@, common@[w]@));
                let l = choose|l: int| 0 <= l < lowered@.len() && (#[trigger] lowered@[l])@ == a;
                assert(is_lowered(gv, common@, lowered@[l]@));
                let j = choose|j: int| 0 <= j < common@.len() && common@[j]@ != a
                    && parents_in(gv, common@[j]@).contains(a);
                let dd = common@[j]@;
                lemma_self_ancestor(gv, dd);
                lemma_parent_step(gv, dd, a, dd);
                assert(common_ancestor(gv, dd, hash1@, hash2@));
            }
        }
    }
    None
}

/// No two distinct commits are each other's ancestors.
pub open spec fn acyclic(g: Seq<(Seq<u8>, Seq<Seq<u8>>)>) -> bool {
    forall|a: Seq<u8>, c: Seq<u8>| a != c && #[trigger] is_ancestor(g, a, c) ==> !#[trigger] is_ancestor(g, c, a)
}

/// An ancestor of `x` is `x` itself or a parent named in the graph.
proof fn lemma_ancestor_listed(g: Seq<(Seq<u8>, Seq<Seq<u8>>)>, x: Seq<u8>, k: nat)
    ensures
        forall|a: Seq<u8>| #[trigger] reach(g, x, k).contains(a) ==> a == x || all_parents(g).contains(a),
    decreases k,
{
    if k > 0 {
        lemma_ancestor_listed(g, x, (k - 1) as nat);
        assert forall|a: Seq<u8>| #[trigger] reach(g, x, k).contains(a) implies a == x || all_parents(g).contains(a) by {
            let r = reach(g, x, (k - 1) as nat);
            if !r.contains(a) {
                let y = choose|y: Seq<u8>| r.contains(y) && parents_in(g, y).contains(a);
                lemma_parent_listed(g, y, a);
            }
        }
    }
}

/// A common ancestor that is not lowest has a common ancestor other than
/// itself among whose parents it is.
proof fn lemma_lower_step(g: Seq<(Seq<u8>, Seq<Seq<u8>>)>, h1: Seq<u8>, h2: Seq<u8>, a: Seq<u8>) -> (d: Seq<u8>)
    requires
        common_ancestor(g, a, h1, h2),
        !lowest_common_ancestor(g, a, h1, h2),
    ensures
        common_ancestor(g, d, h1, h2),
        d != a,
        parents_in(g, d).contains(a),
{
    let c = choose|c: Seq<u8>| #[trigger] common_ancestor(g, c, h1, h2) && c != a && is_ancestor(g, a, c);
    let k = choose|k: nat| #[trigger] reach(g, c, k).contains(a);
    let d = lemma_last_step(g, a, c, k);
    lemma_ancestor_trans(g, d, c, h1);
    lemma_ancestor_trans(g, d, c, h2);
    d
}

/// A chain of `n + 1` common ancestors, each a parent of the next.
proof fn lemma_chain(g: Seq<(Seq<u8>, Seq<Seq<u8>>)>, h1: Seq<u8>, h2: Seq<u8>, a: Seq<u8>, n: nat) -> (s: Seq<Seq<u8>>)
    requires
        common_ancestor(g, a, h1, h2),
        forall|x: Seq<u8>| !lowest_common_ancestor(g, x, h1, h2),
    ensures
        s.len() == n + 1,
        s[0] == a,
        forall|k: int| 0 <= k <= n ==> common_ancestor(g, #[trigger] s[k], h1, h2),
        forall|k: int| 0 <= k < n ==> s[k] != s[k + 1] && parents_in(g, #[trigger] s[k + 1]).contains(s[k]),
    decreases n,
{
    if n == 0 {
        seq![a]
    } else {
        let d = lemma_lower_step(g, h1, h2, a);
        let rest = lemma_chain(g, h1, h2, d, (n - 1) as nat);
        let s = seq![a] + rest;
        assert forall|k: int| 0 <= k <= n implies common_ancestor(g, #[trigger] s[k], h1, h2) by {
            if k > 0 {
                assert(s[k] == rest[k - 1]);
            }
        }
        assert forall|k: int| 0 <= k < n implies s[k] != s[k + 1] && parents_in(g, #[trigger] s[k + 1]).contains(s[k]) by {
            if k > 0 {
                assert(s[k] == rest[k - 1] && s[k + 1] == rest[k]);
                assert(rest[k - 1] != rest[k - 1 + 1] && parents_in(g, rest[k - 1 + 1]).contains(rest[k - 1]));
            } else {
                assert(s[0] == a && s[1] == rest[0] && rest[0] == d);
            }
        }
        s
    }
}

proof fn lemma_chain_ancestry(g: Seq<(Seq<u8>, Seq<Seq<u8>>)>, s: Seq<Seq<u8>>, i: int, m: int)
    requires
        0 <= i <= m < s.len(),
        forall|k: int| 0 <= k < s.len() - 1 ==> parents_in(g, #[trigger] s[k + 1]).contains(s[k]),
    ensures
        is_ancestor(g, s[i], s[m]),
    decreases m - i,
{
    if m == i {
        lemma_self_ancestor(g, s[i]);
    } else {
        lemma_chain_ancestry(g, s, i, m - 1);
        assert(parents_in(g, s[m - 1 + 1]).contains(s[m - 1]));
        lemma_self_ancestor(g, s[m]);
        lemma_parent_step(g, s[m], s[m - 1], s[m]);
        lemma_ancestor_trans(g, s[i], s[m - 1], s[m]);
    }
}

/// In a graph without cycles, two commits that have a common ancestor have
/// a lowest one: when no common ancestor is lowest (the search answers
/// `None`), the two commits have no common ancestor at all.
pub proof fn law_lca_none_means_disjoint(g: Seq<(Seq<u8>, Seq<Seq<u8>>)>, h1: Seq<u8>, h2: Seq<u8>)
    requires
        acyclic(g),
        forall|x: Seq<u8>| !lowest_common_ancestor(g, x, h1, h2),
    ensures
        forall|a: Seq<u8>| !common_ancestor(g, a, h1, h2),
{
    assert forall|a: Seq<u8>| !common_ancestor(g, a, h1, h2) by {
        if common_ancestor(g, a, h1, h2) {
            let u = all_parents(g).push(h1);
            let s = lemma_chain(g, h1, h2, a, u.len());
            assert(!s.no_duplicates()) by {
                if s.no_duplicates() {
                    s.unique_seq_to_set();
                    assert(s.to_set().subset_of(u.to_set())) by {
                        assert forall|z: Seq<u8>| s.to_set().contains(z) implies u.to_set().contains(z) by {
                            let i = choose|i: int| 0 <= i < s.len() && s[i] == z;
                            assert(common_ancestor(g, s[i], h1, h2));
                            let k = choose|k: nat| #[trigger] reach(g, h1, k).contains(z);
                            lemma_ancestor_listed(g, h1, k);
                            if z == h1 {
                                assert(u[u.len() - 1] == z);
                            } else {
                                let w = choose|w: int| 0 <= w < all_parents(g).len() && all_parents(g)[w] == z;
                                assert(u[w] == z);
                            }
                        }
                    }
                    vstd::seq_lib::seq_to_set_is_finite(u);
                    vstd::set_lib::lemma_len_subset(s.to_set(), u.to_set());
                    u.lemma_cardinality_of_set();
                }
            }
            let (i, j) = choose|i: int, j: int| 0 <= i < s.len() && 0 <= j < s.len() && i != j && s[i] == s[j];
            let (lo, hi) = if i < j { (i, j) } else { (j, i) };
            assert(s[lo] == s[hi]);
            assert(s[hi - 1] != s[hi - 1 + 1]);
            assert(parents_in(g, s[hi - 1 + 1]).contains(s[hi - 1]));
            lemma_chain_ancestry(g, s, lo, hi - 1);
            lemma_self_ancestor(g, s[hi]);
            lemma_parent_step(g, s[hi], s[hi - 1], s[hi]);
            assert(is_ancestor(g, s[lo], s[hi - 1]));
            assert(is_ancestor(g, s[hi - 1], s[lo]));
            assert(s[lo] != s[hi - 1]);
        }
    }
}

} // verus!
