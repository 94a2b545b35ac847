//! The status of the working tree: the index against the head commit, the
//! files on disk against the index, and the files nobody tracks.

use vstd::prelude::*;
use crate::merge::{distinct_keys, has_key, lemma_lookup, lookup, find_entry};
use crate::models::{FileState, RepoStatus};

verus! {

/// The staged change of a path: added to the index, changed in it, or
/// removed from it, against the head commit.
pub open spec fn staged_state(head: Option<Seq<u8>>, index: Option<Seq<u8>>) -> Option<FileState> {
    match (head, index) {
        (None, Some(_)) => Some(FileState::New),
        (Some(h), Some(i)) => if h != i { Some(FileState::Modified) } else { None },
        (Some(_), None) => Some(FileState::Deleted),
        (None, None) => None,
    }
}

/// The unstaged change of an indexed path: changed on disk, or gone from it.
pub open spec fn unstaged_state(index: Option<Seq<u8>>, disk: Option<Seq<u8>>) -> Option<FileState> {
    match (index, disk) {
        (Some(i), Some(d)) => if d != i { Some(FileState::Modified) } else { None },
        (Some(_), None) => Some(FileState::Deleted),
        _ => None,
    }
}

/// Whether `out` lists, each once, exactly the paths to which `f` gives a
/// state, with that state.
pub open spec fn lists_states(out: Seq<(String, FileState)>, f: spec_fn(Seq<char>) -> Option<FileState>) -> bool {
    &&& distinct_keys(out)
    &&& forall|i: int| 0 <= i < out.len() ==> f(#[trigger] out[i].0@) == Some(out[i].1)
    &&& forall|p: Seq<char>| #[trigger] f(p) is Some ==> has_key(out, p)
}

/// Strict lexicographic order of texts by code point, which is the order
/// of `String`.
pub open spec fn text_lt(a: Seq<char>, b: Seq<char>) -> bool
    decreases a.len(),
{
    if a.len() == 0 {
        b.len() > 0
    } else if b.len() == 0 {
        false
    } else if a[0] != b[0] {
        (a[0] as int) < (b[0] as int)
    } else {
        text_lt(a.drop_first(), b.drop_first())
    }
}

pub proof fn lemma_text_lt_irreflexive(a: Seq<char>)
    ensures
        !text_lt(a, a),
    decreases a.len(),
{
    if a.len() > 0 {
        lemma_text_lt_irreflexive(a.drop_first());
    }
}

pub proof fn lemma_text_lt_transitive(a: Seq<char>, b: Seq<char>, c: Seq<char>)
    requires
        text_lt(a, b),
        text_lt(b, c),
    ensures
        text_lt(a, c),
    decreases a.len(),
{
    if a.len() > 0 && b.len() > 0 && c.len() > 0 && a[0] == b[0] && b[0] == c[0] {
        lemma_text_lt_transitive(a.drop_first(), b.drop_first(), c.drop_first());
    }
}

pub proof fn lemma_text_lt_total(a: Seq<char>, b: Seq<char>)
    requires
        a != b,
    ensures
        text_lt(a, b) || text_lt(b, a),
    decreases a.len(),
{
    if a.len() > 0 && b.len() > 0 && a[0] == b[0] {
        if a.drop_first() == b.drop_first() {
            assert(a =~= seq![a[0]] + a.drop_first());
            assert(b =~= seq![b[0]] + b.drop_first());
        }
        lemma_text_lt_total(a.drop_first(), b.drop_first());
    } else if a.len() > 0 && b.len() > 0 {
        assert((a[0] as int) != (b[0] as int));
    } else if a.len() == 0 && b.len() == 0 {
        assert(a =~= b);
    }
}

/// Whether `a` comes before `b`.
pub fn text_less(a: &[char], b: &[char]) -> (r: bool)
    ensures
        r == text_lt(a@, b@),
{
    let mut k: usize = 0;
    assert(a@.subrange(0, a@.len() as int) =~= a@);
    assert(b@.subrange(0, b@.len() as int) =~= b@);
    while k < a.len() && k < b.len()
        invariant
            k <= a@.len(),
            k <= b@.len(),
            text_lt(a@, b@) == text_lt(a@.subrange(k as int, a@.len() as int), b@.subrange(k as int, b@.len() as int)),
        decreases a@.len() - k,
    {
        let ghost sa = a@.subrange(k as int, a@.len() as int);
        let ghost sb = b@.subrange(k as int, b@.len() as int);
        proof {
            assert(sa[0] == a@[k as int]);
            assert(sb[0] == b@[k as int]);
        }
        if a[k] != b[k] {
            return a[k] < b[k];
        }
        proof {
            assert(sa.drop_first() =~= a@.subrange(k + 1, a@.len() as int));
            assert(sb.drop_first() =~= b@.subrange(k + 1, b@.len() as int));
        }
        k += 1;
    }
    k == a.len() && k < b.len()
}

/// Whether the texts come in strictly increasing order.
pub open spec fn strictly_sorted(s: Seq<Seq<char>>) -> bool {
    forall|i: int, j: int| 0 <= i < j < s.len() ==> text_lt(#[trigger] s[i], #[trigger] s[j])
}

/// The text of each string.
pub open spec fn texts(v: Seq<String>) -> Seq<Seq<char>> {
    v.map_values(|s: String| s@)
}

/// Inserts a text that is not there yet into a strictly sorted list, in
/// its place.
pub fn insert_sorted(v: &mut Vec<String>, x: String)
    requires
        strictly_sorted(texts(old(v)@)),
        !texts(old(v)@).contains(x@),
    ensures
        strictly_sorted(texts(final(v)@)),
        forall|t: Seq<char>| texts(final(v)@).contains(t) <==> (texts(old(v)@).contains(t) || t == x@),
{
    let xs = crate::external::str_to_chars(x.as_str());
    let mut k: usize = 0;
    loop
        invariant
            k <= v@.len(),
            xs@ == x@,
            strictly_sorted(texts(v@)),
            !texts(v@).contains(x@),
            forall|i: int| 0 <= i < k ==> text_lt(#[trigger] texts(v@)[i], x@),
        ensures
            k <= v@.len(),
            forall|i: int| 0 <= i < k ==> text_lt(#[trigger] texts(v@)[i], x@),
            k < v@.len() ==> text_lt(x@, texts(v@)[k as int]),
        decreases v@.len() - k,
    {
        if k >= v.len() {
            break;
        }
        let ys = crate::external::str_to_chars(v[k].as_str());
        proof {
            assert(texts(v@)[k as int] == v@[k as int]@);
        }
        if text_less(xs.as_slice(), ys.as_slice()) {
            break;
        }
        proof {
            assert(texts(v@).contains(v@[k as int]@));
            assert(v@[k as int]@ != x@);
            lemma_text_lt_total(x@, v@[k as int]@);
        }
        k += 1;
    }
    let ghost old_t = texts(v@);
    proof {
        if k < v@.len() {
            assert(text_lt(x@, old_t[k as int]));
        }
    }
    v.insert(k, x);
    let ghost new_t = texts(v@);
    proof {
        assert(new_t =~= old_t.insert(k as int, x@));
        assert forall|i: int, j: int| 0 <= i < j < new_t.len() implies text_lt(#[trigger] new_t[i], #[trigger] new_t[j]) by {
            if j < k {
                assert(new_t[i] == old_t[i] && new_t[j] == old_t[j]);
            } else if j == k {
                assert(new_t[i] == old_t[i]);
            } else if i == k {
                assert(new_t[j] == old_t[j - 1]);
                if j - 1 > k {
                    assert(text_lt(old_t[k as int], old_t[j - 1]));
                    lemma_text_lt_transitive(x@, old_t[k as int], old_t[j - 1]);
                }
            } else if i < k {
                assert(new_t[i] == old_t[i] && new_t[j] == old_t[j - 1]);
                if i < j - 1 {
                    assert(text_lt(old_t[i], old_t[j - 1]));
                } else {
                    assert(i == j - 1);
                    assert(false);
                }
            } else {
                assert(new_t[i] == old_t[i - 1] && new_t[j] == old_t[j - 1]);
            }
        }
        assert forall|t: Seq<char>| new_t.contains(t) <==> (old_t.contains(t) || t == x@) by {
            if new_t.contains(t) {
                let i = choose|i: int| 0 <= i < new_t.len() && new_t[i] == t;
                if i < k {
                    assert(old_t[i] == t);
                } else if i > k {
                    assert(old_t[i - 1] == t);
                }
            }
            if old_t.contains(t) {
                let i = choose|i: int| 0 <= i < old_t.len() && old_t[i] == t;
                if i < k {
                    assert(new_t[i] == t);
                } else {
                    assert(new_t[i + 1] == t);
                }
            }
            if t == x@ {
                assert(new_t[k as int] == t);
            }
        }
    }
}

/// Whether one of the first `n` entries has the path.
pub open spec fn key_before(m: Seq<(String, crate::hash::Hash)>, n: int, p: Seq<char>) -> bool {
    exists|j: int| 0 <= j < n && j < m.len() && (#[trigger] m[j]).0@ == p
}

/// What the status says: the staged changes of every path of the index or
/// the head, the unstaged changes of every indexed path, and, sorted, the
/// files on disk that neither the index nor the head has.
pub open spec fn status_of(
    s: RepoStatus,
    head: Seq<(String, crate::hash::Hash)>,
    index: Seq<(String, crate::hash::Hash)>,
    disk: Seq<(String, crate::hash::Hash)>,
) -> bool {
    &&& lists_states(s.staged@, |p: Seq<char>| staged_state(lookup(head, p), lookup(index, p)))
    &&& lists_states(s.unstaged@, |p: Seq<char>| unstaged_state(lookup(index, p), lookup(disk, p)))
    &&& strictly_sorted(texts(s.untracked@))
    &&& forall|t: Seq<char>| #[trigger] texts(s.untracked@).contains(t) <==> (has_key(disk, t) && !has_key(index, t)
        && !has_key(head, t))
}

/// The status of the working tree from the files of the head commit, of the
/// index and on disk (path and blob hash each, no path twice in a list).
pub fn get_status(
    head_files: &[(String, crate::hash::Hash)],
    index_files: &[(String, crate::hash::Hash)],
    disk_files: &[(String, crate::hash::Hash)],
) -> (s: RepoStatus)
    requires
        distinct_keys(head_files@),
        distinct_keys(index_files@),
        distinct_keys(disk_files@),
    ensures
        status_of(s, head_files@, index_files@, disk_files@),
{
    let ghost h = head_files@;
    let ghost ix = index_files@;
    let ghost d = disk_files@;
    let ghost fs = |p: Seq<char>| staged_state(lookup(h, p), lookup(ix, p));
    let ghost fu = |p: Seq<char>| unstaged_state(lookup(ix, p), lookup(d, p));
    let mut status = RepoStatus::new();
    // Staged changes of indexed paths.
    let mut k: usize = 0;
    while k < index_files.len()
        invariant
            k <= ix.len(),
            h == head_files@,
            ix == index_files@,
            d == disk_files@,
            distinct_keys(h),
            distinct_keys(ix),
            fs == (|p: Seq<char>| staged_state(lookup(h, p), lookup(ix, p))),
            distinct_keys(status.staged@),
            forall|i: int| 0 <= i < status.staged@.len() ==> fs(#[trigger] status.staged@[i].0@) == Some(status.staged@[i].1),
            forall|i: int| 0 <= i < status.staged@.len() ==> key_before(ix, k as int, #[trigger] status.staged@[i].0@),
            forall|j: int| 0 <= j < k ==> fs((#[trigger] ix[j]).0@) is Some ==> has_key(status.staged@, ix[j].0@),
            status.unstaged@.len() == 0,
            status.untracked@.len() == 0,
        decreases ix.len() - k,
    {
        let p = &index_files[k].0;
        let ih = index_files[k].1;
        proof {
            lemma_lookup(ix, p@);
            lemma_lookup(h, p@);
            assert(ix[k as int].0@ == p@);
        }
        let hh = find_entry(head_files, p);
        let st: Option<FileState> = match hh {
            None => Some(FileState::New),
            Some(x) => if x == ih { None } else { Some(FileState::Modified) },
        };
        proof {
            assert(lookup(ix, p@) == Some(ih@));
            assert(st == fs(p@));
        }
        if let Some(state) = st {
            let ghost before = status.staged@;
            status.staged.push((p.clone(), state));
            proof {
                assert forall|i: int| 0 <= i < before.len() implies before[i].0@ != p@ by {
                    let j = choose|j: int| 0 <= j < k && j < ix.len() && (#[trigger] ix[j]).0@ == before[i].0@;
                    assert(ix[j].0@ != ix[k as int].0@);
                }
                assert forall|i: int, j: int| 0 <= i < j < status.staged@.len() implies status.staged@[i].0@ != status.staged@[j].0@ by {
                    if j < before.len() {
                        assert(status.staged@[i] == before[i] && status.staged@[j] == before[j]);
                    } else {
                        assert(status.staged@[i] == before[i]);
                    }
                }
                assert forall|i: int| 0 <= i < status.staged@.len() implies key_before(ix, k + 1, #[trigger] status.staged@[i].0@) by {
                    if i < before.len() {
                        assert(status.staged@[i] == before[i]);
                        let j = choose|j: int| 0 <= j < k && j < ix.len() && (#[trigger] ix[j]).0@ == before[i].0@;
                        assert(ix[j].0@ == status.staged@[i].0@);
                    } else {
                        assert(ix[k as int].0@ == status.staged@[i].0@);
                    }
                }
                assert forall|i: int| 0 <= i < status.staged@.len() implies fs(#[trigger] status.staged@[i].0@) == Some(status.staged@[i].1) by {
                    if i < before.len() {
                        assert(status.staged@[i] == before[i]);
                    }
                }
                assert forall|j: int| 0 <= j < k + 1 && fs((#[trigger] ix[j]).0@) is Some implies has_key(status.staged@, ix[j].0@) by {
                    if j < k {
                        if fs(ix[j].0@) is Some {
                            let i = choose|i: int| 0 <= i < before.len() && before[i].0@ == ix[j].0@;
                            assert(status.staged@[i] == before[i]);
                        }
                    } else {
                        assert(status.staged@[before.len() as int].0@ == ix[j].0@);
                    }
                }
            }
        } else {
            proof {
                assert forall|i: int| 0 <= i < status.staged@.len() implies key_before(ix, k + 1, #[trigger] status.staged@[i].0@) by {
                    let j = choose|j: int| 0 <= j < k && j < ix.len() && (#[trigger] ix[j]).0@ == status.staged@[i].0@;
                    assert(ix[j].0@ == status.staged@[i].0@);
                }
            }
        }
        k += 1;
    }
    // Deletions: paths of the head that the index no longer has.
    let ghost after_index = status.staged@;
    let mut k: usize = 0;
    while k < head_files.len()
        invariant
            k <= h.len(),
            h == head_files@,
            ix == index_files@,
            d == disk_files@,
            distinct_keys(h),
            distinct_keys(ix),
            fs == (|p: Seq<char>| staged_state(lookup(h, p), lookup(ix, p))),
            distinct_keys(status.staged@),
            forall|i: int| 0 <= i < status.staged@.len() ==> fs(#[trigger] status.staged@[i].0@) == Some(status.staged@[i].1),
            forall|i: int| 0 <= i < status.staged@.len() ==> has_key(ix, #[trigger] status.staged@[i].0@)
                || key_before(h, k as int, status.staged@[i].0@),
            forall|j: int| 0 <= j < ix.len() ==> fs((#[trigger] ix[j]).0@) is Some ==> has_key(status.staged@, ix[j].0@),
            forall|j: int| 0 <= j < k ==> fs((#[trigger] h[j]).0@) is Some ==> has_key(status.staged@, h[j].0@),
            status.unstaged@.len() == 0,
            status.untracked@.len() == 0,
        decreases h.len() - k,
    {
        let p = &head_files[k].0;
        proof {
            lemma_lookup(ix, p@);
            lemma_lookup(h, p@);
            assert(h[k as int].0@ == p@);
        }
        let ie = find_entry(index_files, p);
        if ie.is_none() {
            proof {
                assert(fs(p@) == Some(FileState::Deleted));
            }
            let ghost before = status.staged@;
            status.staged.push((p.clone(), FileState::Deleted));
            proof {
                assert forall|i: int| 0 <= i < before.len() implies before[i].0@ != p@ by {
                    if !has_key(ix, before[i].0@) {
                        let j = choose|j: int| 0 <= j < k && j < h.len() && (#[trigger] h[j]).0@ == before[i].0@;
                        assert(h[j].0@ != h[k as int].0@);
                    }
                }
                assert forall|i: int, j: int| 0 <= i < j < status.staged@.len() implies status.staged@[i].0@ != status.staged@[j].0@ by {
                    if j < before.len() {
                        assert(status.staged@[i] == before[i] && status.staged@[j] == before[j]);
                    } else {
                        assert(status.staged@[i] == before[i]);
                    }
                }
                assert forall|i: int| 0 <= i < status.staged@.len() implies has_key(ix, #[trigger] status.staged@[i].0@)
                    || key_before(h, k + 1, status.staged@[i].0@) by {
                    if i < before.len() {
                        assert(status.staged@[i] == before[i]);
                        if !has_key(ix, before[i].0@) {
                            let j = choose|j: int| 0 <= j < k && j < h.len() && (#[trigger] h[j]).0@ == before[i].0@;
                            assert(h[j].0@ == status.staged@[i].0@);
                        }
                    } else {
                        assert(h[k as int].0@ == status.staged@[i].0@);
                    }
                }
                assert forall|i: int| 0 <= i < status.staged@.len() implies fs(#[trigger] status.staged@[i].0@) == Some(status.staged@[i].1) by {
                    if i < before.len() {
                        assert(status.staged@[i] == before[i]);
                    }
                }
                assert forall|j: int| 0 <= j < ix.len() && fs((#[trigger] ix[j]).0@) is Some implies has_key(status.staged@, ix[j].0@) by {
                    if fs(ix[j].0@) is Some {
                        let i = choose|i: int| 0 <= i < before.len() && before[i].0@ == ix[j].0@;
                        assert(status.staged@[i] == before[i]);
                    }
                }
                assert forall|j: int| 0 <= j < k + 1 && fs((#[trigger] h[j]).0@) is Some implies has_key(status.staged@, h[j].0@) by {
                    if j < k {
                        if fs(h[j].0@) is Some {
                            let i = choose|i: int| 0 <= i < before.len() && before[i].0@ == h[j].0@;
                            assert(status.staged@[i] == before[i]);
                        }
                    } else {
                        assert(status.staged@[before.len() as int].0@ == h[j].0@);
                    }
                }
            }
        } else {
            proof {
                assert forall|i: int| 0 <= i < status.staged@.len() implies has_key(ix, #[trigger] status.staged@[i].0@)
                    || key_before(h, k + 1, status.staged@[i].0@) by {
                    if !has_key(ix, status.staged@[i].0@) {
                        let j = choose|j: int| 0 <= j < k && j < h.len() && (#[trigger] h[j]).0@ == status.staged@[i].0@;
                        assert(h[j].0@ == status.staged@[i].0@);
                    }
                }
                assert(has_key(ix, h[k as int].0@));
                let j = choose|j: int| 0 <= j < ix.len() && ix[j].0@ == h[k as int].0@;
                assert(fs(ix[j].0@) is Some ==> has_key(status.staged@, ix[j].0@));
            }
        }
        k += 1;
    }
    proof {
        assert forall|p: Seq<char>| #[trigger] fs(p) is Some implies has_key(status.staged@, p) by {
            lemma_lookup(ix, p);
            lemma_lookup(h, p);
            if has_key(ix, p) {
                let j = choose|j: int| 0 <= j < ix.len() && ix[j].0@ == p;
                assert(fs(ix[j].0@) is Some);
            } else {
                let j = choose|j: int| 0 <= j < h.len() && h[j].0@ == p;
                assert(fs(h[j].0@) is Some);
            }
        }
        assert(lists_states(status.staged@, fs));
    }
    // Unstaged changes of indexed paths.
    let mut k: usize = 0;
    while k < index_files.len()
        invariant
            k <= ix.len(),
            h == head_files@,
            ix == index_files@,
            d == disk_files@,
            distinct_keys(ix),
            distinct_keys(d),
            fu == (|p: Seq<char>| unstaged_state(lookup(ix, p), lookup(d, p))),
            fs == (|p: Seq<char>| staged_state(lookup(h, p), lookup(ix, p))),
            lists_states(status.staged@, fs),
            distinct_keys(status.unstaged@),
            forall|i: int| 0 <= i < status.unstaged@.len() ==> fu(#[trigger] status.unstaged@[i].0@) == Some(status.unstaged@[i].1),
            forall|i: int| 0 <= i < status.unstaged@.len() ==> key_before(ix, k as int, #[trigger] status.unstaged@[i].0@),
            forall|j: int| 0 <= j < k ==> (fu((#[trigger] ix[j]).0@) is Some ==> has_key(status.unstaged@, ix[j].0@)),
            status.untracked@.len() == 0,
        decreases ix.len() - k,
    {
        let p = &index_files[k].0;
        let ih = index_files[k].1;
        proof {
            lemma_lookup(ix, p@);
            lemma_lookup(d, p@);
            assert(ix[k as int].0@ == p@);
        }
        let dh = find_entry(disk_files, p);
        let st: Option<FileState> = match dh {
            None => Some(FileState::Deleted),
            Some(x) => if x == ih { None } else { Some(FileState::Modified) },
        };
        proof {
            assert(lookup(ix, p@) == Some(ih@));
            assert(st == fu(p@));
        }
        if let Some(state) = st {
            let ghost before = status.unstaged@;
            status.unstaged.push((p.clone(), state));
            proof {
                assert forall|i: int| 0 <= i < before.len() implies before[i].0@ != p@ by {
                    let j = choose|j: int| 0 <= j < k && j < ix.len() && (#[trigger] ix[j]).0@ == before[i].0@;
                    assert(ix[j].0@ != ix[k as int].0@);
                }
                assert forall|i: int, j: int| 0 <= i < j < status.unstaged@.len() implies status.unstaged@[i].0@ != status.unstaged@[j].0@ by {
                    if j < before.len() {
                        assert(status.unstaged@[i] == before[i] && status.unstaged@[j] == before[j]);
                    } else {
                        assert(status.unstaged@[i] == before[i]);
                    }
                }
                assert forall|i: int| 0 <= i < status.unstaged@.len() implies key_before(ix, k + 1, #[trigger] status.unstaged@[i].0@) by {
                    if i < before.len() {
                        assert(status.unstaged@[i] == before[i]);
                        let j = choose|j: int| 0 <= j < k && j < ix.len() && (#[trigger] ix[j]).0@ == before[i].0@;
                        assert(ix[j].0@ == status.unstaged@[i].0@);
                    } else {
                        assert(ix[k as int].0@ == status.unstaged@[i].0@);
                    }
                }
                assert forall|i: int| 0 <= i < status.unstaged@.len() implies fu(#[trigger] status.unstaged@[i].0@) == Some(status.unstaged@[i].1) by {
                    if i < before.len() {
                        assert(status.unstaged@[i] == before[i]);
                    }
                }
                assert forall|j: int| 0 <= j < k + 1 && fu((#[trigger] ix[j]).0@) is Some implies has_key(status.unstaged@, ix[j].0@) by {
                    if j < k {
                        if fu(ix[j].0@) is Some {
                            let i = choose|i: int| 0 <= i < before.len() && before[i].0@ == ix[j].0@;
                            assert(status.unstaged@[i] == before[i]);
                        }
                    } else {
                        assert(status.unstaged@[before.len() as int].0@ == ix[j].0@);
                    }
                }
            }
        } else {
            proof {
                assert forall|i: int| 0 <= i < status.unstaged@.len() implies key_before(ix, k + 1, #[trigger] status.unstaged@[i].0@) by {
                    let j = choose|j: int| 0 <= j < k && j < ix.len() && (#[trigger] ix[j]).0@ == status.unstaged@[i].0@;
                    assert(ix[j].0@ == status.unstaged@[i].0@);
                }
            }
        }
        k += 1;
    }
    proof {
        assert forall|p: Seq<char>| #[trigger] fu(p) is Some implies has_key(status.unstaged@, p) by {
            lemma_lookup(ix, p);
            if has_key(ix, p) {
                let j = choose|j: int| 0 <= j < ix.len() && ix[j].0@ == p;
                assert(fu(ix[j].0@) is Some);
            }
        }
        assert(lists_states(status.unstaged@, fu));
    }
    // Untracked files, in sorted order.
    let mut k: usize = 0;
    while k < disk_files.len()
        invariant
            k <= d.len(),
            h == head_files@,
            ix == index_files@,
            d == disk_files@,
            distinct_keys(d),
            distinct_keys(ix),
            distinct_keys(h),
            fu == (|p: Seq<char>| unstaged_state(lookup(ix, p), lookup(d, p))),
            fs == (|p: Seq<char>| staged_state(lookup(h, p), lookup(ix, p))),
            lists_states(status.staged@, fs),
            lists_states(status.unstaged@, fu),
            strictly_sorted(texts(status.untracked@)),
            forall|t: Seq<char>| #[trigger] texts(status.untracked@).contains(t) <==> (key_before(d, k as int, t)
                && !has_key(ix, t) && !has_key(h, t)),
        decreases d.len() - k,
    {
        let p = &disk_files[k].0;
        proof {
            lemma_lookup(ix, p@);
            lemma_lookup(h, p@);
            assert(d[k as int].0@ == p@);
        }
        let in_index = find_entry(index_files, p).is_some();
        let in_head = find_entry(head_files, p).is_some();
        let ghost before = texts(status.untracked@);
        if !in_index && !in_head {
            proof {
                if before.contains(p@) {
                    let j = choose|j: int| 0 <= j < k && j < d.len() && (#[trigger] d[j]).0@ == p@;
                    assert(d[j].0@ != d[k as int].0@);
                }
            }
            insert_sorted(&mut status.untracked, p.clone());
        }
        proof {
            assert forall|t: Seq<char>| #[trigger] texts(status.untracked@).contains(t) <==> (key_before(d, k + 1, t)
                && !has_key(ix, t) && !has_key(h, t)) by {
                if key_before(d, k + 1, t) && !key_before(d, k as int, t) {
                    let j = choose|j: int| 0 <= j < k + 1 && j < d.len() && (#[trigger] d[j]).0@ == t;
                    assert(j == k);
                }
                if key_before(d, k as int, t) {
                    let j = choose|j: int| 0 <= j < k && j < d.len() && (#[trigger] d[j]).0@ == t;
                    assert(key_before(d, k + 1, t));
                }
                if t == p@ {
                    assert(d[k as int].0@ == t);
                    assert(key_before(d, k + 1, t));
                }
            }
        }
        k += 1;
    }
    proof {
        assert forall|t: Seq<char>| #[trigger] texts(status.untracked@).contains(t) <==> (has_key(d, t)
            && !has_key(ix, t) && !has_key(h, t)) by {
            if has_key(d, t) {
                let j = choose|j: int| 0 <= j < d.len() && d[j].0@ == t;
                assert(key_before(d, k as int, t));
            }
            if key_before(d, k as int, t) {
                let j = choose|j: int| 0 <= j < k && j < d.len() && (#[trigger] d[j]).0@ == t;
                assert(has_key(d, t));
            }
        }
    }
    status
}

/// When the head commit, the index and the disk hold the same files, the
/// status reports nothing: no staged or unstaged change and no untracked
/// file.
pub proof fn law_status_clean(s: RepoStatus, files: Seq<(String, crate::hash::Hash)>)
    requires
        status_of(s, files, files, files),
    ensures
        s.staged@.len() == 0,
        s.unstaged@.len() == 0,
        s.untracked@.len() == 0,
{
    let fs = |p: Seq<char>| staged_state(lookup(files, p), lookup(files, p));
    let fu = |p: Seq<char>| unstaged_state(lookup(files, p), lookup(files, p));
    if s.staged@.len() > 0 {
        assert(fs(s.staged@[0].0@) == Some(s.staged@[0].1));
    }
    if s.unstaged@.len() > 0 {
        assert(fu(s.unstaged@[0].0@) == Some(s.unstaged@[0].1));
    }
    if s.untracked@.len() > 0 {
        assert(texts(s.untracked@).contains(texts(s.untracked@)[0]));
    }
}

/// An untracked file is one on disk that neither the index nor the head
/// commit holds: no path of the head commit or of the index is ever listed
/// as untracked, and every listed path is on disk.
pub proof fn law_untracked_is_in_neither_head_nor_index(
    s: RepoStatus,
    head: Seq<(String, crate::hash::Hash)>,
    index: Seq<(String, crate::hash::Hash)>,
    disk: Seq<(String, crate::hash::Hash)>,
)
    requires
        status_of(s, head, index, disk),
    ensures
        forall|i: int| 0 <= i < s.untracked@.len() ==> {
            &&& !has_key(head, #[trigger] s.untracked@[i]@)
            &&& !has_key(index, s.untracked@[i]@)
            &&& has_key(disk, s.untracked@[i]@)
        },
        forall|t: Seq<char>| has_key(head, t) ==> !texts(s.untracked@).contains(t),
{
    assert forall|i: int| 0 <= i < s.untracked@.len() implies {
        &&& !has_key(head, #[trigger] s.untracked@[i]@)
        &&& !has_key(index, s.untracked@[i]@)
        &&& has_key(disk, s.untracked@[i]@)
    } by {
        assert(texts(s.untracked@)[i] == s.untracked@[i]@);
        assert(texts(s.untracked@).contains(s.untracked@[i]@));
    }
}

/// Whether a list of states has `p` with state `st`.
pub open spec fn lists(out: Seq<(String, FileState)>, p: Seq<char>, st: FileState) -> bool {
    exists|i: int| 0 <= i < out.len() && out[i].0@ == p && out[i].1 == st
}

/// What the status reports of one path, by where it is: staged as new when
/// only the index has it, as deleted when only the head has it, as
/// modified when the two hold different blobs; unstaged as deleted when
/// the index has it and the disk does not, as modified when the disk holds
/// another blob than the index.
pub proof fn law_status_of_a_path(
    s: RepoStatus,
    head: Seq<(String, crate::hash::Hash)>,
    index: Seq<(String, crate::hash::Hash)>,
    disk: Seq<(String, crate::hash::Hash)>,
    p: Seq<char>,
)
    requires
        status_of(s, head, index, disk),
    ensures
        lookup(head, p) is None && lookup(index, p) is Some ==> lists(s.staged@, p, FileState::New),
        lookup(head, p) is Some && lookup(index, p) is None ==> lists(s.staged@, p, FileState::Deleted),
        lookup(head, p) is Some && lookup(index, p) is Some && lookup(head, p) != lookup(index, p)
            ==> lists(s.staged@, p, FileState::Modified),
        lookup(head, p) == lookup(index, p) ==> !has_key(s.staged@, p),
        lookup(index, p) is Some && lookup(disk, p) is None ==> lists(s.unstaged@, p, FileState::Deleted),
        lookup(index, p) is Some && lookup(disk, p) is Some && lookup(index, p) != lookup(disk, p)
            ==> lists(s.unstaged@, p, FileState::Modified),
        lookup(index, p) is None || lookup(index, p) == lookup(disk, p) ==> !has_key(s.unstaged@, p),
{
    let fs = |q: Seq<char>| staged_state(lookup(head, q), lookup(index, q));
    let fu = |q: Seq<char>| unstaged_state(lookup(index, q), lookup(disk, q));
    if fs(p) is Some {
        let i = choose|i: int| 0 <= i < s.staged@.len() && s.staged@[i].0@ == p;
        assert(fs(s.staged@[i].0@) == Some(s.staged@[i].1));
    }
    if has_key(s.staged@, p) {
        let i = choose|i: int| 0 <= i < s.staged@.len() && s.staged@[i].0@ == p;
        assert(fs(s.staged@[i].0@) == Some(s.staged@[i].1));
    }
    if fu(p) is Some {
        let i = choose|i: int| 0 <= i < s.unstaged@.len() && s.unstaged@[i].0@ == p;
        assert(fu(s.unstaged@[i].0@) == Some(s.unstaged@[i].1));
    }
    if has_key(s.unstaged@, p) {
        let i = choose|i: int| 0 <= i < s.unstaged@.len() && s.unstaged@[i].0@ == p;
        assert(fu(s.unstaged@[i].0@) == Some(s.unstaged@[i].1));
    }
}

} // verus!
