//! The decisions that keep the index and the working tree in step: which
//! cached hashes still hold, which index entries to drop, which files a
//! restore removes.

use vstd::prelude::*;
use crate::merge::{has_key, lemma_lookup, distinct_keys, find_entry};
use crate::models::IndexEntry;

verus! {

/// The hash a file on disk is known to have without reading it: the
/// index's, when the index entry has the file's size and modification time.
pub open spec fn spec_cached_hash(cached: Option<IndexEntry>, size: u64, mtime: u64) -> Option<Seq<u8>> {
    match cached {
        Some(e) => if e.size == size && e.mtime == mtime { Some(e.hash@) } else { None },
        None => None,
    }
}

/// Gives the index's hash for a file whose size and modification time are
/// unchanged; `None` when the file must be hashed again.
pub fn cached_hash(cached: Option<IndexEntry>, size: u64, mtime: u64) -> (r: Option<crate::hash::Hash>)
    ensures
        crate::merge::opt_view(r) == spec_cached_hash(cached, size, mtime),
{
    match cached {
        Some(e) => if e.size == size && e.mtime == mtime { Some(e.hash) } else { None },
        None => None,
    }
}

/// The paths of `from`, in order, that `other` does not have.
pub open spec fn paths_missing_in(
    from: Seq<(String, crate::hash::Hash)>,
    other: Seq<(String, crate::hash::Hash)>,
) -> Seq<Seq<char>> {
    from.filter(|e: (String, crate::hash::Hash)| !has_key(other, e.0@)).map_values(|e: (String, crate::hash::Hash)| e.0@)
}

/// The paths of `from`, in order, that `other` does not have: the files a
/// restore removes (on disk, not in the target tree), or the index entries
/// that staging drops (staged, gone from disk).
pub fn paths_not_in(
    from: &[(String, crate::hash::Hash)],
    other: &[(String, crate::hash::Hash)],
) -> (r: Vec<String>)
    requires
        distinct_keys(other@),
    ensures
        r@.map_values(|s: String| s@) == paths_missing_in(from@, other@),
{
    let ghost pred = |e: (String, crate::hash::Hash)| !has_key(other@, e.0@);
    let mut r: Vec<String> = Vec::new();
    let mut k: usize = 0;
    while k < from.len()
        invariant
            k <= from@.len(),
            distinct_keys(other@),
            pred == (|e: (String, crate::hash::Hash)| !has_key(other@, e.0@)),
            r@.map_values(|s: String| s@) == from@.subrange(0, k as int).filter(pred).map_values(
                |e: (String, crate::hash::Hash)| e.0@,
            ),
        decreases from@.len() - k,
    {
        let ghost before = r@.map_values(|s: String| s@);
        proof {
            lemma_lookup(other@, from@[k as int].0@);
        }
        let missing = find_entry(other, &from[k].0).is_none();
        if missing {
            r.push(from[k].0.clone());
        }
        proof {
            reveal(Seq::filter);
            let sub = from@.subrange(0, k + 1);
            assert(sub.drop_last() =~= from@.subrange(0, k as int));
            assert(sub.last() == from@[k as int]);
            if missing {
                assert(r@.map_values(|s: String| s@) =~= before.push(from@[k as int].0@));
            } else {
                assert(r@.map_values(|s: String| s@) =~= before);
            }
        }
        k += 1;
    }
    proof {
        assert(from@.subrange(0, from@.len() as int) =~= from@);
    }
    r
}

/// The staged paths, in order, that the matcher ignores: those are taken
/// out of the index.
pub fn ignored_paths(matcher: &crate::ignore::IgnoreMatcher, staged: &[(String, crate::hash::Hash)]) -> (r: Vec<String>)
    ensures
        r@.map_values(|s: String| s@) == staged@.filter(
            |e: (String, crate::hash::Hash)| crate::external::spec_gitignore_ignores(matcher.patterns(), e.0@),
        ).map_values(|e: (String, crate::hash::Hash)| e.0@),
{
    let ghost pred = |e: (String, crate::hash::Hash)| crate::external::spec_gitignore_ignores(matcher.patterns(), e.0@);
    let mut r: Vec<String> = Vec::new();
    let mut k: usize = 0;
    while k < staged.len()
        invariant
            k <= staged@.len(),
            pred == (|e: (String, crate::hash::Hash)| crate::external::spec_gitignore_ignores(matcher.patterns(), e.0@)),
            r@.map_values(|s: String| s@) == staged@.subrange(0, k as int).filter(pred).map_values(
                |e: (String, crate::hash::Hash)| e.0@,
            ),
        decreases staged@.len() - k,
    {
        let ghost before = r@.map_values(|s: String| s@);
        let ignored = matcher.is_ignored(staged[k].0.as_str());
        if ignored {
            r.push(staged[k].0.clone());
        }
        proof {
            reveal(Seq::filter);
            let sub = staged@.subrange(0, k + 1);
            assert(sub.drop_last() =~= staged@.subrange(0, k as int));
            assert(sub.last() == staged@[k as int]);
            if ignored {
                assert(r@.map_values(|s: String| s@) =~= before.push(staged@[k as int].0@));
            } else {
                assert(r@.map_values(|s: String| s@) =~= before);
            }
        }
        k += 1;
    }
    proof {
        assert(staged@.subrange(0, staged@.len() as int) =~= staged@);
    }
    r
}

} // verus!
