//! The repository state that actions change and the undo log takes back:
//! the index (path to entry), the heads, and the bookmarks. Each action
//! returns the record that undoes it; `apply_undo` replays such a record.

use vstd::prelude::*;
use crate::merge::distinct_keys;
use crate::models::{IndexEntry, UndoAction};

verus! {

/// The value the first entry with key `p` holds, if any.
pub open spec fn entry_of<T>(m: Seq<(String, T)>, p: Seq<char>) -> Option<T>
    decreases m.len(),
{
    if m.len() == 0 {
        None
    } else if m[0].0@ == p {
        Some(m[0].1)
    } else {
        entry_of(m.drop_first(), p)
    }
}

pub proof fn lemma_entry_of<T>(m: Seq<(String, T)>, p: Seq<char>)
    requires
        distinct_keys(m),
    ensures
        entry_of(m, p) is None <==> (forall|i: int| 0 <= i < m.len() ==> m[i].0@ != p),
        forall|i: int| 0 <= i < m.len() && m[i].0@ == p ==> entry_of(m, p) == Some(m[i].1),
    decreases m.len(),
{
    if m.len() > 0 {
        let t = m.drop_first();
        assert(distinct_keys(t)) by {
            assert forall|i: int, j: int| 0 <= i < j < t.len() implies t[i].0@ != t[j].0@ by {
                assert(t[i] == m[i + 1] && t[j] == m[j + 1]);
            }
        }
        lemma_entry_of(t, p);
        if m[0].0@ != p {
            assert forall|i: int| 0 <= i < m.len() && m[i].0@ == p implies entry_of(m, p) == Some(m[i].1) by {
                assert(t[i - 1] == m[i]);
            }
            if entry_of(m, p) is None {
                assert forall|i: int| 0 <= i < m.len() implies m[i].0@ != p by {
                    if i > 0 {
                        assert(t[i - 1] == m[i]);
                    }
                }
            } else {
                let i = choose|i: int| 0 <= i < t.len() && t[i].0@ == p;
                assert(m[i + 1] == t[i]);
            }
        }
    }
}

/// The position of the entry with key `p`.
fn position_of<T>(m: &Vec<(String, T)>, p: &str) -> (r: Option<usize>)
    ensures
        match r {
            Some(i) => i < m@.len() && m@[i as int].0@ == p@,
            None => forall|i: int| 0 <= i < m@.len() ==> m@[i].0@ != p@,
        },
{
    let pc = crate::external::str_to_chars(p);
    let mut i: usize = 0;
    while i < m.len()
        invariant
            i <= m@.len(),
            pc@ == p@,
            forall|j: int| 0 <= j < i ==> m@[j].0@ != p@,
        decreases m@.len() - i,
    {
        let kc = crate::external::str_to_chars(m[i].0.as_str());
        if crate::text::text_equal(kc.as_slice(), pc.as_slice()) {
            return Some(i);
        }
        i += 1;
    }
    None
}

/// Sets the value of key `p`, and gives the value it had.
pub fn set_entry<T: Copy>(m: &mut Vec<(String, T)>, p: &str, v: T) -> (prev: Option<T>)
    requires
        distinct_keys(old(m)@),
    ensures
        distinct_keys(final(m)@),
        prev == entry_of(old(m)@, p@),
        forall|q: Seq<char>| #[trigger] entry_of(final(m)@, q) == if q == p@ { Some(v) } else { entry_of(old(m)@, q) },
{
    let ghost m0 = m@;
    proof {
        lemma_entry_of(m0, p@);
    }
    match position_of(m, p) {
        Some(i) => {
            let prev = m[i].1;
            let key = m[i].0.clone();
            m.set(i, (key, v));
            proof {
                assert(distinct_keys(m@)) by {
                    assert forall|a: int, b: int| 0 <= a < b < m@.len() implies m@[a].0@ != m@[b].0@ by {
                        assert(m@[a].0@ == m0[a].0@ && m@[b].0@ == m0[b].0@);
                    }
                }
                assert forall|q: Seq<char>| #[trigger] entry_of(m@, q) == if q == p@ { Some(v) } else { entry_of(m0, q) } by {
                    lemma_entry_of(m@, q);
                    lemma_entry_of(m0, q);
                    if q != p@ {
                        if entry_of(m0, q) is Some {
                            let j = choose|j: int| 0 <= j < m0.len() && m0[j].0@ == q;
                            assert(m@[j] == m0[j]);
                        } else {
                            assert forall|j: int| 0 <= j < m@.len() implies m@[j].0@ != q by {
                                assert(m@[j].0@ == m0[j].0@);
                            }
                        }
                    } else {
                        assert(m@[i as int].0@ == q);
                    }
                }
            }
            Some(prev)
        },
        None => {
            m.push((p.to_string(), v));
            proof {
                assert(distinct_keys(m@)) by {
                    assert forall|a: int, b: int| 0 <= a < b < m@.len() implies m@[a].0@ != m@[b].0@ by {
                        assert(m@[a] == m0[a]);
                        if b < m0.len() {
                            assert(m@[b] == m0[b]);
                        }
                    }
                }
                assert forall|q: Seq<char>| #[trigger] entry_of(m@, q) == if q == p@ { Some(v) } else { entry_of(m0, q) } by {
                    lemma_entry_of(m@, q);
                    lemma_entry_of(m0, q);
                    if q != p@ {
                        if entry_of(m0, q) is Some {
                            let j = choose|j: int| 0 <= j < m0.len() && m0[j].0@ == q;
                            assert(m@[j] == m0[j]);
                        } else {
                            assert forall|j: int| 0 <= j < m@.len() implies m@[j].0@ != q by {
                                if j < m0.len() {
                                    assert(m@[j] == m0[j]);
                                }
                            }
                        }
                    } else {
                        assert(m@[m0.len() as int].0@ == q);
                    }
                }
            }
            None
        },
    }
}

/// Removes the entry with key `p`, and gives the value it had.
pub fn remove_entry<T: Copy>(m: &mut Vec<(String, T)>, p: &str) -> (prev: Option<T>)
    requires
        distinct_keys(old(m)@),
    ensures
        distinct_keys(final(m)@),
        prev == entry_of(old(m)@, p@),
        forall|q: Seq<char>| #[trigger] entry_of(final(m)@, q) == if q == p@ { None } else { entry_of(old(m)@, q) },
{
    let ghost m0 = m@;
    proof {
        lemma_entry_of(m0, p@);
    }
    match position_of(m, p) {
        Some(i) => {
            let prev = m[i].1;
            m.remove(i);
            proof {
                assert(m@ =~= m0.remove(i as int));
                assert(distinct_keys(m@)) by {
                    assert forall|a: int, b: int| 0 <= a < b < m@.len() implies m@[a].0@ != m@[b].0@ by {
                        let a0 = if a < i { a } else { a + 1 };
                        let b0 = if b < i { b } else { b + 1 };
                        assert(m@[a] == m0[a0] && m@[b] == m0[b0]);
                    }
                }
                assert forall|q: Seq<char>| #[trigger] entry_of(m@, q) == if q == p@ { None } else { entry_of(m0, q) } by {
                    lemma_entry_of(m@, q);
                    lemma_entry_of(m0, q);
                    if q != p@ {
                        if entry_of(m0, q) is Some {
                            let j = choose|j: int| 0 <= j < m0.len() && m0[j].0@ == q;
                            assert(j != i);
                            let j1 = if j < i { j } else { j - 1 };
                            assert(m@[j1] == m0[j]);
                        } else {
                            assert forall|j: int| 0 <= j < m@.len() implies m@[j].0@ != q by {
                                let j0 = if j < i { j } else { j + 1 };
                                assert(m@[j] == m0[j0]);
                            }
                        }
                    } else {
                        assert forall|j: int| 0 <= j < m@.len() implies m@[j].0@ != q by {
                            let j0 = if j < i { j } else { j + 1 };
                            assert(m@[j] == m0[j0]);
                            assert(m0[j0].0@ != m0[i as int].0@);
                        }
                    }
                }
            }
            Some(prev)
        },
        None => {
            proof {
                assert forall|q: Seq<char>| #[trigger] entry_of(m@, q) == if q == p@ { None } else { entry_of(m0, q) } by {
                    lemma_entry_of(m0, q);
                }
            }
            None
        },
    }
}

/// A list of entries as the map it stands for.
pub open spec fn as_map<T>(m: Seq<(String, T)>) -> Map<Seq<char>, T> {
    Map::new(|q: Seq<char>| entry_of(m, q) is Some, |q: Seq<char>| entry_of(m, q)->Some_0)
}

/// Whether some hash of the list has these bytes.
pub open spec fn has_hash(v: Seq<crate::hash::Hash>, h: Seq<u8>) -> bool {
    exists|i: int| 0 <= i < v.len() && (#[trigger] v[i])@ == h
}

/// No hash occurs twice.
pub open spec fn distinct_hashes(v: Seq<crate::hash::Hash>) -> bool {
    forall|i: int, j: int| 0 <= i < j < v.len() ==> (#[trigger] v[i])@ != (#[trigger] v[j])@
}

/// A list of hashes as the set it stands for.
pub open spec fn as_set(v: Seq<crate::hash::Hash>) -> Set<Seq<u8>> {
    Set::new(|h: Seq<u8>| has_hash(v, h))
}

/// Takes a hash out of a list of distinct hashes.
pub fn remove_hash(v: &mut Vec<crate::hash::Hash>, h: crate::hash::Hash)
    requires
        distinct_hashes(old(v)@),
    ensures
        distinct_hashes(final(v)@),
        as_set(final(v)@) == as_set(old(v)@).remove(h@),
{
    let ghost v0 = v@;
    let mut i: usize = 0;
    while i < v.len()
        invariant
            v@ == v0,
            v0 == old(v)@,
            distinct_hashes(v0),
            i <= v@.len(),
            forall|j: int| 0 <= j < i ==> (#[trigger] v@[j])@ != h@,
        decreases v@.len() - i,
    {
        if v[i] == h {
            proof {
                assert(v0[i as int]@ == h@);
            }
            v.remove(i);
            proof {
                assert(v@ =~= v0.remove(i as int));
                assert(distinct_hashes(v@)) by {
                    assert forall|a: int, b: int| 0 <= a < b < v@.len() implies (#[trigger] v@[a])@ != (#[trigger] v@[b])@ by {
                        let a0 = if a < i { a } else { a + 1 };
                        let b0 = if b < i { b } else { b + 1 };
                        assert(v@[a] == v0[a0] && v@[b] == v0[b0]);
                    }
                }
                assert forall|x: Seq<u8>| #[trigger] as_set(v@).contains(x) == as_set(v0).remove(h@).contains(x) by {
                    if has_hash(v@, x) {
                        let j = choose|j: int| 0 <= j < v@.len() && (#[trigger] v@[j])@ == x;
                        let j0 = if j < i { j } else { j + 1 };
                        assert(v@[j] == v0[j0]);
                        assert(v0[j0]@ != v0[i as int]@);
                    }
                    if has_hash(v0, x) && x != h@ {
                        let j = choose|j: int| 0 <= j < v0.len() && (#[trigger] v0[j])@ == x;
                        assert(j != i);
                        let j1 = if j < i { j } else { j - 1 };
                        assert(v@[j1] == v0[j]);
                    }
                }
                assert(as_set(v@) =~= as_set(v0).remove(h@));
            }
            return;
        }
        i += 1;
    }
    proof {
        assert forall|x: Seq<u8>| #[trigger] as_set(v@).contains(x) == as_set(v0).remove(h@).contains(x) by {
            if has_hash(v0, x) && x == h@ {
                let j = choose|j: int| 0 <= j < v0.len() && (#[trigger] v0[j])@ == x;
            }
        }
        assert(as_set(v@) =~= as_set(v0).remove(h@));
    }
}

/// Adds a hash to a list of distinct hashes, unless it is there.
pub fn insert_hash(v: &mut Vec<crate::hash::Hash>, h: crate::hash::Hash)
    requires
        distinct_hashes(old(v)@),
    ensures
        distinct_hashes(final(v)@),
        as_set(final(v)@) == as_set(old(v)@).insert(h@),
{
    let ghost v0 = v@;
    let mut i: usize = 0;
    while i < v.len()
        invariant
            v@ == v0,
            v0 == old(v)@,
            distinct_hashes(v0),
            i <= v@.len(),
            forall|j: int| 0 <= j < i ==> (#[trigger] v@[j])@ != h@,
        decreases v@.len() - i,
    {
        if v[i] == h {
            proof {
                assert(as_set(v@) =~= as_set(v0).insert(h@));
            }
            return;
        }
        i += 1;
    }
    v.push(h);
    proof {
        assert(distinct_hashes(v@)) by {
            assert forall|a: int, b: int| 0 <= a < b < v@.len() implies (#[trigger] v@[a])@ != (#[trigger] v@[b])@ by {
                assert(v@[a] == v0[a]);
                if b < v0.len() {
                    assert(v@[b] == v0[b]);
                }
            }
        }
        assert forall|x: Seq<u8>| #[trigger] as_set(v@).contains(x) == as_set(v0).insert(h@).contains(x) by {
            if has_hash(v@, x) {
                let j = choose|j: int| 0 <= j < v@.len() && (#[trigger] v@[j])@ == x;
                if j < v0.len() {
                    assert(v@[j] == v0[j]);
                }
            }
            if has_hash(v0, x) {
                let j = choose|j: int| 0 <= j < v0.len() && (#[trigger] v0[j])@ == x;
                assert(v@[j] == v0[j]);
            }
            if x == h@ {
                assert(v@[v0.len() as int]@ == x);
            }
        }
        assert(as_set(v@) =~= as_set(v0).insert(h@));
    }
}

/// The state that actions change: the index, the heads and the bookmarks.
pub struct RepoState {
    pub index: Vec<(String, IndexEntry)>,
    pub heads: Vec<crate::hash::Hash>,
    pub refs: Vec<(String, crate::hash::Hash)>,
}

/// The index after undoing an action: a stage is taken back by restoring
/// the entry the path had (or removing the path when it had none); an
/// unstage is taken back by putting the removed entry back.
pub open spec fn undo_index(idx: Map<Seq<char>, IndexEntry>, a: UndoAction) -> Map<Seq<char>, IndexEntry> {
    match a {
        UndoAction::Unstage { path, old_entry } => match old_entry {
            Some(e) => idx.insert(path@, e),
            None => idx.remove(path@),
        },
        UndoAction::Stage { path, entry } => idx.insert(path@, entry),
        _ => idx,
    }
}

/// The heads after undoing an action: a commit or checkout is taken back by
/// dropping the head it made and restoring the one it replaced.
pub open spec fn undo_heads(hs: Set<Seq<u8>>, a: UndoAction) -> Set<Seq<u8>> {
    match a {
        UndoAction::RevertCommit { old_head, new_head } | UndoAction::Checkout { old_head, new_head } => {
            let r = hs.remove(new_head@);
            match old_head {
                Some(o) => r.insert(o@),
                None => r,
            }
        },
        _ => hs,
    }
}

/// The bookmarks after undoing an action: a bookmark move is taken back by
/// pointing the bookmark where it pointed before, or removing it.
pub open spec fn undo_refs(refs: Map<Seq<char>, crate::hash::Hash>, a: UndoAction) -> Map<Seq<char>, crate::hash::Hash> {
    match a {
        UndoAction::MoveBookmark { name, old_hash, .. } => match old_hash {
            Some(o) => refs.insert(name@, o),
            None => refs.remove(name@),
        },
        _ => refs,
    }
}

/// The heads after a commit on `parent`: the parent stops being a head and
/// the commit becomes one.
pub open spec fn committed_heads(hs: Set<Seq<u8>>, parent: Option<crate::hash::Hash>, commit: crate::hash::Hash) -> Set<Seq<u8>> {
    (match parent {
        Some(p) => hs.remove(p@),
        None => hs,
    }).insert(commit@)
}

impl RepoState {
    /// No path, head or bookmark occurs twice.
    pub open spec fn wf(&self) -> bool {
        &&& distinct_keys(self.index@)
        &&& distinct_hashes(self.heads@)
        &&& distinct_keys(self.refs@)
    }

    /// Stages an entry for `path`; gives the record that undoes it.
    pub fn stage(&mut self, path: &str, entry: IndexEntry) -> (a: UndoAction)
        requires
            old(self).wf(),
        ensures
            final(self).wf(),
            as_map(final(self).index@) == as_map(old(self).index@).insert(path@, entry),
            final(self).heads@ == old(self).heads@,
            final(self).refs@ == old(self).refs@,
            a matches UndoAction::Unstage { path: p, old_entry: o } && p@ == path@ && o == entry_of(old(self).index@, path@),
    {
        let ghost before = as_map(self.index@);
        let prev = set_entry(&mut self.index, path, entry);
        proof {
            assert(as_map(self.index@) =~= before.insert(path@, entry));
        }
        UndoAction::Unstage { path: path.to_string(), old_entry: prev }
    }

    /// Unstages `path`; gives the record that undoes it, when the path was
    /// staged.
    pub fn unstage(&mut self, path: &str) -> (a: Option<UndoAction>)
        requires
            old(self).wf(),
        ensures
            final(self).wf(),
            as_map(final(self).index@) == as_map(old(self).index@).remove(path@),
            final(self).heads@ == old(self).heads@,
            final(self).refs@ == old(self).refs@,
            match entry_of(old(self).index@, path@) {
                Some(e) => a matches Some(UndoAction::Stage { path: p, entry: x }) && p@ == path@ && x == e,
                None => a is None,
            },
    {
        let ghost before = as_map(self.index@);
        let prev = remove_entry(&mut self.index, path);
        proof {
            assert(as_map(self.index@) =~= before.remove(path@));
        }
        match prev {
            Some(e) => Some(UndoAction::Stage { path: path.to_string(), entry: e }),
            None => None,
        }
    }

    /// Records a commit on `parent` as the new head; gives the record that
    /// undoes it.
    pub fn commit(&mut self, parent: Option<crate::hash::Hash>, commit: crate::hash::Hash) -> (a: UndoAction)
        requires
            old(self).wf(),
        ensures
            final(self).wf(),
            as_set(final(self).heads@) == committed_heads(as_set(old(self).heads@), parent, commit),
            final(self).index@ == old(self).index@,
            final(self).refs@ == old(self).refs@,
            a == (UndoAction::RevertCommit { old_head: parent, new_head: commit }),
    {
        if let Some(p) = parent {
            remove_hash(&mut self.heads, p);
        }
        insert_hash(&mut self.heads, commit);
        UndoAction::RevertCommit { old_head: parent, new_head: commit }
    }

    /// Points bookmark `name` at `hash`; gives the record that undoes it.
    pub fn move_bookmark(&mut self, name: &str, hash: crate::hash::Hash) -> (a: UndoAction)
        requires
            old(self).wf(),
        ensures
            final(self).wf(),
            as_map(final(self).refs@) == as_map(old(self).refs@).insert(name@, hash),
            final(self).index@ == old(self).index@,
            final(self).heads@ == old(self).heads@,
            a matches UndoAction::MoveBookmark { name: n, old_hash: o, new_hash: h }
                && n@ == name@ && o == entry_of(old(self).refs@, name@) && h == hash,
    {
        let ghost before = as_map(self.refs@);
        let prev = set_entry(&mut self.refs, name, hash);
        proof {
            assert(as_map(self.refs@) =~= before.insert(name@, hash));
        }
        UndoAction::MoveBookmark { name: name.to_string(), old_hash: prev, new_hash: hash }
    }

    /// Takes back the action that `action` records.
    pub fn apply_undo(&mut self, action: &UndoAction)
        requires
            old(self).wf(),
        ensures
            final(self).wf(),
            as_map(final(self).index@) == undo_index(as_map(old(self).index@), *action),
            as_set(final(self).heads@) == undo_heads(as_set(old(self).heads@), *action),
            as_map(final(self).refs@) == undo_refs(as_map(old(self).refs@), *action),
    {
        let ghost idx0 = as_map(self.index@);
        let ghost refs0 = as_map(self.refs@);
        match action {
            UndoAction::Unstage { path, old_entry } => {
                match old_entry {
                    Some(e) => {
                        set_entry(&mut self.index, path.as_str(), *e);
                        proof {
                            assert(as_map(self.index@) =~= idx0.insert(path@, *e));
                        }
                    },
                    None => {
                        remove_entry(&mut self.index, path.as_str());
                        proof {
                            assert(as_map(self.index@) =~= idx0.remove(path@));
                        }
                    },
                }
            },
            UndoAction::Stage { path, entry } => {
                set_entry(&mut self.index, path.as_str(), *entry);
                proof {
                    assert(as_map(self.index@) =~= idx0.insert(path@, *entry));
                }
            },
            UndoAction::RevertCommit { old_head, new_head } | UndoAction::Checkout { old_head, new_head } => {
                remove_hash(&mut self.heads, *new_head);
                if let Some(o) = old_head {
                    insert_hash(&mut self.heads, *o);
                }
            },
            UndoAction::MoveBookmark { name, old_hash, .. } => {
                match old_hash {
                    Some(o) => {
                        set_entry(&mut self.refs, name.as_str(), *o);
                        proof {
                            assert(as_map(self.refs@) =~= refs0.insert(name@, *o));
                        }
                    },
                    None => {
                        remove_entry(&mut self.refs, name.as_str());
                        proof {
                            assert(as_map(self.refs@) =~= refs0.remove(name@));
                        }
                    },
                }
            },
        }
    }
}

/// Undoing a stage gives the index back: staging `path` over an index and
/// then undoing with the record the stage returned (the entry the path had
/// before, if any) leaves the index as it was.
pub proof fn law_undo_stage_restores_index(
    idx: Map<Seq<char>, IndexEntry>,
    path: String,
    entry: IndexEntry,
    old_entry: Option<IndexEntry>,
)
    requires
        old_entry == (if idx.contains_key(path@) { Some(idx[path@]) } else { None::<IndexEntry> }),
    ensures
        undo_index(idx.insert(path@, entry), UndoAction::Unstage { path, old_entry }) == idx,
{
    match old_entry {
        Some(e) => {
            assert(idx.insert(path@, entry).insert(path@, e) =~= idx);
        },
        None => {
            assert(idx.insert(path@, entry).remove(path@) =~= idx);
        },
    }
}

/// Undoing an unstage gives the index back: removing a staged `path` and
/// then undoing with the record the unstage returned (the entry it
/// removed) leaves the index as it was.
pub proof fn law_undo_unstage_restores_index(idx: Map<Seq<char>, IndexEntry>, path: String)
    requires
        idx.contains_key(path@),
    ensures
        undo_index(idx.remove(path@), UndoAction::Stage { path, entry: idx[path@] }) == idx,
{
    assert(idx.remove(path@).insert(path@, idx[path@]) =~= idx);
}

/// Undoing a commit gives the heads back: committing on `parent` (a head,
/// when there is one) a commit that is not yet a head, then undoing with
/// the commit's record, leaves the heads as they were.
pub proof fn law_undo_commit_restores_heads(hs: Set<Seq<u8>>, parent: Option<crate::hash::Hash>, commit: crate::hash::Hash)
    requires
        !hs.contains(commit@),
        parent matches Some(p) ==> hs.contains(p@),
    ensures
        undo_heads(committed_heads(hs, parent, commit), UndoAction::RevertCommit { old_head: parent, new_head: commit }) == hs,
{
    match parent {
        Some(p) => {
            assert(hs.remove(p@).insert(commit@).remove(commit@).insert(p@) =~= hs);
        },
        None => {
            assert(hs.insert(commit@).remove(commit@) =~= hs);
        },
    }
}

/// Undoing a bookmark move gives the bookmarks back: moving `name` and then
/// undoing with the move's record (where the bookmark pointed before, if
/// anywhere) leaves the bookmarks as they were.
pub proof fn law_undo_move_restores_bookmarks(
    refs: Map<Seq<char>, crate::hash::Hash>,
    name: String,
    hash: crate::hash::Hash,
    old_hash: Option<crate::hash::Hash>,
)
    requires
        old_hash == (if refs.contains_key(name@) { Some(refs[name@]) } else { None::<crate::hash::Hash> }),
    ensures
        undo_refs(refs.insert(name@, hash), UndoAction::MoveBookmark { name, old_hash, new_hash: hash }) == refs,
{
    match old_hash {
        Some(o) => {
            assert(refs.insert(name@, hash).insert(name@, o) =~= refs);
        },
        None => {
            assert(refs.insert(name@, hash).remove(name@) =~= refs);
        },
    }
}

/// Undoing an action touches only what the action changed: the index only
/// for stage records, the heads only for commit and checkout records, the
/// bookmarks only for bookmark records.
pub proof fn law_undo_changes_only_its_part(
    idx: Map<Seq<char>, IndexEntry>,
    hs: Set<Seq<u8>>,
    refs: Map<Seq<char>, crate::hash::Hash>,
    a: UndoAction,
)
    ensures
        !(a is Unstage || a is Stage) ==> undo_index(idx, a) == idx,
        !(a is RevertCommit || a is Checkout) ==> undo_heads(hs, a) == hs,
        !(a is MoveBookmark) ==> undo_refs(refs, a) == refs,
{
}

/// Undoing a checkout gives the head back: a checkout replaces the head
/// (`old_head`, or none) by `new_head`; undoing with the checkout's record
/// drops `new_head` and restores `old_head`.
pub proof fn law_undo_checkout_restores_heads(old_head: Option<crate::hash::Hash>, new_head: crate::hash::Hash)
    ensures
        undo_heads(set![new_head@], UndoAction::Checkout { old_head, new_head })
            == (match old_head {
                Some(o) => set![o@],
                None => Set::<Seq<u8>>::empty(),
            }),
        !undo_heads(set![new_head@], UndoAction::Checkout { old_head, new_head }).contains(new_head@)
            || (old_head matches Some(o) && o@ == new_head@),
{
    match old_head {
        Some(o) => {
            assert(set![new_head@].remove(new_head@).insert(o@) =~= set![o@]);
        },
        None => {
            assert(set![new_head@].remove(new_head@) =~= Set::<Seq<u8>>::empty());
        },
    }
}

} // verus!
