//! The walk over the object graph that a push needs: it needs the
//! repository's storage at every step, so it is a state machine that says
//! which object it needs to look at next and is told what that object
//! points to.

use vstd::prelude::*;
use crate::error::GikError;
use crate::models::CommitMeta;
use crate::undo::{as_set, distinct_hashes, has_hash, insert_hash};

verus! {

/// What an object points to: a commit its tree and then its parents, a
/// tree its entries' objects, anything else nothing.
pub open spec fn spec_children(meta: Option<CommitMeta>, stored: Option<Seq<u8>>) -> Option<Seq<Seq<u8>>> {
    match meta {
        Some(m) => Some(seq![m.tree_hash@] + crate::objects::hash_views(m.parent_hashes@)),
        None => match stored {
            None => Some(Seq::empty()),
            Some(data) => match crate::objects::spec_decompress_object(data) {
                None => None,
                Some((kind, _, content)) => if kind == "tree"@ {
                    match crate::objects::spec_parse_tree(content) {
                        None => None,
                        Some(es) => Some(es.map_values(|e: (u32, Seq<char>, Seq<u8>)| e.2)),
                    }
                } else {
                    Some(Seq::empty())
                },
            },
        },
    }
}

/// The objects an object points to, given its commit metadata (if it is a
/// commit) or its stored form (if it is stored). Fails when the stored
/// form cannot be read.
pub fn object_children(meta: Option<&CommitMeta>, stored: Option<&[u8]>) -> (r: Result<Vec<crate::hash::Hash>, GikError>)
    ensures
        match spec_children(match meta { Some(m) => Some(*m), None => None }, match stored { Some(s) => Some(s@), None => None }) {
            Some(cs) => r matches Ok(v) && crate::objects::hash_views(v@) == cs,
            None => r is Err,
        },
{
    match meta {
        Some(m) => {
            let mut v: Vec<crate::hash::Hash> = Vec::new();
            v.push(m.tree_hash);
            let mut k: usize = 0;
            while k < m.parent_hashes.len()
                invariant
                    k <= m.parent_hashes@.len(),
                    crate::objects::hash_views(v@) == seq![m.tree_hash@] + crate::objects::hash_views(
                        m.parent_hashes@.subrange(0, k as int),
                    ),
                decreases m.parent_hashes@.len() - k,
            {
                let ghost prev = crate::objects::hash_views(v@);
                v.push(m.parent_hashes[k]);
                proof {
                    assert(crate::objects::hash_views(v@) =~= prev.push(m.parent_hashes@[k as int]@));
                    assert(crate::objects::hash_views(m.parent_hashes@.subrange(0, k + 1)) =~= crate::objects::hash_views(
                        m.parent_hashes@.subrange(0, k as int),
                    ).push(m.parent_hashes@[k as int]@));
                }
                k += 1;
                assert(crate::objects::hash_views(v@) =~= seq![m.tree_hash@] + crate::objects::hash_views(
                    m.parent_hashes@.subrange(0, k as int),
                ));
            }
            assert(m.parent_hashes@.subrange(0, k as int) =~= m.parent_hashes@);
            Ok(v)
        },
        None => match stored {
            None => {
                let v: Vec<crate::hash::Hash> = Vec::new();
                assert(crate::objects::hash_views(v@) =~= Seq::<Seq<u8>>::empty());
                Ok(v)
            },
            Some(data) => {
                let (kind, _size, content) = match crate::objects::decompress_object(data) {
                    Ok(x) => x,
                    Err(e) => return Err(e),
                };
                let kc = crate::external::str_to_chars(kind.as_str());
                let tree = crate::external::str_to_chars("tree");
                if crate::text::text_equal(kc.as_slice(), tree.as_slice()) {
                    let entries = match crate::objects::parse_tree(content.as_slice()) {
                        Ok(es) => es,
                        Err(e) => return Err(e),
                    };
                    let mut v: Vec<crate::hash::Hash> = Vec::new();
                    let mut k: usize = 0;
                    while k < entries.len()
                        invariant
                            k <= entries@.len(),
                            crate::objects::hash_views(v@) == crate::objects::entries_view(entries@).subrange(0, k as int).map_values(
                                |e: (u32, Seq<char>, Seq<u8>)| e.2,
                            ),
                        decreases entries@.len() - k,
                    {
                        let ghost prev = crate::objects::hash_views(v@);
                        v.push(entries[k].2);
                        proof {
                            assert(crate::objects::hash_views(v@) =~= prev.push(entries@[k as int].2@));
                            assert(crate::objects::entries_view(entries@).subrange(0, k + 1) =~= crate::objects::entries_view(
                                entries@,
                            ).subrange(0, k as int).push(crate::objects::entry_view(entries@[k as int])));
                        }
                        k += 1;
                        assert(crate::objects::hash_views(v@) =~= crate::objects::entries_view(entries@).subrange(0, k as int).map_values(
                            |e: (u32, Seq<char>, Seq<u8>)| e.2,
                        ));
                    }
                    assert(crate::objects::entries_view(entries@).subrange(0, k as int) =~= crate::objects::entries_view(entries@));
                    Ok(v)
                } else {
                    let v: Vec<crate::hash::Hash> = Vec::new();
                    assert(crate::objects::hash_views(v@) =~= Seq::<Seq<u8>>::empty());
                    Ok(v)
                }
            },
        },
    }
}

/// The first position at or after `i` whose hash is not in `ex`, or the
/// length of the queue.
pub open spec fn first_new(q: Seq<Seq<u8>>, i: int, ex: Set<Seq<u8>>) -> int
    decreases q.len() - i,
{
    if i < 0 || i >= q.len() {
        q.len() as int
    } else if ex.contains(q[i]) {
        first_new(q, i + 1, ex)
    } else {
        i
    }
}

pub proof fn lemma_first_new(q: Seq<Seq<u8>>, i: int, ex: Set<Seq<u8>>)
    requires
        0 <= i <= q.len(),
    ensures
        i <= first_new(q, i, ex) <= q.len(),
        first_new(q, i, ex) < q.len() ==> !ex.contains(q[first_new(q, i, ex)]),
    decreases q.len() - i,
{
    if i < q.len() && ex.contains(q[i]) {
        lemma_first_new(q, i + 1, ex);
    }
}

/// Whether the list holds the hash.
pub fn contains_hash(v: &Vec<crate::hash::Hash>, h: crate::hash::Hash) -> (r: bool)
    ensures
        r == has_hash(v@, h@),
{
    let mut k: usize = 0;
    while k < v.len()
        invariant
            k <= v@.len(),
            forall|j: int| 0 <= j < k ==> (#[trigger] v@[j])@ != h@,
        decreases v@.len() - k,
    {
        if v[k] == h {
            return true;
        }
        k += 1;
    }
    false
}

/// What a walk needs next.
#[derive(Debug, PartialEq, Eq)]
pub enum WalkStep {
    /// What this object points to.
    NeedChildren(crate::hash::Hash),
    /// The walk is over.
    Done,
}

/// Finds the objects a push must send: first every object reachable from
/// the remote's head is marked known; then the objects reachable from the
/// local head that are not known are collected, in breadth-first order.
pub struct MissingWalk {
    local: crate::hash::Hash,
    phase: u8,
    queue: Vec<crate::hash::Hash>,
    head: usize,
    known: Vec<crate::hash::Hash>,
    visited: Vec<crate::hash::Hash>,
    missing: Vec<crate::hash::Hash>,
}

impl MissingWalk {
    /// 1 while marking known objects, 2 while collecting missing ones, 3
    /// when done.
    pub closed spec fn phase(&self) -> u8 {
        self.phase
    }

    /// The objects waiting to be looked at, and those already taken.
    pub closed spec fn queue(&self) -> Seq<Seq<u8>> {
        crate::objects::hash_views(self.queue@)
    }

    /// How many objects of the queue were taken.
    pub closed spec fn head(&self) -> int {
        self.head as int
    }

    /// The objects known to the remote so far.
    pub closed spec fn known(&self) -> Set<Seq<u8>> {
        as_set(self.known@)
    }

    /// The objects collected so far while collecting.
    pub closed spec fn visited(&self) -> Set<Seq<u8>> {
        as_set(self.visited@)
    }

    /// The objects found missing so far, in order.
    pub closed spec fn missing_so_far(&self) -> Seq<Seq<u8>> {
        crate::objects::hash_views(self.missing@)
    }

    /// The local head.
    pub closed spec fn local(&self) -> Seq<u8> {
        self.local@
    }

    pub closed spec fn wf(&self) -> bool {
        &&& 1 <= self.phase <= 3
        &&& self.head <= self.queue@.len()
        &&& distinct_hashes(self.known@)
        &&& distinct_hashes(self.visited@)
        &&& self.phase == 1 ==> self.visited@.len() == 0 && self.missing@.len() == 0
    }

    /// A walk from the remote's head (when the remote has one) and the
    /// local head.
    pub fn new(remote_head: Option<crate::hash::Hash>, local_head: crate::hash::Hash) -> (w: MissingWalk)
        ensures
            w.wf(),
            w.local() == local_head@,
            w.known() == Set::<Seq<u8>>::empty(),
            w.visited() == Set::<Seq<u8>>::empty(),
            w.missing_so_far().len() == 0,
            w.head() == 0,
            match remote_head {
                Some(r) => w.phase() == 1 && w.queue() == seq![r@],
                None => w.phase() == 2 && w.queue() == seq![local_head@],
            },
    {
        let mut queue: Vec<crate::hash::Hash> = Vec::new();
        let phase: u8 = match remote_head {
            Some(r) => {
                queue.push(r);
                1
            },
            None => {
                queue.push(local_head);
                2
            },
        };
        let w = MissingWalk { local: local_head, phase, queue, head: 0, known: Vec::new(), visited: Vec::new(), missing: Vec::new() };
        proof {
            assert(w.known() =~= Set::<Seq<u8>>::empty());
            assert(w.visited() =~= Set::<Seq<u8>>::empty());
            assert(w.queue() =~= seq![w.queue@[0]@]);
        }
        w
    }

    /// Takes the next object to look at: while marking, the next queued
    /// object not yet known; while collecting, the next queued object
    /// neither known nor collected (which is then collected). When marking
    /// runs out, collecting starts from the local head; when collecting runs
    /// out, the walk is done.
    pub fn next_step(&mut self) -> (r: WalkStep)
        requires
            old(self).wf(),
        ensures
            final(self).wf(),
            final(self).local() == old(self).local(),
            ({
                let q = old(self).queue();
                let i = first_new(q, old(self).head(), old(self).known());
                old(self).phase() == 1 && i < q.len() ==> {
                    &&& r matches WalkStep::NeedChildren(h) && h@ == q[i]
                    &&& final(self).phase() == 1
                    &&& final(self).queue() == q
                    &&& final(self).head() == i + 1
                    &&& final(self).known() == old(self).known().insert(q[i])
                    &&& final(self).visited() == old(self).visited()
                    &&& final(self).missing_so_far() == old(self).missing_so_far()
                }
            }),
            ({
                let q = old(self).queue();
                let i = first_new(q, old(self).head(), old(self).known());
                let l = old(self).local();
                old(self).phase() == 1 && i >= q.len() ==> {
                    &&& final(self).queue() == seq![l]
                    &&& final(self).head() == 1
                    &&& final(self).known() == old(self).known()
                    &&& if old(self).known().contains(l) {
                        &&& r is Done
                        &&& final(self).phase() == 3
                        &&& final(self).missing_so_far().len() == 0
                    } else {
                        &&& r matches WalkStep::NeedChildren(h) && h@ == l
                        &&& final(self).phase() == 2
                        &&& final(self).visited() == Set::<Seq<u8>>::empty().insert(l)
                        &&& final(self).missing_so_far() == seq![l]
                    }
                }
            }),
            ({
                let q = old(self).queue();
                let i = first_new(q, old(self).head(), old(self).known().union(old(self).visited()));
                old(self).phase() == 2 ==> {
                    &&& final(self).queue() == q
                    &&& final(self).known() == old(self).known()
                    &&& if i < q.len() {
                        &&& r matches WalkStep::NeedChildren(h) && h@ == q[i]
                        &&& final(self).phase() == 2
                        &&& final(self).head() == i + 1
                        &&& final(self).visited() == old(self).visited().insert(q[i])
                        &&& final(self).missing_so_far() == old(self).missing_so_far().push(q[i])
                    } else {
                        &&& r is Done
                        &&& final(self).phase() == 3
                        &&& final(self).head() == q.len()
                        &&& final(self).visited() == old(self).visited()
                        &&& final(self).missing_so_far() == old(self).missing_so_far()
                    }
                }
            }),
            old(self).phase() == 3 ==> r is Done && *final(self) == *old(self),
    {
        if self.phase == 3 {
            return WalkStep::Done;
        }
        if self.phase == 1 {
            let ghost q = self.queue();
            let ghost ex = self.known();
            while self.head < self.queue.len() && contains_hash(&self.known, self.queue[self.head])
                invariant
                    self.head <= self.queue@.len(),
                    q == self.queue(),
                    ex == self.known(),
                    self.queue@ == old(self).queue@,
                    self.known@ == old(self).known@,
                    self.visited@ == old(self).visited@,
                    self.missing@ == old(self).missing@,
                    self.local == old(self).local,
                    self.phase == old(self).phase,
                    old(self).wf(),
                    first_new(q, old(self).head(), ex) == first_new(q, self.head as int, ex),
                decreases self.queue@.len() - self.head,
            {
                self.head = self.head + 1;
            }
            proof {
                lemma_first_new(q, self.head as int, ex);
            }
            if self.head < self.queue.len() {
                let h = self.queue[self.head];
                self.head = self.head + 1;
                insert_hash(&mut self.known, h);
                return WalkStep::NeedChildren(h);
            }
            let mut fresh: Vec<crate::hash::Hash> = Vec::new();
            fresh.push(self.local);
            self.queue = fresh;
            self.head = 1;
            proof {
                assert(self.queue() =~= seq![self.local@]);
            }
            if contains_hash(&self.known, self.local) {
                self.phase = 3;
                return WalkStep::Done;
            }
            self.phase = 2;
            insert_hash(&mut self.visited, self.local);
            self.missing.push(self.local);
            proof {
                assert(self.visited() =~= Set::<Seq<u8>>::empty().insert(self.local@));
                assert(self.missing_so_far() =~= seq![self.local@]);
            }
            return WalkStep::NeedChildren(self.local);
        }
        let ghost q = self.queue();
        let ghost ex = self.known().union(self.visited());
        while self.head < self.queue.len() && (contains_hash(&self.known, self.queue[self.head])
            || contains_hash(&self.visited, self.queue[self.head]))
            invariant
                self.head <= self.queue@.len(),
                q == self.queue(),
                ex == self.known().union(self.visited()),
                self.queue@ == old(self).queue@,
                self.known@ == old(self).known@,
                self.visited@ == old(self).visited@,
                self.missing@ == old(self).missing@,
                self.local == old(self).local,
                self.phase == old(self).phase,
                old(self).wf(),
                first_new(q, old(self).head(), ex) == first_new(q, self.head as int, ex),
            decreases self.queue@.len() - self.head,
        {
            self.head = self.head + 1;
        }
        proof {
            lemma_first_new(q, self.head as int, ex);
        }
        if self.head < self.queue.len() {
            let h = self.queue[self.head];
            self.head = self.head + 1;
            insert_hash(&mut self.visited, h);
            let ghost before = self.missing_so_far();
            self.missing.push(h);
            proof {
                assert(self.missing_so_far() =~= before.push(h@));
            }
            return WalkStep::NeedChildren(h);
        }
        self.phase = 3;
        WalkStep::Done
    }

    /// Queues what the object just taken points to.
    pub fn give_children(&mut self, children: &[crate::hash::Hash])
        requires
            old(self).wf(),
        ensures
            final(self).wf(),
            final(self).queue() == old(self).queue() + crate::objects::hash_views(children@),
            final(self).phase() == old(self).phase(),
            final(self).head() == old(self).head(),
            final(self).known() == old(self).known(),
            final(self).visited() == old(self).visited(),
            final(self).missing_so_far() == old(self).missing_so_far(),
            final(self).local() == old(self).local(),
    {
        let mut k: usize = 0;
        let ghost q0 = self.queue();
        while k < children.len()
            invariant
                k <= children@.len(),
                self.wf(),
                self.queue() == q0 + crate::objects::hash_views(children@.subrange(0, k as int)),
                self.phase() == old(self).phase(),
                self.head() == old(self).head(),
                self.known() == old(self).known(),
                self.visited() == old(self).visited(),
                self.missing_so_far() == old(self).missing_so_far(),
                self.local() == old(self).local(),
            decreases children@.len() - k,
        {
            let ghost before = self.queue();
            self.queue.push(children[k]);
            proof {
                assert(self.queue() =~= before.push(children@[k as int]@));
                assert(crate::objects::hash_views(children@.subrange(0, k + 1)) =~= crate::objects::hash_views(
                    children@.subrange(0, k as int),
                ).push(children@[k as int]@));
            }
            k += 1;
        }
        assert(children@.subrange(0, k as int) =~= children@);
    }

    /// The objects found missing, in the order they were found.
    pub fn into_missing(self) -> (v: Vec<crate::hash::Hash>)
        ensures
            crate::objects::hash_views(v@) == self.missing_so_far(),
    {
        self.missing
    }
}

} // verus!
