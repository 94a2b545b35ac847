//! Reading what a fetched packfile holds: its header, the kind of each
//! entry, the identity of each object, and the metadata of commits.

use vstd::prelude::*;
use vstd::string::StringSliceAdditionalSpecFns;
use crate::error::GikError;
use crate::network::decoded_hash;
use crate::text::{
    join_newline, join_with_newlines, lines, occurs_at, rfind_char, rfind_in, rfind_seq, rfind_str,
    spec_parse_unsigned, split_lines, starts_with, views, lemma_rfind_char,
};
use crate::external::{chars_to_string, spec_utf8_lossy, str_to_chars, utf8_lossy};

verus! {

/// Commit metadata as plain values: tree, parents, author, timestamp.
pub open spec fn meta_start() -> (Seq<u8>, Seq<Seq<u8>>, Seq<char>, u64) {
    (Seq::new(20, |i: int| 0u8), Seq::empty(), Seq::empty(), 0)
}

/// What follows a header line's keyword.
pub open spec fn after_prefix(line: Seq<char>, prefix: Seq<char>) -> Seq<char> {
    line.subrange(prefix.len() as int, line.len() as int)
}

/// The author and time of an author line's rest "<who> <time> +<zone>":
/// the time is what lies between the last space before the last " +" and
/// that " +" (0 when it is not a number that fits); `None` when either
/// separator is missing.
pub open spec fn author_fields(rest: Seq<char>) -> Option<(Seq<char>, u64)> {
    let tz = rfind_seq(rest, " +"@);
    if tz < 0 {
        None
    } else {
        let ts = rfind_char(rest.subrange(0, tz), ' ');
        if ts < 0 {
            None
        } else {
            let t = match spec_parse_unsigned(rest.subrange(ts + 1, tz), 10, u64::MAX as nat) {
                Some(v) => v as u64,
                None => 0,
            };
            Some((rest.subrange(0, ts), t))
        }
    }
}

/// Reads header lines from `i` until the first empty line: "tree " and
/// "parent " lines give hashes (a line whose hash does not decode makes the
/// whole read fail), an "author " line gives author and time, other lines
/// are skipped. Gives the metadata and the index of the first message line.
pub open spec fn scan_headers(
    ls: Seq<Seq<char>>,
    i: int,
    acc: (Seq<u8>, Seq<Seq<u8>>, Seq<char>, u64),
) -> Option<((Seq<u8>, Seq<Seq<u8>>, Seq<char>, u64), int)>
    decreases ls.len() - i,
{
    if i < 0 || i >= ls.len() {
        Some((acc, ls.len() as int))
    } else if ls[i].len() == 0 {
        Some((acc, i + 1))
    } else if starts_with(ls[i], "tree "@) {
        match decoded_hash(vstd::utf8::encode_utf8(after_prefix(ls[i], "tree "@))) {
            None => None,
            Some(h) => scan_headers(ls, i + 1, (h, acc.1, acc.2, acc.3)),
        }
    } else if starts_with(ls[i], "parent "@) {
        match decoded_hash(vstd::utf8::encode_utf8(after_prefix(ls[i], "parent "@))) {
            None => None,
            Some(h) => scan_headers(ls, i + 1, (acc.0, acc.1.push(h), acc.2, acc.3)),
        }
    } else if starts_with(ls[i], "author "@) {
        match author_fields(after_prefix(ls[i], "author "@)) {
            Some((a, t)) => scan_headers(ls, i + 1, (acc.0, acc.1, a, t)),
            None => scan_headers(ls, i + 1, acc),
        }
    } else {
        scan_headers(ls, i + 1, acc)
    }
}

/// A commit's content as text: decoded when it is valid UTF-8, else with
/// invalid sequences replaced as `String::from_utf8_lossy` does.
pub open spec fn commit_text(content: Seq<u8>) -> Seq<char> {
    if vstd::utf8::valid_utf8(content) {
        vstd::utf8::decode_utf8(content)
    } else {
        spec_utf8_lossy(content)
    }
}

/// The metadata of a commit's content (read as UTF-8, invalid sequences
/// replaced): the headers, and as message the lines after the first empty
/// line joined with "\n". `None` when a tree or parent hash is invalid.
pub open spec fn spec_commit_meta(content: Seq<u8>) -> Option<((Seq<u8>, Seq<Seq<u8>>, Seq<char>, u64), Seq<char>)> {
    let ls = split_lines(commit_text(content));
    match scan_headers(ls, 0, meta_start()) {
        None => None,
        Some((acc, start)) => Some((acc, join_newline(ls.subrange(start, ls.len() as int)))),
    }
}

/// Whether a commit's metadata holds the given plain values.
pub open spec fn meta_is(
    m: crate::models::CommitMeta,
    v: ((Seq<u8>, Seq<Seq<u8>>, Seq<char>, u64), Seq<char>),
) -> bool {
    &&& m.tree_hash@ == v.0.0
    &&& crate::objects::hash_views(m.parent_hashes@) == v.0.1
    &&& m.author@ == v.0.2
    &&& m.timestamp == v.0.3
    &&& m.message@ == v.1
}

/// Reads author and time out of an author line's rest.
fn parse_author(rest: &[char]) -> (r: Option<(Vec<char>, u64)>)
    ensures
        match author_fields(rest@) {
            Some((a, t)) => r matches Some((ra, rt)) && ra@ == a && rt == t,
            None => r is None,
        },
{
    let zone = str_to_chars(" +");
    let tz = match rfind_str(rest, zone.as_slice()) {
        Some(k) => k,
        None => return None,
    };
    let ghost before = rest@.subrange(0, tz as int);
    let ts = match rfind_in(rest, tz, ' ') {
        Some(k) => k,
        None => return None,
    };
    proof {
        lemma_rfind_char(before, ' ');
    }
    let num = crate::text::copy_chars(rest, ts + 1, tz);
    let t = match crate::text::parse_unsigned(num.as_slice(), 10, u64::MAX) {
        Some(v) => v,
        None => 0,
    };
    Some((crate::text::copy_chars(rest, 0, ts), t))
}

/// Decodes the hash after a header keyword.
fn header_hash(line: &Vec<char>, skip: usize) -> (r: Result<crate::hash::Hash, GikError>)
    requires
        skip <= line@.len(),
    ensures
        match decoded_hash(vstd::utf8::encode_utf8(line@.subrange(skip as int, line@.len() as int))) {
            Some(h) => r matches Ok(x) && x@ == h,
            None => r matches Err(GikError::Io(_)),
        },
{
    let rest = crate::text::copy_chars(line.as_slice(), skip, line.len());
    let text = chars_to_string(rest.as_slice());
    match crate::hash::Hash::from_hex(text.as_str()) {
        Ok(h) => Ok(h),
        Err(e) => Err(GikError::Io(e)),
    }
}

/// Reads the metadata of a commit from its content: tree, parents, author
/// and time from the header lines, and the message after the first empty
/// line. Fails on a tree or parent line whose hash is not 40 hex digits.
pub fn parse_commit_meta(content: &[u8]) -> (r: Result<crate::models::CommitMeta, GikError>)
    ensures
        match spec_commit_meta(content@) {
            Some(v) => r matches Ok(m) && meta_is(m, v),
            None => r matches Err(GikError::Io(_)),
        },
{
    let text = utf8_lossy(content);
    assert(text@ == commit_text(content@));
    let ls = lines(text.as_slice());
    let ghost all = views(ls@);
    let tree_kw = str_to_chars("tree ");
    let parent_kw = str_to_chars("parent ");
    let author_kw = str_to_chars("author ");
    let mut tree = crate::hash::Hash([0u8; 20]);
    let mut parents: Vec<crate::hash::Hash> = Vec::new();
    let mut author: Vec<char> = Vec::new();
    let mut timestamp: u64 = 0;
    let mut i: usize = 0;
    proof {
        assert(tree@ =~= meta_start().0);
        assert(crate::objects::hash_views(parents@) =~= Seq::<Seq<u8>>::empty());
    }
    let mut body_start: usize = ls.len();
    loop
        invariant
            i <= ls@.len(),
            all == views(ls@),
            all == split_lines(commit_text(content@)),
            tree_kw@ == "tree "@,
            parent_kw@ == "parent "@,
            author_kw@ == "author "@,
            scan_headers(all, 0, meta_start()) == scan_headers(
                all,
                i as int,
                (tree@, crate::objects::hash_views(parents@), author@, timestamp),
            ),
        ensures
            body_start <= ls@.len(),
            scan_headers(all, 0, meta_start()) == Some(
                ((tree@, crate::objects::hash_views(parents@), author@, timestamp), body_start as int),
            ),
        decreases ls@.len() - i,
    {
        if i >= ls.len() {
            body_start = ls.len();
            break;
        }
        let line = &ls[i];
        proof {
            assert(all[i as int] == line@);
        }
        if line.len() == 0 {
            body_start = i + 1;
            break;
        }
        if crate::text::matches_at(line.as_slice(), tree_kw.as_slice(), 0) {
            match header_hash(line, tree_kw.len()) {
                Ok(h) => {
                    tree = h;
                },
                Err(e) => {
                    return Err(e);
                },
            }
        } else if crate::text::matches_at(line.as_slice(), parent_kw.as_slice(), 0) {
            match header_hash(line, parent_kw.len()) {
                Ok(h) => {
                    let ghost before = crate::objects::hash_views(parents@);
                    parents.push(h);
                    proof {
                        assert(crate::objects::hash_views(parents@) =~= before.push(h@));
                    }
                },
                Err(e) => {
                    return Err(e);
                },
            }
        } else if crate::text::matches_at(line.as_slice(), author_kw.as_slice(), 0) {
            let rest = crate::text::copy_chars(line.as_slice(), author_kw.len(), line.len());
            match parse_author(rest.as_slice()) {
                Some((a, t)) => {
                    author = a;
                    timestamp = t;
                },
                None => {},
            }
        }
        i += 1;
    }
    let message = join_with_newlines(ls.as_slice(), body_start);
    Ok(crate::models::CommitMeta {
        parent_hashes: parents,
        tree_hash: tree,
        timestamp,
        author: chars_to_string(author.as_slice()),
        message: chars_to_string(message.as_slice()),
    })
}

/// A delta entry of a pack waiting for its base: the base's hash, the
/// inflated delta, and where the entry starts in the pack.
pub struct PendingDelta {
    pub base_hash: crate::hash::Hash,
    pub delta_data: Vec<u8>,
    pub offset: u64,
}

/// A pending delta as plain values.
pub open spec fn pending_view(d: PendingDelta) -> (Seq<u8>, Seq<u8>, u64) {
    (d.base_hash@, d.delta_data@, d.offset)
}

/// The pending deltas of a list as plain values.
pub open spec fn pendings_view(v: Seq<PendingDelta>) -> Seq<(Seq<u8>, Seq<u8>, u64)> {
    v.map_values(|d: PendingDelta| pending_view(d))
}

fn copy_pending(d: &PendingDelta) -> (r: PendingDelta)
    ensures
        pending_view(r) == pending_view(*d),
{
    PendingDelta { base_hash: d.base_hash, delta_data: d.delta_data.clone(), offset: d.offset }
}

/// An object rebuilt from a delta: its identity, where its entry starts,
/// its kind and its content.
pub struct ResolvedObject {
    pub hash: crate::hash::Hash,
    pub offset: u64,
    pub kind: String,
    pub payload: Vec<u8>,
}

/// What resolving deltas needs next.
#[derive(Debug, PartialEq, Eq)]
pub enum DeltaStep {
    /// The kind and content of the object with this hash, if it can be had.
    NeedBase(crate::hash::Hash),
    /// Every delta is resolved.
    Done,
    /// A whole pass resolved nothing; this base is missing.
    MissingBase(crate::hash::Hash),
}

/// Resolves a pack's deltas in passes: each pass asks for the base of every
/// pending delta in order; a delta whose base cannot be had waits for the
/// next pass; a pass that resolves nothing while deltas still wait means a
/// base is missing.
pub struct DeltaQueue {
    pending: Vec<PendingDelta>,
    next: Vec<PendingDelta>,
    cursor: usize,
    resolved_any: bool,
}

impl DeltaQueue {
    /// The deltas of the current pass.
    pub closed spec fn pass(&self) -> Seq<(Seq<u8>, Seq<u8>, u64)> {
        pendings_view(self.pending@)
    }

    /// The deltas left for the next pass.
    pub closed spec fn waiting(&self) -> Seq<(Seq<u8>, Seq<u8>, u64)> {
        pendings_view(self.next@)
    }

    /// How many deltas of the current pass were dealt with.
    pub closed spec fn position(&self) -> int {
        self.cursor as int
    }

    /// Whether the current pass resolved a delta.
    pub closed spec fn progressed(&self) -> bool {
        self.resolved_any
    }

    /// The position never passes the end of the pass.
    pub closed spec fn wf(&self) -> bool {
        self.cursor <= self.pending@.len()
    }

    /// A queue whose first pass holds the deltas, in order.
    pub fn new(pending: Vec<PendingDelta>) -> (q: DeltaQueue)
        ensures
            q.wf(),
            q.pass() == pendings_view(pending@),
            q.waiting().len() == 0,
            q.position() == 0,
            !q.progressed(),
    {
        let q = DeltaQueue { pending, next: Vec::new(), cursor: 0, resolved_any: false };
        assert(q.waiting() =~= Seq::<(Seq<u8>, Seq<u8>, u64)>::empty());
        q
    }

    /// What is needed next. At the end of a pass that resolved something,
    /// the waiting deltas become the next pass.
    pub fn next_step(&mut self) -> (r: DeltaStep)
        requires
            old(self).wf(),
        ensures
            final(self).wf(),
            old(self).position() < old(self).pass().len() ==> {
                &&& r matches DeltaStep::NeedBase(h) && h@ == old(self).pass()[old(self).position()].0
                &&& *final(self) == *old(self)
            },
            old(self).position() >= old(self).pass().len() && old(self).waiting().len() == 0 ==> {
                &&& r is Done
                &&& *final(self) == *old(self)
            },
            old(self).position() >= old(self).pass().len() && old(self).waiting().len() > 0 && !old(self).progressed() ==> {
                &&& r matches DeltaStep::MissingBase(h) && h@ == old(self).waiting()[0].0
                &&& *final(self) == *old(self)
            },
            old(self).position() >= old(self).pass().len() && old(self).waiting().len() > 0 && old(self).progressed() ==> {
                &&& r matches DeltaStep::NeedBase(h) && h@ == old(self).waiting()[0].0
                &&& final(self).pass() == old(self).waiting()
                &&& final(self).waiting().len() == 0
                &&& final(self).position() == 0
                &&& !final(self).progressed()
            },
    {
        if self.cursor < self.pending.len() {
            return DeltaStep::NeedBase(self.pending[self.cursor].base_hash);
        }
        if self.next.len() == 0 {
            return DeltaStep::Done;
        }
        if !self.resolved_any {
            return DeltaStep::MissingBase(self.next[0].base_hash);
        }
        let mut taken: Vec<PendingDelta> = Vec::new();
        std::mem::swap(&mut taken, &mut self.next);
        self.pending = taken;
        self.cursor = 0;
        self.resolved_any = false;
        assert(self.waiting() =~= Seq::<(Seq<u8>, Seq<u8>, u64)>::empty());
        DeltaStep::NeedBase(self.pending[0].base_hash)
    }

    /// Whether the delta now due can be applied to `base` without reading
    /// past the end of either.
    pub fn base_fits(&self, base: &[u8]) -> (r: bool)
        requires
            self.wf(),
            self.position() < self.pass().len(),
        ensures
            r == !(crate::pack::spec_apply_delta(base@, self.pass()[self.position()].1) is Overrun),
    {
        crate::pack::try_apply_delta(base, self.pending[self.cursor].delta_data.as_slice()).is_some()
    }

    /// Deals with the current delta given what its base turned out to be:
    /// with a base (kind and content), applies the delta and gives the
    /// rebuilt object; without one, leaves the delta for the next pass.
    pub fn supply_base(&mut self, base: Option<(String, Vec<u8>)>) -> (r: Result<Option<ResolvedObject>, GikError>)
        requires
            old(self).wf(),
            old(self).position() < old(self).pass().len(),
            base matches Some((_, p)) ==> !(crate::pack::spec_apply_delta(p@, old(self).pass()[old(self).position()].1) is Overrun),
        ensures
            ({
                let d = old(self).pass()[old(self).position()];
                match base {
                    None => {
                        &&& r matches Ok(None)
                        &&& final(self).wf()
                        &&& final(self).pass() == old(self).pass()
                        &&& final(self).waiting() == old(self).waiting().push(d)
                        &&& final(self).position() == old(self).position() + 1
                        &&& final(self).progressed() == old(self).progressed()
                    },
                    Some((kind, payload)) => match crate::pack::spec_apply_delta(payload@, d.1) {
                        crate::pack::DeltaOutcome::Done(t) => {
                            &&& r matches Ok(Some(o)) && o.offset == d.2 && o.kind@ == kind@ && o.payload@ == t
                                && o.hash@ == crate::external::sha1_digest(
                                crate::objects::object_header(vstd::utf8::encode_utf8(kind@), t.len()) + t)
                            &&& final(self).wf()
                            &&& final(self).pass() == old(self).pass()
                            &&& final(self).waiting() == old(self).waiting()
                            &&& final(self).position() == old(self).position() + 1
                            &&& final(self).progressed()
                        },
                        _ => r is Err,
                    },
                }
            }),
    {
        let i = self.cursor;
        let n = self.pending.len();
        assert(i < n);
        match base {
            None => {
                let d = copy_pending(&self.pending[i]);
                let ghost before = pendings_view(self.next@);
                self.next.push(d);
                self.cursor = i + 1;
                assert(pendings_view(self.next@) =~= before.push(pending_view(d)));
                Ok(None)
            },
            Some((kind, payload)) => {
                let target = match crate::pack::apply_delta(payload.as_slice(), self.pending[i].delta_data.as_slice()) {
                    Ok(t) => t,
                    Err(e) => return Err(e),
                };
                let hash = crate::objects::hash_object(kind.as_str(), target.as_slice());
                let offset = self.pending[i].offset;
                self.cursor = i + 1;
                self.resolved_any = true;
                Ok(Some(ResolvedObject { hash, offset, kind, payload: target }))
            },
        }
    }
}

/// The hex digits of a hash read back as the hash.
proof fn lemma_hex_chars_decode(h: Seq<u8>)
    requires
        h.len() == 20,
    ensures
        decoded_hash(vstd::utf8::encode_utf8(crate::objects::hex_chars(h))) == Some(h),
        forall|i: int| 0 <= i < crate::objects::hex_chars(h).len() ==> (#[trigger] crate::objects::hex_chars(h)[i]) != '\n'
            && crate::objects::hex_chars(h)[i] != ' ' && crate::objects::hex_chars(h)[i] != '\r',
        crate::objects::hex_chars(h).len() == 40,
{
    let e = crate::external::spec_hex_encode(h);
    lemma_hex_encode_ascii(h);
    let c = crate::objects::hex_chars(h);
    assert(vstd::utf8::is_ascii_chars(c)) by {
        assert forall|i: int| 0 <= i < c.len() implies '\0' <= #[trigger] c[i] <= '\u{7f}' by {
            assert(c[i] == e[i] as char);
        }
    }
    vstd::utf8::is_ascii_chars_encode_utf8(c);
    assert(vstd::utf8::encode_utf8(c) =~= e);
    crate::hash::law_hex_roundtrip(h);
    assert forall|i: int| 0 <= i < c.len() implies (#[trigger] c[i]) != '\n' && c[i] != ' ' && c[i] != '\r' by {
        assert(c[i] == e[i] as char);
    }
}

/// Hex encoding gives two digits per byte, each a lowercase hex digit.
proof fn lemma_hex_encode_ascii(h: Seq<u8>)
    ensures
        crate::external::spec_hex_encode(h).len() == 2 * h.len(),
        forall|i: int| 0 <= i < crate::external::spec_hex_encode(h).len() ==> ((48 <= #[trigger] crate::external::spec_hex_encode(h)[i] <= 57)
            || (97 <= crate::external::spec_hex_encode(h)[i] <= 102)),
    decreases h.len(),
{
    if h.len() > 0 {
        lemma_hex_encode_ascii(h.drop_first());
        let e = crate::external::spec_hex_encode(h);
        let r = crate::external::spec_hex_encode(h.drop_first());
        assert forall|i: int| 0 <= i < e.len() implies ((48 <= #[trigger] e[i] <= 57) || (97 <= e[i] <= 102)) by {
            if i >= 2 {
                assert(e[i] == r[i - 2]);
            }
        }
    }
}

/// Joining lines with "\n" in front of more lines.
proof fn lemma_join_front(l: Seq<char>, r: Seq<Seq<char>>)
    requires
        r.len() > 0,
    ensures
        join_newline(seq![l] + r) == l + seq!['\n'] + join_newline(r),
    decreases r.len(),
{
    let s = seq![l] + r;
    if r.len() == 1 {
        assert(s.drop_last() =~= seq![l]);
        assert(s.last() == r[0]);
        assert(seq![l][0] == l);
        assert(join_newline(seq![l]) == l);
        assert(join_newline(r) == r[0]);
        assert(join_newline(s) == join_newline(s.drop_last()) + seq!['\n'] + s.last());
    } else {
        lemma_join_front(l, r.drop_last());
        assert(s.drop_last() =~= seq![l] + r.drop_last());
        assert(s.last() == r.last());
        assert(join_newline(s) =~= l + seq!['\n'] + join_newline(r));
    }
}

/// A text without '\r' and a final "\n" splits into lines that join back
/// into the text.
proof fn lemma_message_lines(x: Seq<char>)
    requires
        forall|i: int| 0 <= i < x.len() ==> x[i] != '\r',
    ensures
        join_newline(split_lines(x + seq!['\n'])) == x,
        split_lines(x + seq!['\n']).len() > 0,
    decreases x.len(),
{
    crate::text::lemma_find_from_bounds(x, 0, '\n');
    let k = crate::text::find_from(x, 0, '\n');
    if k < x.len() {
        let l = x.subrange(0, k);
        let y = x.subrange(k + 1, x.len() as int);
        assert(x + seq!['\n'] =~= l + seq!['\n'] + (y + seq!['\n']));
        assert(l.len() == 0 || l.last() != '\r');
        crate::text::lemma_line_then(l, y + seq!['\n']);
        lemma_message_lines(y);
        lemma_join_front(l, split_lines(y + seq!['\n']));
        assert(l + seq!['\n'] + y =~= x);
    } else {
        assert(x.len() == 0 || x.last() != '\r');
        crate::text::lemma_line_then(x, Seq::empty());
        assert(x + seq!['\n'] + Seq::<char>::empty() =~= x + seq!['\n']);
        assert(split_lines(Seq::<char>::empty()) =~= Seq::<Seq<char>>::empty());
        assert(seq![x] + Seq::<Seq<char>>::empty() =~= seq![x]);
    }
}

/// The line a commit gives a parent, without its line break.
pub open spec fn parent_line(h: Seq<u8>) -> Seq<char> {
    "parent "@ + crate::objects::hex_chars(h)
}

/// The lines of the parent lines and then more text.
proof fn lemma_parent_split(ps: Seq<Seq<u8>>, r: Seq<char>)
    requires
        forall|i: int| 0 <= i < ps.len() ==> (#[trigger] ps[i]).len() == 20,
    ensures
        split_lines(crate::objects::parent_lines(ps) + r) == ps.map_values(|h: Seq<u8>| parent_line(h)) + split_lines(r),
    decreases ps.len(),
{
    if ps.len() == 0 {
        assert(crate::objects::parent_lines(ps) + r =~= r);
        assert(ps.map_values(|h: Seq<u8>| parent_line(h)) + split_lines(r) =~= split_lines(r));
    } else {
        reveal_strlit("parent ");
        reveal_strlit("\n");
        let last = ps.last();
        let init = ps.drop_last();
        assert(last.len() == 20);
        assert forall|i: int| 0 <= i < init.len() implies (#[trigger] init[i]).len() == 20 by {
            assert(init[i] == ps[i]);
        }
        lemma_hex_chars_decode(last);
        let pl = parent_line(last);
        assert forall|i: int| 0 <= i < pl.len() implies pl[i] != '\n' by {
            if i >= 7 {
                assert(pl[i] == crate::objects::hex_chars(last)[i - 7]);
            }
        }
        assert(pl.last() == crate::objects::hex_chars(last)[39]);
        crate::text::lemma_line_then(pl, r);
        lemma_parent_split(init, pl + seq!['\n'] + r);
        assert(crate::objects::parent_lines(ps) + r =~= crate::objects::parent_lines(init) + (pl + seq!['\n'] + r));
        assert(ps.map_values(|h: Seq<u8>| parent_line(h)) =~= init.map_values(|h: Seq<u8>| parent_line(h)).push(pl));
        assert(ps.map_values(|h: Seq<u8>| parent_line(h)) + split_lines(r)
            =~= init.map_values(|h: Seq<u8>| parent_line(h)) + (seq![pl] + split_lines(r)));
    }
}

/// An identity line's text without its line break.
pub open spec fn identity_text(role: Seq<char>, name: Seq<char>, email: Seq<char>, timestamp: nat) -> Seq<char> {
    role + name + " <"@ + email + "> "@ + crate::text::ascii_chars(crate::text::decimal(timestamp)) + " +0000"@
}

proof fn lemma_identity_split(role: Seq<char>, name: Seq<char>, email: Seq<char>, timestamp: nat)
    ensures
        crate::objects::identity_line(role, name, email, timestamp) == identity_text(role, name, email, timestamp) + seq!['\n'],
        identity_text(role, name, email, timestamp).last() == '0',
{
    reveal_strlit(" +0000\n");
    reveal_strlit(" +0000");
    assert(crate::objects::identity_line(role, name, email, timestamp) =~= identity_text(role, name, email, timestamp) + seq!['\n']);
}

/// The author and time read back from an author line's rest.
proof fn lemma_author_fields(name: Seq<char>, email: Seq<char>, timestamp: u64)
    ensures
        author_fields(identity_text(Seq::empty(), name, email, timestamp as nat))
            == Some((crate::commit::author_line(name, email), timestamp)),
{
    reveal_strlit(" +");
    reveal_strlit(" +0000");
    reveal_strlit("> ");
    reveal_strlit(">");
    let d = crate::text::ascii_chars(crate::text::decimal(timestamp as nat));
    crate::text::lemma_radix_digits_ascii(timestamp as nat, 10);
    let x = name + " <"@ + email + "> "@;
    let rest = identity_text(Seq::empty(), name, email, timestamp as nat);
    assert(rest =~= x + d + " +0000"@);
    let n = rest.len() as int;
    let p = " +"@;
    assert(rest[n - 1] == '0' && rest[n - 2] == '0' && rest[n - 3] == '0' && rest[n - 4] == '0');
    assert(rest[n - 5] == '+' && rest[n - 6] == ' ');
    assert(!occurs_at(rest, p, n - 2)) by { assert(rest.subrange(n - 2, n)[0] != p[0]); }
    assert(!occurs_at(rest, p, n - 3)) by { assert(rest.subrange(n - 3, n - 1)[0] != p[0]); }
    assert(!occurs_at(rest, p, n - 4)) by { assert(rest.subrange(n - 4, n - 2)[0] != p[0]); }
    assert(!occurs_at(rest, p, n - 5)) by { assert(rest.subrange(n - 5, n - 3)[0] != p[0]); }
    assert(occurs_at(rest, p, n - 6)) by { assert(rest.subrange(n - 6, n - 4) =~= p); }
    assert(p.len() == 2);
    assert(crate::text::rfind_seq_from(rest, p, n - 6) == n - 6);
    assert(crate::text::rfind_seq_from(rest, p, n - 5) == n - 6);
    assert(crate::text::rfind_seq_from(rest, p, n - 4) == n - 6);
    assert(crate::text::rfind_seq_from(rest, p, n - 3) == n - 6);
    assert(crate::text::rfind_seq_from(rest, p, n - 2) == n - 6);
    assert(rfind_seq(rest, p) == n - 6);
    let before = rest.subrange(0, n - 6);
    assert(before =~= x + d);
    crate::text::lemma_rfind_char(before, ' ');
    let xl = x.len() as int;
    assert(before[xl - 1] == ' ');
    assert forall|k: int| xl <= k < before.len() implies before[k] != ' ' by {
        assert(before[k] == d[k - xl]);
        assert(d[k - xl] == crate::text::decimal(timestamp as nat)[k - xl] as char);
    }
    let ts = rfind_char(before, ' ');
    if ts < xl - 1 {
        assert(before[xl - 1] != ' ');
    }
    assert(ts == xl - 1);
    assert(rest.subrange(0, ts) =~= crate::commit::author_line(name, email));
    assert(rest.subrange(ts + 1, n - 6) =~= d);
    crate::objects::lemma_parse_digits(timestamp as nat, 10, u64::MAX as nat);
}

proof fn lemma_concat_no_newline(a: Seq<char>, b: Seq<char>)
    requires
        crate::config::no_char(a, '\n'),
        crate::config::no_char(b, '\n'),
    ensures
        crate::config::no_char(a + b, '\n'),
{
    assert forall|i: int| 0 <= i < (a + b).len() implies (a + b)[i] != '\n' by {
        if i < a.len() {
            assert((a + b)[i] == a[i]);
        } else {
            assert((a + b)[i] == b[i - a.len()]);
        }
    }
}

proof fn lemma_identity_no_newline(role: Seq<char>, name: Seq<char>, email: Seq<char>, timestamp: nat)
    requires
        crate::config::no_char(role, '\n'),
        crate::config::no_char(name, '\n'),
        crate::config::no_char(email, '\n'),
    ensures
        crate::config::no_char(identity_text(role, name, email, timestamp), '\n'),
{
    reveal_strlit(" <");
    reveal_strlit("> ");
    reveal_strlit(" +0000");
    let d = crate::text::ascii_chars(crate::text::decimal(timestamp));
    crate::text::lemma_radix_digits_ascii(timestamp, 10);
    assert forall|i: int| 0 <= i < d.len() implies d[i] != '\n' by {
        assert(d[i] == crate::text::decimal(timestamp)[i] as char);
    }
    lemma_concat_no_newline(role, name);
    lemma_concat_no_newline(role + name, " <"@);
    lemma_concat_no_newline(role + name + " <"@, email);
    lemma_concat_no_newline(role + name + " <"@ + email, "> "@);
    lemma_concat_no_newline(role + name + " <"@ + email + "> "@, d);
    lemma_concat_no_newline(role + name + " <"@ + email + "> "@ + d, " +0000"@);
}

/// Scanning the parent lines adds each parent in order.
proof fn lemma_scan_parents(
    ls: Seq<Seq<char>>,
    tree: Seq<u8>,
    ps: Seq<Seq<u8>>,
    j: int,
)
    requires
        0 <= j <= ps.len(),
        1 + ps.len() <= ls.len(),
        forall|i: int| 0 <= i < ps.len() ==> (#[trigger] ps[i]).len() == 20,
        forall|i: int| 0 <= i < ps.len() ==> ls[1 + i] == parent_line(#[trigger] ps[i]),
    ensures
        scan_headers(ls, 1 + j, (tree, ps.subrange(0, j), Seq::empty(), 0))
            == scan_headers(ls, 1 + ps.len() as int, (tree, ps, Seq::empty(), 0)),
    decreases ps.len() - j,
{
    if j < ps.len() {
        reveal_strlit("parent ");
        reveal_strlit("tree ");
        let l = ls[1 + j];
        assert(l == parent_line(ps[j]));
        lemma_hex_chars_decode(ps[j]);
        assert(l[0] == 'p');
        assert(!starts_with(l, "tree "@)) by {
            if starts_with(l, "tree "@) {
                assert(l.subrange(0, 5)[0] == l[0]);
            }
        }
        assert(starts_with(l, "parent "@)) by {
            assert(l.subrange(0, 7) =~= "parent "@);
        }
        assert(after_prefix(l, "parent "@) =~= crate::objects::hex_chars(ps[j]));
        assert(ps.subrange(0, j).push(ps[j]) =~= ps.subrange(0, j + 1));
        lemma_scan_parents(ls, tree, ps, j + 1);
    } else {
        assert(ps.subrange(0, j) =~= ps);
    }
}

/// The message text a commit's content ends with.
pub open spec fn message_body(message: Seq<char>) -> Seq<char> {
    if message.len() > 0 && message.last() == '\n' { message.drop_last() } else { message }
}

proof fn lemma_regroup(a: Seq<char>, b: Seq<char>, c: Seq<char>, d: Seq<char>, e: Seq<char>, f: Seq<char>)
    ensures
        ((((a + b) + c) + d) + e) + f == a + (b + (c + (d + (e + f)))),
{
    assert(((((a + b) + c) + d) + e) + f =~= a + (b + (c + (d + (e + f)))));
}

/// The lines of a commit's content.
#[verifier::rlimit(40)]
proof fn lemma_commit_lines(
    tree: Seq<u8>,
    parents: Seq<Seq<u8>>,
    name: Seq<char>,
    email: Seq<char>,
    timestamp: u64,
    message: Seq<char>,
)
    requires
        tree.len() == 20,
        forall|i: int| 0 <= i < parents.len() ==> (#[trigger] parents[i]).len() == 20,
        crate::config::no_char(name, '\n'),
        crate::config::no_char(email, '\n'),
    ensures
        split_lines(crate::objects::commit_content(tree, parents, name, email, timestamp as nat, message))
            == seq!["tree "@ + crate::objects::hex_chars(tree)] + parents.map_values(|h: Seq<u8>| parent_line(h))
            + seq![
                identity_text("author "@, name, email, timestamp as nat),
                identity_text("committer "@, name, email, timestamp as nat),
                Seq::<char>::empty(),
            ] + split_lines(message_body(message) + seq!['\n']),
{
    reveal_strlit("tree ");
    reveal_strlit("\n");
    let c = crate::objects::commit_content(tree, parents, name, email, timestamp as nat, message);
    let hx = crate::objects::hex_chars(tree);
    lemma_hex_chars_decode(tree);
    let tl = "tree "@ + hx;
    let al = identity_text("author "@, name, email, timestamp as nat);
    let kl = identity_text("committer "@, name, email, timestamp as nat);
    let m2 = message_body(message) + seq!['\n'];
    assert(m2 =~= message + (if message.len() > 0 && message.last() == '\n' { Seq::<char>::empty() } else { "\n"@ }));
    lemma_identity_split("author "@, name, email, timestamp as nat);
    lemma_identity_split("committer "@, name, email, timestamp as nat);
    reveal_strlit("author ");
    reveal_strlit("committer ");
    lemma_identity_no_newline("author "@, name, email, timestamp as nat);
    lemma_identity_no_newline("committer "@, name, email, timestamp as nat);
    assert(crate::config::no_char(tl, '\n')) by {
        assert forall|i: int| 0 <= i < tl.len() implies tl[i] != '\n' by {
            if i >= 5 {
                assert(tl[i] == hx[i - 5]);
            }
        }
    }
    assert(tl.last() == hx[39]);
    let nl = seq!['\n'];
    let p = crate::objects::parent_lines(parents);
    assert("\n"@ == nl);
    assert(c == (((((tl + nl) + p) + (al + nl)) + (kl + nl)) + nl) + m2);
    lemma_regroup(tl + nl, p, al + nl, kl + nl, nl, m2);
    let r4 = nl + m2;
    let r3 = kl + nl + r4;
    let r2 = al + nl + r3;
    let r1 = p + r2;
    crate::text::lemma_line_then(tl, r1);
    lemma_parent_split(parents, r2);
    crate::text::lemma_line_then(al, r3);
    crate::text::lemma_line_then(kl, r4);
    crate::text::lemma_line_then(Seq::empty(), m2);
    assert(Seq::<char>::empty() + nl =~= nl);
    let pls = parents.map_values(|h: Seq<u8>| parent_line(h));
    assert(split_lines(c) =~= seq![tl] + pls + seq![al, kl, Seq::<char>::empty()] + split_lines(m2));
}

/// The header scan of a commit's lines.
proof fn lemma_commit_scan(
    ls: Seq<Seq<char>>,
    tree: Seq<u8>,
    parents: Seq<Seq<u8>>,
    name: Seq<char>,
    email: Seq<char>,
    timestamp: u64,
    mls: Seq<Seq<char>>,
)
    requires
        tree.len() == 20,
        forall|i: int| 0 <= i < parents.len() ==> (#[trigger] parents[i]).len() == 20,
        ls == seq!["tree "@ + crate::objects::hex_chars(tree)] + parents.map_values(|h: Seq<u8>| parent_line(h))
            + seq![
                identity_text("author "@, name, email, timestamp as nat),
                identity_text("committer "@, name, email, timestamp as nat),
                Seq::<char>::empty(),
            ] + mls,
    ensures
        scan_headers(ls, 0, meta_start())
            == Some(((tree, parents, crate::commit::author_line(name, email), timestamp), 4 + parents.len() as int)),
{
    reveal_strlit("tree ");
    reveal_strlit("parent ");
    reveal_strlit("author ");
    reveal_strlit("committer ");
    let hx = crate::objects::hex_chars(tree);
    lemma_hex_chars_decode(tree);
    let tl = "tree "@ + hx;
    let al = identity_text("author "@, name, email, timestamp as nat);
    let kl = identity_text("committer "@, name, email, timestamp as nat);
    let n = parents.len() as int;
    assert(ls[0] == tl);
    assert(starts_with(tl, "tree "@)) by {
        assert(tl.subrange(0, 5) =~= "tree "@);
    }
    assert(after_prefix(tl, "tree "@) =~= hx);
    assert(scan_headers(ls, 0, meta_start()) == scan_headers(ls, 1, (tree, Seq::empty(), Seq::empty(), 0)));
    assert forall|i: int| 0 <= i < n implies ls[1 + i] == parent_line(#[trigger] parents[i]) by {
        assert(ls[1 + i] == parents.map_values(|h: Seq<u8>| parent_line(h))[i]);
    }
    lemma_scan_parents(ls, tree, parents, 0);
    assert(parents.subrange(0, 0) =~= Seq::<Seq<u8>>::empty());
    assert(ls[1 + n] == al);
    assert(al[0] == 'a');
    assert(!starts_with(al, "tree "@)) by {
        if starts_with(al, "tree "@) {
            assert(al.subrange(0, 5)[0] == al[0]);
        }
    }
    assert(!starts_with(al, "parent "@)) by {
        if starts_with(al, "parent "@) {
            assert(al.subrange(0, 7)[0] == al[0]);
        }
    }
    assert(starts_with(al, "author "@)) by {
        assert(al.subrange(0, 7) =~= "author "@);
    }
    assert(after_prefix(al, "author "@) =~= identity_text(Seq::empty(), name, email, timestamp as nat));
    lemma_author_fields(name, email, timestamp);
    let acc = (tree, parents, crate::commit::author_line(name, email), timestamp);
    assert(scan_headers(ls, 1 + n, (tree, parents, Seq::empty(), 0)) == scan_headers(ls, 2 + n, acc));
    assert(ls[2 + n] == kl);
    assert(kl[0] == 'c');
    assert(!starts_with(kl, "tree "@)) by {
        if starts_with(kl, "tree "@) {
            assert(kl.subrange(0, 5)[0] == kl[0]);
        }
    }
    assert(!starts_with(kl, "parent "@)) by {
        if starts_with(kl, "parent "@) {
            assert(kl.subrange(0, 7)[0] == kl[0]);
        }
    }
    assert(!starts_with(kl, "author "@)) by {
        if starts_with(kl, "author "@) {
            assert(kl.subrange(0, 7)[0] == kl[0]);
        }
    }
    assert(scan_headers(ls, 2 + n, acc) == scan_headers(ls, 3 + n, acc));
    assert(ls[3 + n].len() == 0);
    assert(scan_headers(ls, 3 + n, acc) == Some((acc, 4 + n)));
}

/// A commit's metadata reads back from the content it was written with:
/// tree, parents, author (name and email), time, and the message without
/// the final line break the content gives it, for a name and email without
/// line breaks and a message without carriage returns.
pub proof fn law_commit_meta_roundtrip(
    tree: Seq<u8>,
    parents: Seq<Seq<u8>>,
    name: Seq<char>,
    email: Seq<char>,
    timestamp: u64,
    message: Seq<char>,
)
    requires
        tree.len() == 20,
        forall|i: int| 0 <= i < parents.len() ==> (#[trigger] parents[i]).len() == 20,
        crate::config::no_char(name, '\n'),
        crate::config::no_char(email, '\n'),
        crate::config::no_char(message, '\r'),
    ensures
        spec_commit_meta(vstd::utf8::encode_utf8(
            crate::objects::commit_content(tree, parents, name, email, timestamp as nat, message),
        )) == Some(((tree, parents, crate::commit::author_line(name, email), timestamp), message_body(message))),
{
    let c = crate::objects::commit_content(tree, parents, name, email, timestamp as nat, message);
    vstd::utf8::encode_utf8_valid_utf8(c);
    vstd::utf8::encode_utf8_decode_utf8(c);
    assert(commit_text(vstd::utf8::encode_utf8(c)) == c);
    lemma_commit_lines(tree, parents, name, email, timestamp, message);
    let x = message_body(message);
    assert forall|i: int| 0 <= i < x.len() implies x[i] != '\r' by {
        assert(x[i] == message[i]);
    }
    lemma_message_lines(x);
    let ls = split_lines(c);
    let mls = split_lines(x + seq!['\n']);
    lemma_commit_scan(ls, tree, parents, name, email, timestamp, mls);
    let n = parents.len() as int;
    assert(ls.subrange(4 + n, ls.len() as int) =~= mls);
}

} // verus!
