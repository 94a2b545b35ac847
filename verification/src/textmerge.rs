//! Line-based three-way merge of text: each side's edits against the base
//! become hunks, overlapping hunks of the two sides are grouped, and each
//! group is resolved or marked as a conflict.

use vstd::prelude::*;
use crate::objects::{find_byte_from, lemma_find_byte_bounds, find_byte};
use vstd::string::StringSliceAdditionalSpecFns;

verus! {

broadcast use vstd::seq_lib::group_seq_properties;

/// Where the line starting at `i` ends: just after the next newline, or at
/// the end of the text.
pub open spec fn line_end(s: Seq<u8>, i: int) -> int {
    let k = find_byte_from(s, i, 10u8);
    if k < s.len() { k + 1 } else { s.len() as int }
}

/// The lines of `s[i..]`, each with its newline (`split_inclusive('\n')`).
pub open spec fn lines_from(s: Seq<u8>, i: int) -> Seq<Seq<u8>>
    decreases s.len() - i,
{
    if i < 0 || i >= s.len() {
        Seq::empty()
    } else {
        proof {
            lemma_find_byte_bounds(s, i, 10u8);
        }
        seq![s.subrange(i, line_end(s, i))] + lines_from(s, line_end(s, i))
    }
}

/// The lines of a text, each with its newline; the last one may lack it.
pub open spec fn split_lines_inclusive(s: Seq<u8>) -> Seq<Seq<u8>> {
    lines_from(s, 0)
}

/// The byte sequences held by a list of vectors.
pub open spec fn byte_views(v: Seq<Vec<u8>>) -> Seq<Seq<u8>> {
    v.map_values(|x: Vec<u8>| x@)
}

/// Copies `s[from..to]`.
pub fn copy_bytes(s: &[u8], from: usize, to: usize) -> (r: Vec<u8>)
    requires
        from <= to <= s@.len(),
    ensures
        r@ == s@.subrange(from as int, to as int),
{
    let mut r: Vec<u8> = Vec::new();
    let mut k = from;
    while k < to
        invariant
            from <= k <= to <= s@.len(),
            r@ == s@.subrange(from as int, k as int),
        decreases to - k,
    {
        r.push(s[k]);
        k += 1;
    }
    r
}

/// Splits a text into its lines, each keeping its newline.
pub fn split_inclusive_lines(s: &[u8]) -> (r: Vec<Vec<u8>>)
    ensures
        byte_views(r@) == split_lines_inclusive(s@),
{
    let mut r: Vec<Vec<u8>> = Vec::new();
    let mut i: usize = 0;
    while i < s.len()
        invariant
            i <= s@.len(),
            byte_views(r@) + lines_from(s@, i as int) == split_lines_inclusive(s@),
        decreases s@.len() - i,
    {
        proof {
            lemma_find_byte_bounds(s@, i as int, 10u8);
        }
        let k = find_byte(s, i, 10u8);
        let e = if k < s.len() { k + 1 } else { s.len() };
        let line = copy_bytes(s, i, e);
        let ghost before = byte_views(r@);
        r.push(line);
        proof {
            assert(byte_views(r@) =~= before.push(line@));
            assert(lines_from(s@, i as int) == seq![line@] + lines_from(s@, e as int));
            assert(before + lines_from(s@, i as int) =~= before.push(line@) + lines_from(s@, e as int));
        }
        i = e;
    }
    proof {
        assert(byte_views(r@) + lines_from(s@, i as int) =~= byte_views(r@));
    }
    r
}

/// One edit of a side against the base: base lines `base_start..base_end`
/// are replaced by `inserted`, the new lines joined.
pub struct Hunk {
    pub base_start: usize,
    pub base_end: usize,
    pub inserted: Vec<u8>,
}

impl View for Hunk {
    type V = (int, int, Seq<u8>);

    open spec fn view(&self) -> (int, int, Seq<u8>) {
        (self.base_start as int, self.base_end as int, self.inserted@)
    }
}

/// The views of a list of hunks.
pub open spec fn hunk_views(v: Seq<Hunk>) -> Seq<(int, int, Seq<u8>)> {
    v.map_values(|h: Hunk| h@)
}

/// A copy of a hunk.
pub fn copy_hunk(h: &Hunk) -> (r: Hunk)
    ensures
        r@ == h@,
{
    Hunk { base_start: h.base_start, base_end: h.base_end, inserted: h.inserted.clone() }
}

/// The kinds of diff operation, as `similar` numbers them in
/// `crate::external::line_diff`.
pub open spec fn op_delete() -> u8 { 1 }
pub open spec fn op_insert() -> u8 { 2 }
pub open spec fn op_replace() -> u8 { 3 }

/// Whether taking the hunk of a diff operation stays in range: the new lines
/// it names exist, and its base range end fits a `usize`.
pub open spec fn op_fits(op: (u8, usize, usize, usize, usize), new_len: nat) -> bool {
    &&& (op.0 == 2 || op.0 == 3) ==> op.3 + op.4 <= new_len
    &&& (op.0 == 1 || op.0 == 3) ==> op.1 + op.2 <= usize::MAX
}

/// Whether every operation's hunk stays in range.
pub open spec fn ops_fit(ops: Seq<(u8, usize, usize, usize, usize)>, new_len: nat) -> bool {
    forall|k: int| 0 <= k < ops.len() ==> op_fits(#[trigger] ops[k], new_len)
}

/// The hunk of one diff operation, if it changes anything: a deletion
/// removes base lines, an insertion adds new lines before a base line, a
/// replacement does both.
pub open spec fn op_hunk(op: (u8, usize, usize, usize, usize), new_lines: Seq<Seq<u8>>) -> Seq<(int, int, Seq<u8>)> {
    let added = new_lines.subrange(op.3 as int, op.3 + op.4).flatten();
    if op.0 == 1 {
        seq![(op.1 as int, op.1 + op.2, Seq::empty())]
    } else if op.0 == 2 {
        seq![(op.1 as int, op.1 as int, added)]
    } else if op.0 == 3 {
        seq![(op.1 as int, op.1 + op.2, added)]
    } else {
        Seq::empty()
    }
}

/// The hunks of a list of diff operations, in their order.
pub open spec fn spec_hunks(ops: Seq<(u8, usize, usize, usize, usize)>, new_lines: Seq<Seq<u8>>) -> Seq<(int, int, Seq<u8>)>
    decreases ops.len(),
{
    if ops.len() == 0 {
        Seq::empty()
    } else {
        spec_hunks(ops.drop_last(), new_lines) + op_hunk(ops.last(), new_lines)
    }
}

/// Joins `lines[from..to]`.
pub fn join_lines(lines: &[Vec<u8>], from: usize, to: usize) -> (r: Vec<u8>)
    requires
        from <= to <= lines@.len(),
    ensures
        r@ == byte_views(lines@).subrange(from as int, to as int).flatten(),
{
    let mut r: Vec<u8> = Vec::new();
    let mut k = from;
    while k < to
        invariant
            from <= k <= to <= lines@.len(),
            r@ == byte_views(lines@).subrange(from as int, k as int).flatten(),
        decreases to - k,
    {
        let ghost prev = byte_views(lines@).subrange(from as int, k as int);
        crate::objects::push_bytes(&mut r, lines[k].as_slice());
        proof {
            assert(byte_views(lines@).subrange(from as int, k + 1) =~= prev.push(lines@[k as int]@));
            prev.lemma_flatten_push(lines@[k as int]@);
        }
        k += 1;
    }
    r
}

/// The hunks of one side's diff against the base: one per operation that
/// changes something, in the order of the operations.
pub fn get_hunks(ops: &[(u8, usize, usize, usize, usize)], new_lines: &[Vec<u8>]) -> (r: Vec<Hunk>)
    requires
        ops_fit(ops@, new_lines@.len()),
    ensures
        hunk_views(r@) == spec_hunks(ops@, byte_views(new_lines@)),
{
    let mut r: Vec<Hunk> = Vec::new();
    let mut k: usize = 0;
    let n = new_lines.len();
    while k < ops.len()
        invariant
            k <= ops@.len(),
            n == new_lines@.len(),
            ops_fit(ops@, new_lines@.len()),
            hunk_views(r@) == spec_hunks(ops@.subrange(0, k as int), byte_views(new_lines@)),
        decreases ops@.len() - k,
    {
        let op = ops[k];
        let ghost before = hunk_views(r@);
        proof {
            assert(op_fits(ops@[k as int], new_lines@.len()));
            assert(ops@.subrange(0, k + 1).drop_last() =~= ops@.subrange(0, k as int));
            assert(ops@.subrange(0, k + 1).last() == op);
        }
        if op.0 == 1 {
            r.push(Hunk { base_start: op.1, base_end: op.1 + op.2, inserted: Vec::new() });
        } else if op.0 == 2 {
            let added = join_lines(new_lines, op.3, op.3 + op.4);
            r.push(Hunk { base_start: op.1, base_end: op.1, inserted: added });
        } else if op.0 == 3 {
            let added = join_lines(new_lines, op.3, op.3 + op.4);
            r.push(Hunk { base_start: op.1, base_end: op.1 + op.2, inserted: added });
        }
        proof {
            assert(hunk_views(r@) =~= before + op_hunk(op, byte_views(new_lines@)));
        }
        k += 1;
    }
    proof {
        assert(ops@.subrange(0, ops@.len() as int) =~= ops@);
    }
    r
}

/// The larger of two integers.
pub open spec fn max_int(a: int, b: int) -> int {
    if a >= b { a } else { b }
}

/// The smaller of two integers.
pub open spec fn min_int(a: int, b: int) -> int {
    if a <= b { a } else { b }
}

/// Grows a group that reaches base line `end`, from our hunk `i` and their
/// hunk `j` on: a hunk that starts at or before the group's end joins it
/// and may push the end further; ours are taken first. Gives the positions
/// after the last hunks taken and the final end.
pub open spec fn absorb(
    o: Seq<(int, int, Seq<u8>)>,
    t: Seq<(int, int, Seq<u8>)>,
    i: int,
    j: int,
    end: int,
) -> (int, int, int)
    decreases o.len() - i, t.len() - j,
{
    if 0 <= i < o.len() && o[i].0 <= end {
        absorb(o, t, i + 1, j, max_int(end, o[i].1))
    } else if 0 <= j < t.len() && t[j].0 <= end {
        absorb(o, t, i, j + 1, max_int(end, t[j].1))
    } else {
        (i, j, end)
    }
}

pub proof fn lemma_absorb_bounds(
    o: Seq<(int, int, Seq<u8>)>,
    t: Seq<(int, int, Seq<u8>)>,
    i: int,
    j: int,
    end: int,
)
    requires
        0 <= i <= o.len(),
        0 <= j <= t.len(),
    ensures
        i <= absorb(o, t, i, j, end).0 <= o.len(),
        j <= absorb(o, t, i, j, end).1 <= t.len(),
        end <= absorb(o, t, i, j, end).2,
    decreases o.len() - i, t.len() - j,
{
    if 0 <= i < o.len() && o[i].0 <= end {
        lemma_absorb_bounds(o, t, i + 1, j, max_int(end, o[i].1));
    } else if 0 <= j < t.len() && t[j].0 <= end {
        lemma_absorb_bounds(o, t, i, j + 1, max_int(end, t[j].1));
    }
}

/// The start of the first hunk of a list, or `usize::MAX` when it is empty.
pub open spec fn first_start(h: Seq<(int, int, Seq<u8>)>) -> int {
    if h.len() > 0 { h[0].0 } else { usize::MAX as int }
}

/// The groups of overlapping hunks, from our hunk `i` and their hunk `j`
/// on. Each group starts with the hunk that starts first (ours on a tie)
/// and grows as `absorb` says; it spans from the first start of its hunks to
/// the end that `absorb` reached.
pub open spec fn groups_from(
    o: Seq<(int, int, Seq<u8>)>,
    t: Seq<(int, int, Seq<u8>)>,
    i: int,
    j: int,
) -> Seq<(int, int, Seq<(int, int, Seq<u8>)>, Seq<(int, int, Seq<u8>)>)>
    decreases (o.len() - i) + (t.len() - j),
{
    if i < 0 || j < 0 || i > o.len() || j > t.len() || (i == o.len() && j == t.len()) {
        Seq::empty()
    } else {
        let take_ours = i < o.len() && (j == t.len() || o[i].0 <= t[j].0);
        let i1 = if take_ours { i + 1 } else { i };
        let j1 = if take_ours { j } else { j + 1 };
        let e1 = if take_ours { o[i].1 } else { t[j].1 };
        let a = absorb(o, t, i1, j1, e1);
        let go = o.subrange(i, a.0);
        let gt = t.subrange(j, a.1);
        proof {
            lemma_absorb_bounds(o, t, i1, j1, e1);
        }
        seq![(min_int(first_start(go), first_start(gt)), a.2, go, gt)] + groups_from(o, t, a.0, a.1)
    }
}

/// Hunks of both sides that overlap, or touch, in the base.
pub struct ConflictGroup {
    pub base_start: usize,
    pub base_end: usize,
    pub ours: Vec<Hunk>,
    pub theirs: Vec<Hunk>,
}

impl View for ConflictGroup {
    type V = (int, int, Seq<(int, int, Seq<u8>)>, Seq<(int, int, Seq<u8>)>);

    open spec fn view(&self) -> (int, int, Seq<(int, int, Seq<u8>)>, Seq<(int, int, Seq<u8>)>) {
        (self.base_start as int, self.base_end as int, hunk_views(self.ours@), hunk_views(self.theirs@))
    }
}

/// The views of a list of groups.
pub open spec fn group_views(v: Seq<ConflictGroup>) -> Seq<(int, int, Seq<(int, int, Seq<u8>)>, Seq<(int, int, Seq<u8>)>)> {
    v.map_values(|g: ConflictGroup| g@)
}

/// Groups the overlapping hunks of both sides, sweeping the base from the
/// start: a group begins with the earliest hunk left and takes in every
/// hunk of either side that starts before its end is passed.
pub fn group_hunks(ours: Vec<Hunk>, theirs: Vec<Hunk>) -> (r: Vec<ConflictGroup>)
    ensures
        group_views(r@) == groups_from(hunk_views(ours@), hunk_views(theirs@), 0, 0),
{
    let ghost o = hunk_views(ours@);
    let ghost t = hunk_views(theirs@);
    let mut groups: Vec<ConflictGroup> = Vec::new();
    let mut i: usize = 0;
    let mut j: usize = 0;
    while i < ours.len() || j < theirs.len()
        invariant
            o == hunk_views(ours@),
            t == hunk_views(theirs@),
            i <= o.len(),
            j <= t.len(),
            group_views(groups@) + groups_from(o, t, i as int, j as int) == groups_from(o, t, 0, 0),
        decreases (o.len() - i) + (t.len() - j),
    {
        let gi = i;
        let gj = j;
        let mut g_ours: Vec<Hunk> = Vec::new();
        let mut g_theirs: Vec<Hunk> = Vec::new();
        let mut end: usize;
        if i < ours.len() && (j == theirs.len() || ours[i].base_start <= theirs[j].base_start) {
            end = ours[i].base_end;
            g_ours.push(copy_hunk(&ours[i]));
            i += 1;
        } else {
            end = theirs[j].base_end;
            g_theirs.push(copy_hunk(&theirs[j]));
            j += 1;
        }
        let ghost i1 = i as int;
        let ghost j1 = j as int;
        let ghost e1 = end as int;
        proof {
            assert(hunk_views(g_ours@) =~= o.subrange(gi as int, i as int));
            assert(hunk_views(g_theirs@) =~= t.subrange(gj as int, j as int));
        }
        loop
            invariant
                o == hunk_views(ours@),
                t == hunk_views(theirs@),
                gi <= i1 <= i <= o.len(),
                gj <= j1 <= j <= t.len(),
                absorb(o, t, i as int, j as int, end as int) == absorb(o, t, i1, j1, e1),
                hunk_views(g_ours@) == o.subrange(gi as int, i as int),
                hunk_views(g_theirs@) == t.subrange(gj as int, j as int),
            ensures
                absorb(o, t, i1, j1, e1) == (i as int, j as int, end as int),
                gi <= i <= o.len(),
                gj <= j <= t.len(),
                hunk_views(g_ours@) == o.subrange(gi as int, i as int),
                hunk_views(g_theirs@) == t.subrange(gj as int, j as int),
            decreases (o.len() - i) + (t.len() - j),
        {
            if i < ours.len() && ours[i].base_start <= end {
                if ours[i].base_end > end {
                    end = ours[i].base_end;
                }
                let ghost before = hunk_views(g_ours@);
                g_ours.push(copy_hunk(&ours[i]));
                proof {
                    assert(o[i as int] == ours@[i as int]@);
                    assert(hunk_views(g_ours@) =~= before.push(o[i as int]));
                }
                i += 1;
                proof {
                    assert(hunk_views(g_ours@) =~= o.subrange(gi as int, i as int));
                }
            } else if j < theirs.len() && theirs[j].base_start <= end {
                if theirs[j].base_end > end {
                    end = theirs[j].base_end;
                }
                let ghost before = hunk_views(g_theirs@);
                g_theirs.push(copy_hunk(&theirs[j]));
                proof {
                    assert(t[j as int] == theirs@[j as int]@);
                    assert(hunk_views(g_theirs@) =~= before.push(t[j as int]));
                }
                j += 1;
                proof {
                    assert(hunk_views(g_theirs@) =~= t.subrange(gj as int, j as int));
                }
            } else {
                break;
            }
        }
        let s_o: usize = if g_ours.len() > 0 { g_ours[0].base_start } else { usize::MAX };
        let s_t: usize = if g_theirs.len() > 0 { g_theirs[0].base_start } else { usize::MAX };
        let start: usize = if s_o <= s_t { s_o } else { s_t };
        let ghost before = group_views(groups@);
        groups.push(ConflictGroup { base_start: start, base_end: end, ours: g_ours, theirs: g_theirs });
        proof {
            assert(group_views(groups@) =~= before.push(groups@.last()@));
            assert(groups_from(o, t, gi as int, gj as int) == seq![groups@.last()@] + groups_from(o, t, i as int, j as int));
            assert(before + groups_from(o, t, gi as int, gj as int) =~= group_views(groups@) + groups_from(o, t, i as int, j as int));
        }
    }
    proof {
        assert(group_views(groups@) + groups_from(o, t, i as int, j as int) =~= group_views(groups@));
    }
    groups
}

/// The text that a list of hunks inserts, joined.
pub open spec fn inserted_text(h: Seq<(int, int, Seq<u8>)>) -> Seq<u8> {
    h.map_values(|x: (int, int, Seq<u8>)| x.2).flatten()
}

/// The line that opens a conflict, then our text.
pub open spec fn ours_marker() -> Seq<u8> {
    "<<<<<<< OURS\n".spec_bytes()
}

/// The line between our text and theirs in a conflict.
pub open spec fn middle_marker() -> Seq<u8> {
    "=======\n".spec_bytes()
}

/// The line that closes a conflict.
pub open spec fn theirs_marker() -> Seq<u8> {
    ">>>>>>> THEIRS\n".spec_bytes()
}

/// A newline when a text is not empty and does not end with one.
pub open spec fn closing_newline(x: Seq<u8>) -> Seq<u8> {
    if x.len() > 0 && x.last() != 10u8 { seq![10u8] } else { Seq::empty() }
}

/// Both texts between conflict markers, each ending its last line.
pub open spec fn conflict_text(no: Seq<u8>, nt: Seq<u8>) -> Seq<u8> {
    ours_marker() + no + closing_newline(no) + middle_marker() + nt + closing_newline(nt) + theirs_marker()
}

/// What a group becomes and whether it is a conflict: a group of one side
/// only takes that side's text, as do two sides that insert the same text;
/// two sides that differ give both texts between conflict markers.
pub open spec fn resolve_group(g: (int, int, Seq<(int, int, Seq<u8>)>, Seq<(int, int, Seq<u8>)>)) -> (Seq<u8>, bool) {
    let no = inserted_text(g.2);
    let nt = inserted_text(g.3);
    if g.2.len() == 0 {
        (nt, false)
    } else if g.3.len() == 0 {
        (no, false)
    } else if no == nt {
        (no, false)
    } else {
        (conflict_text(no, nt), true)
    }
}

/// Where the base is read from before group `k`: the start, or the end of
/// the group before.
pub open spec fn cursor_before(gs: Seq<(int, int, Seq<(int, int, Seq<u8>)>, Seq<(int, int, Seq<u8>)>)>, k: int) -> int {
    if k <= 0 { 0 } else { gs[k - 1].1 }
}

/// Whether the groups can be applied to a base of `n` lines: each starts at
/// or after the end of the one before and within the base, and the last
/// ends within it.
pub open spec fn groups_fit(gs: Seq<(int, int, Seq<(int, int, Seq<u8>)>, Seq<(int, int, Seq<u8>)>)>, n: int) -> bool {
    &&& forall|k: int| 0 <= k < gs.len() ==> cursor_before(gs, k) <= (#[trigger] gs[k]).0 <= n
    &&& gs.len() > 0 ==> gs.last().1 <= n
}

/// The merged text from group `k` on, with the base read from line
/// `cursor`: the base lines up to each group, what the group becomes, and
/// the base lines after the last group; and whether any group conflicted.
pub open spec fn apply_from(
    lines: Seq<Seq<u8>>,
    gs: Seq<(int, int, Seq<(int, int, Seq<u8>)>, Seq<(int, int, Seq<u8>)>)>,
    k: int,
    cursor: int,
) -> (Seq<u8>, bool)
    decreases gs.len() - k,
{
    if k < 0 || k >= gs.len() {
        (lines.subrange(cursor, lines.len() as int).flatten(), false)
    } else {
        let r = resolve_group(gs[k]);
        let rest = apply_from(lines, gs, k + 1, gs[k].1);
        (lines.subrange(cursor, gs[k].0).flatten() + r.0 + rest.0, r.1 || rest.1)
    }
}

/// Joins what the hunks insert.
fn join_inserted(hs: &Vec<Hunk>) -> (r: Vec<u8>)
    ensures
        r@ == inserted_text(hunk_views(hs@)),
{
    let mut r: Vec<u8> = Vec::new();
    let mut k: usize = 0;
    while k < hs.len()
        invariant
            k <= hs@.len(),
            r@ == hunk_views(hs@).subrange(0, k as int).map_values(|x: (int, int, Seq<u8>)| x.2).flatten(),
        decreases hs@.len() - k,
    {
        let ghost prev = hunk_views(hs@).subrange(0, k as int).map_values(|x: (int, int, Seq<u8>)| x.2);
        crate::objects::push_bytes(&mut r, hs[k].inserted.as_slice());
        proof {
            assert(hunk_views(hs@).subrange(0, k + 1).map_values(|x: (int, int, Seq<u8>)| x.2)
                =~= prev.push(hs@[k as int].inserted@));
            prev.lemma_flatten_push(hs@[k as int].inserted@);
        }
        k += 1;
    }
    proof {
        assert(hunk_views(hs@).subrange(0, hs@.len() as int) =~= hunk_views(hs@));
    }
    r
}

/// Whether two byte strings are equal.
pub fn same_bytes(a: &[u8], b: &[u8]) -> (r: bool)
    ensures
        r == (a@ == b@),
{
    if a.len() != b.len() {
        return false;
    }
    let mut k: usize = 0;
    while k < a.len()
        invariant
            a@.len() == b@.len(),
            k <= a@.len(),
            a@.subrange(0, k as int) == b@.subrange(0, k as int),
        decreases a@.len() - k,
    {
        if a[k] != b[k] {
            assert(a@[k as int] != b@[k as int]);
            return false;
        }
        assert(a@.subrange(0, k + 1) =~= a@.subrange(0, k as int).push(a@[k as int]));
        assert(b@.subrange(0, k + 1) =~= b@.subrange(0, k as int).push(b@[k as int]));
        k += 1;
    }
    assert(a@ =~= a@.subrange(0, k as int));
    assert(b@ =~= b@.subrange(0, k as int));
    true
}

/// Ends the last line of a non-empty text that lacks its newline.
fn push_closing_newline(out: &mut Vec<u8>, x: &Vec<u8>)
    ensures
        final(out)@ == old(out)@ + closing_newline(x@),
{
    if x.len() > 0 && x[x.len() - 1] != 10u8 {
        out.push(10u8);
    }
}

/// Applies the groups to the base: copies the base lines between groups,
/// writes what each group becomes, and says whether any group conflicted.
pub fn apply_groups(base_lines: &[Vec<u8>], groups: Vec<ConflictGroup>) -> (r: (Vec<u8>, bool))
    requires
        groups_fit(group_views(groups@), base_lines@.len() as int),
    ensures
        (r.0@, r.1) == apply_from(byte_views(base_lines@), group_views(groups@), 0, 0),
{
    let ghost lines = byte_views(base_lines@);
    let ghost gs = group_views(groups@);
    let mut merged: Vec<u8> = Vec::new();
    let mut has_conflict = false;
    let mut cursor: usize = 0;
    let mut k: usize = 0;
    while k < groups.len()
        invariant
            lines == byte_views(base_lines@),
            gs == group_views(groups@),
            groups_fit(gs, lines.len() as int),
            k <= gs.len(),
            cursor == cursor_before(gs, k as int),
            cursor <= lines.len(),
            merged@ + apply_from(lines, gs, k as int, cursor as int).0 == apply_from(lines, gs, 0, 0).0,
            (has_conflict || apply_from(lines, gs, k as int, cursor as int).1) == apply_from(lines, gs, 0, 0).1,
        decreases gs.len() - k,
    {
        let g = &groups[k];
        proof {
            assert(gs[k as int] == g@);
            assert(cursor_before(gs, k as int) <= gs[k as int].0 <= lines.len());
        }
        let before = join_lines(base_lines, cursor, g.base_start);
        let ghost m0 = merged@;
        crate::objects::push_bytes(&mut merged, before.as_slice());
        cursor = g.base_end;
        let net_ours = join_inserted(&g.ours);
        let net_theirs = join_inserted(&g.theirs);
        let ghost m1 = merged@;
        proof {
            assert(net_ours@ == inserted_text(gs[k as int].2));
            assert(net_theirs@ == inserted_text(gs[k as int].3));
            assert(g.ours@.len() == gs[k as int].2.len());
            assert(g.theirs@.len() == gs[k as int].3.len());
        }
        let mut conflict_here = false;
        if g.ours.len() == 0 {
            crate::objects::push_bytes(&mut merged, net_theirs.as_slice());
        } else if g.theirs.len() == 0 {
            crate::objects::push_bytes(&mut merged, net_ours.as_slice());
        } else if same_bytes(net_ours.as_slice(), net_theirs.as_slice()) {
            crate::objects::push_bytes(&mut merged, net_ours.as_slice());
        } else {
            conflict_here = true;
            crate::objects::push_bytes(&mut merged, "<<<<<<< OURS\n".as_bytes());
            crate::objects::push_bytes(&mut merged, net_ours.as_slice());
            push_closing_newline(&mut merged, &net_ours);
            crate::objects::push_bytes(&mut merged, "=======\n".as_bytes());
            crate::objects::push_bytes(&mut merged, net_theirs.as_slice());
            push_closing_newline(&mut merged, &net_theirs);
            crate::objects::push_bytes(&mut merged, ">>>>>>> THEIRS\n".as_bytes());
        }
        proof {
            let r = resolve_group(gs[k as int]);
            assert(merged@ =~= m1 + r.0);
            assert(conflict_here == r.1);
            assert(k + 1 < gs.len() ==> cursor_before(gs, k + 1) <= gs[k + 1].0);
        }
        has_conflict = has_conflict || conflict_here;
        k += 1;
    }
    let rest = join_lines(base_lines, cursor, base_lines.len());
    crate::objects::push_bytes(&mut merged, rest.as_slice());
    (merged, has_conflict)
}

/// Checks `ops_fit`.
pub fn ops_fit_check(ops: &[(u8, usize, usize, usize, usize)], new_len: usize) -> (r: bool)
    ensures
        r == ops_fit(ops@, new_len as nat),
{
    let mut k: usize = 0;
    while k < ops.len()
        invariant
            k <= ops@.len(),
            forall|m: int| 0 <= m < k ==> op_fits(#[trigger] ops@[m], new_len as nat),
        decreases ops@.len() - k,
    {
        let op = ops[k];
        let adds = op.0 == 2 || op.0 == 3;
        let removes = op.0 == 1 || op.0 == 3;
        if adds && (op.3 > new_len || op.4 > new_len - op.3) {
            assert(!op_fits(ops@[k as int], new_len as nat));
            return false;
        }
        if removes && op.2 > usize::MAX - op.1 {
            assert(!op_fits(ops@[k as int], new_len as nat));
            return false;
        }
        k += 1;
    }
    true
}

/// Checks `groups_fit`.
pub fn groups_fit_check(groups: &Vec<ConflictGroup>, n: usize) -> (r: bool)
    ensures
        r == groups_fit(group_views(groups@), n as int),
{
    let ghost gs = group_views(groups@);
    let mut cursor: usize = 0;
    let mut k: usize = 0;
    while k < groups.len()
        invariant
            gs == group_views(groups@),
            k <= gs.len(),
            cursor == cursor_before(gs, k as int),
            forall|m: int| 0 <= m < k ==> cursor_before(gs, m) <= (#[trigger] gs[m]).0 <= n,
        decreases gs.len() - k,
    {
        proof {
            assert(gs[k as int] == groups@[k as int]@);
        }
        if groups[k].base_start < cursor || groups[k].base_start > n {
            return false;
        }
        cursor = groups[k].base_end;
        k += 1;
    }
    proof {
        if gs.len() > 0 {
            assert(gs.last() == gs[gs.len() - 1]);
        }
    }
    cursor <= n
}

/// The groups that the two sides' diffs against the base give.
pub open spec fn merge_groups(
    ours: Seq<u8>,
    theirs: Seq<u8>,
    ours_ops: Seq<(u8, usize, usize, usize, usize)>,
    theirs_ops: Seq<(u8, usize, usize, usize, usize)>,
) -> Seq<(int, int, Seq<(int, int, Seq<u8>)>, Seq<(int, int, Seq<u8>)>)> {
    groups_from(
        spec_hunks(ours_ops, split_lines_inclusive(ours)),
        spec_hunks(theirs_ops, split_lines_inclusive(theirs)),
        0,
        0,
    )
}

/// Whether the diffs stay within the texts' lines and their groups can be
/// applied to the base.
pub open spec fn merge_fits(
    base: Seq<u8>,
    ours: Seq<u8>,
    theirs: Seq<u8>,
    ours_ops: Seq<(u8, usize, usize, usize, usize)>,
    theirs_ops: Seq<(u8, usize, usize, usize, usize)>,
) -> bool {
    &&& ops_fit(ours_ops, split_lines_inclusive(ours).len())
    &&& ops_fit(theirs_ops, split_lines_inclusive(theirs).len())
    &&& groups_fit(merge_groups(ours, theirs, ours_ops, theirs_ops), split_lines_inclusive(base).len() as int)
}

/// The merged text and whether it holds a conflict.
pub open spec fn merged_lines(
    base: Seq<u8>,
    ours: Seq<u8>,
    theirs: Seq<u8>,
    ours_ops: Seq<(u8, usize, usize, usize, usize)>,
    theirs_ops: Seq<(u8, usize, usize, usize, usize)>,
) -> (Seq<u8>, bool) {
    apply_from(split_lines_inclusive(base), merge_groups(ours, theirs, ours_ops, theirs_ops), 0, 0)
}

/// Merges the lines of two texts against their base, given each side's
/// line diff against the base as `(kind, old_index, old_len, new_index,
/// new_len)` operations. `None` when the operations name lines that the
/// texts do not have or give groups that cannot be applied in order.
pub fn merge_lines(
    base: &[u8],
    ours: &[u8],
    theirs: &[u8],
    ours_ops: &[(u8, usize, usize, usize, usize)],
    theirs_ops: &[(u8, usize, usize, usize, usize)],
) -> (r: Option<(Vec<u8>, bool)>)
    ensures
        r is Some <==> merge_fits(base@, ours@, theirs@, ours_ops@, theirs_ops@),
        r matches Some(m) ==> (m.0@, m.1) == merged_lines(base@, ours@, theirs@, ours_ops@, theirs_ops@),
{
    let base_lines = split_inclusive_lines(base);
    let ours_lines = split_inclusive_lines(ours);
    let theirs_lines = split_inclusive_lines(theirs);
    if !ops_fit_check(ours_ops, ours_lines.len()) || !ops_fit_check(theirs_ops, theirs_lines.len()) {
        return None;
    }
    let ours_hunks = get_hunks(ours_ops, ours_lines.as_slice());
    let theirs_hunks = get_hunks(theirs_ops, theirs_lines.as_slice());
    let groups = group_hunks(ours_hunks, theirs_hunks);
    if !groups_fit_check(&groups, base_lines.len()) {
        return None;
    }
    Some(apply_groups(base_lines.as_slice(), groups))
}

/// The outcome of merging two versions of a file against their base.
#[derive(Debug, PartialEq, Eq)]
pub enum MergeResult {
    /// Merged without conflict (or nothing to merge): the content to keep.
    Resolved(Vec<u8>),
    /// The versions conflict; they are handed back as they came.
    Conflict {
        base: Option<Vec<u8>>,
        ours: Vec<u8>,
        theirs: Vec<u8>,
    },
}

/// A way of merging two versions of a file against their common base.
pub trait MergeStrategy {
    fn merge(&self, base: Option<&[u8]>, ours: &[u8], theirs: &[u8]) -> MergeResult;
}

/// Merges text line by line.
pub struct TextMergeStrategy;

/// The text that some bytes hold: the bytes when they are valid UTF-8,
/// nothing otherwise.
pub open spec fn text_of(b: Seq<u8>) -> Seq<u8> {
    if vstd::utf8::valid_utf8(b) { b } else { Seq::empty() }
}

/// The bytes of an optional byte string.
pub open spec fn opt_bytes(b: Option<&[u8]>) -> Option<Seq<u8>> {
    match b {
        Some(x) => Some(x@),
        None => None,
    }
}

/// The bytes of an optional vector.
pub open spec fn opt_vec_bytes(b: Option<Vec<u8>>) -> Option<Seq<u8>> {
    match b {
        Some(x) => Some(x@),
        None => None,
    }
}

/// The line diff of two texts, as `TextDiff::from_lines` makes it.
pub open spec fn text_diff(old: Seq<u8>, new: Seq<u8>) -> Seq<(u8, usize, usize, usize, usize)> {
    crate::external::spec_line_diff(vstd::utf8::decode_utf8(old), vstd::utf8::decode_utf8(new))
}

/// What a text merge gives: `Some(content)` when it resolves, `None` when it
/// conflicts. Texts are compared as UTF-8; bytes that are not valid UTF-8
/// count as an empty text. Equal sides, or one side equal to the base, give
/// the other side's bytes; otherwise the line diffs of both sides are merged,
/// and a conflict in any group (or diffs that do not fit the texts) makes
/// the whole merge a conflict.
pub open spec fn text_merge(base: Option<Seq<u8>>, ours: Seq<u8>, theirs: Seq<u8>) -> Option<Seq<u8>> {
    let bt = text_of(match base { Some(b) => b, None => Seq::empty() });
    let ot = text_of(ours);
    let tt = text_of(theirs);
    if ot == tt {
        Some(ours)
    } else if ot == bt {
        Some(theirs)
    } else if tt == bt {
        Some(ours)
    } else {
        let oo = text_diff(bt, ot);
        let to = text_diff(bt, tt);
        if !merge_fits(bt, ot, tt, oo, to) {
            None
        } else if merged_lines(bt, ot, tt, oo, to).1 {
            None
        } else {
            Some(merged_lines(bt, ot, tt, oo, to).0)
        }
    }
}

/// What `merge` returns for the outcome `text_merge` gives: the content, or
/// a conflict that carries the three inputs unchanged.
pub open spec fn merge_result_is(r: MergeResult, outcome: Option<Seq<u8>>, base: Option<Seq<u8>>, ours: Seq<u8>, theirs: Seq<u8>) -> bool {
    match outcome {
        Some(c) => r matches MergeResult::Resolved(m) && m@ == c,
        None => r matches MergeResult::Conflict { base: b, ours: o, theirs: t }
            && opt_vec_bytes(b) == base && o@ == ours && t@ == theirs,
    }
}

/// The bytes when they are valid UTF-8, or nothing.
fn text_bytes(b: &[u8]) -> (r: Vec<u8>)
    ensures
        r@ == text_of(b@),
        vstd::utf8::valid_utf8(r@),
{
    match crate::external::utf8_str(b) {
        Some(_) => vstd::slice::slice_to_vec(b),
        None => {
            let r: Vec<u8> = Vec::new();
            assert(vstd::utf8::valid_utf8(r@));
            r
        },
    }
}

/// The line diff of two valid UTF-8 texts.
fn diff_texts(old: &Vec<u8>, new: &Vec<u8>) -> (ops: Vec<(u8, usize, usize, usize, usize)>)
    requires
        vstd::utf8::valid_utf8(old@),
        vstd::utf8::valid_utf8(new@),
    ensures
        ops@ == text_diff(old@, new@),
{
    let old_s = crate::external::utf8_str(old.as_slice());
    let new_s = crate::external::utf8_str(new.as_slice());
    match (old_s, new_s) {
        (Some(o), Some(n)) => crate::external::line_diff(o, n),
        _ => {
            assert(false);
            Vec::new()
        },
    }
}

impl MergeStrategy for TextMergeStrategy {
    /// Merges the lines of `ours` and `theirs` against `base` (empty when
    /// there is none), as `text_merge` says.
    fn merge(&self, base: Option<&[u8]>, ours: &[u8], theirs: &[u8]) -> (r: MergeResult)
        ensures
            merge_result_is(r, text_merge(opt_bytes(base), ours@, theirs@), opt_bytes(base), ours@, theirs@),
    {
        let bt = match base {
            Some(b) => text_bytes(b),
            None => {
                let e: Vec<u8> = Vec::new();
                assert(text_of(e@) == e@) by {
                    assert(vstd::utf8::valid_utf8(e@));
                }
                e
            },
        };
        let ot = text_bytes(ours);
        let tt = text_bytes(theirs);
        if same_bytes(ot.as_slice(), tt.as_slice()) {
            return MergeResult::Resolved(vstd::slice::slice_to_vec(ours));
        }
        if same_bytes(ot.as_slice(), bt.as_slice()) {
            return MergeResult::Resolved(vstd::slice::slice_to_vec(theirs));
        }
        if same_bytes(tt.as_slice(), bt.as_slice()) {
            return MergeResult::Resolved(vstd::slice::slice_to_vec(ours));
        }
        let ours_ops = diff_texts(&bt, &ot);
        let theirs_ops = diff_texts(&bt, &tt);
        let outcome = merge_lines(bt.as_slice(), ot.as_slice(), tt.as_slice(), ours_ops.as_slice(), theirs_ops.as_slice());
        match outcome {
            Some((merged, false)) => MergeResult::Resolved(merged),
            _ => MergeResult::Conflict {
                base: match base {
                    Some(b) => Some(vstd::slice::slice_to_vec(b)),
                    None => None,
                },
                ours: vstd::slice::slice_to_vec(ours),
                theirs: vstd::slice::slice_to_vec(theirs),
            },
        }
    }
}

/// Merging two identical versions gives that version, whatever the base.
pub proof fn law_merge_identical_sides(base: Option<Seq<u8>>, x: Seq<u8>)
    ensures
        text_merge(base, x, x) == Some(x),
{
}

/// When our side is the base, unchanged, the merge takes their side. (An
/// empty text of ours against bytes of theirs that are not UTF-8 compares
/// equal to it and keeps ours instead.)
pub proof fn law_merge_takes_theirs_when_ours_unchanged(ours: Seq<u8>, theirs: Seq<u8>)
    requires
        vstd::utf8::valid_utf8(ours),
        !(ours.len() == 0 && !vstd::utf8::valid_utf8(theirs)),
    ensures
        text_merge(Some(ours), ours, theirs) == Some(theirs),
{
    if text_of(ours) == text_of(theirs) {
        assert(vstd::utf8::valid_utf8(theirs));
        assert(ours == theirs);
    }
}

/// When their side is the base, unchanged, the merge keeps ours. (Ours that
/// is not UTF-8 against an empty text of theirs compares equal to the base
/// and takes theirs instead.)
pub proof fn law_merge_keeps_ours_when_theirs_unchanged(ours: Seq<u8>, theirs: Seq<u8>)
    requires
        vstd::utf8::valid_utf8(theirs),
        !(theirs.len() == 0 && !vstd::utf8::valid_utf8(ours)),
    ensures
        text_merge(Some(theirs), ours, theirs) == Some(ours),
{
    if text_of(ours) == text_of(theirs) {
        assert(vstd::utf8::valid_utf8(ours));
        assert(ours == theirs);
    }
}

/// Our hunks of a list of groups, in order.
pub open spec fn group_ours(
    gs: Seq<(int, int, Seq<(int, int, Seq<u8>)>, Seq<(int, int, Seq<u8>)>)>,
) -> Seq<(int, int, Seq<u8>)>
    decreases gs.len(),
{
    if gs.len() == 0 {
        Seq::empty()
    } else {
        gs[0].2 + group_ours(gs.drop_first())
    }
}

/// Their hunks of a list of groups, in order.
pub open spec fn group_theirs(
    gs: Seq<(int, int, Seq<(int, int, Seq<u8>)>, Seq<(int, int, Seq<u8>)>)>,
) -> Seq<(int, int, Seq<u8>)>
    decreases gs.len(),
{
    if gs.len() == 0 {
        Seq::empty()
    } else {
        gs[0].3 + group_theirs(gs.drop_first())
    }
}

proof fn lemma_absorb_stops(o: Seq<(int, int, Seq<u8>)>, t: Seq<(int, int, Seq<u8>)>, i: int, j: int, end: int)
    requires
        0 <= i <= o.len(),
        0 <= j <= t.len(),
    ensures
        ({
            let a = absorb(o, t, i, j, end);
            &&& a.0 == o.len() || o[a.0].0 > a.2
            &&& a.1 == t.len() || t[a.1].0 > a.2
        }),
    decreases o.len() - i, t.len() - j,
{
    if 0 <= i < o.len() && o[i].0 <= end {
        lemma_absorb_stops(o, t, i + 1, j, max_int(end, o[i].1));
    } else if 0 <= j < t.len() && t[j].0 <= end {
        lemma_absorb_stops(o, t, i, j + 1, max_int(end, t[j].1));
    }
}

proof fn lemma_groups_partition(o: Seq<(int, int, Seq<u8>)>, t: Seq<(int, int, Seq<u8>)>, i: int, j: int)
    requires
        0 <= i <= o.len(),
        0 <= j <= t.len(),
    ensures
        group_ours(groups_from(o, t, i, j)) == o.subrange(i, o.len() as int),
        group_theirs(groups_from(o, t, i, j)) == t.subrange(j, t.len() as int),
        forall|k: int| 0 <= k < groups_from(o, t, i, j).len()
            ==> (#[trigger] groups_from(o, t, i, j)[k]).2.len() + groups_from(o, t, i, j)[k].3.len() > 0,
    decreases (o.len() - i) + (t.len() - j),
{
    let gs = groups_from(o, t, i, j);
    if i == o.len() && j == t.len() {
        assert(o.subrange(i, o.len() as int) =~= Seq::<(int, int, Seq<u8>)>::empty());
        assert(t.subrange(j, t.len() as int) =~= Seq::<(int, int, Seq<u8>)>::empty());
    } else {
        let take_ours = i < o.len() && (j == t.len() || o[i].0 <= t[j].0);
        let i1 = if take_ours { i + 1 } else { i };
        let j1 = if take_ours { j } else { j + 1 };
        let e1 = if take_ours { o[i].1 } else { t[j].1 };
        lemma_absorb_bounds(o, t, i1, j1, e1);
        let a = absorb(o, t, i1, j1, e1);
        lemma_groups_partition(o, t, a.0, a.1);
        let rest = groups_from(o, t, a.0, a.1);
        assert(gs.drop_first() =~= rest);
        assert(o.subrange(i, a.0) + o.subrange(a.0, o.len() as int) =~= o.subrange(i, o.len() as int));
        assert(t.subrange(j, a.1) + t.subrange(a.1, t.len() as int) =~= t.subrange(j, t.len() as int));
        assert forall|k: int| 0 <= k < gs.len() implies (#[trigger] gs[k]).2.len() + gs[k].3.len() > 0 by {
            if k > 0 {
                assert(gs[k] == rest[k - 1]);
            }
        }
    }
}

proof fn lemma_groups_separated(o: Seq<(int, int, Seq<u8>)>, t: Seq<(int, int, Seq<u8>)>, i: int, j: int, e0: int)
    requires
        0 <= i <= o.len(),
        0 <= j <= t.len(),
        forall|k: int| 0 <= k < o.len() ==> (#[trigger] o[k]).0 <= usize::MAX,
        forall|k: int| 0 <= k < t.len() ==> (#[trigger] t[k]).0 <= usize::MAX,
        i == o.len() || o[i].0 > e0,
        j == t.len() || t[j].0 > e0,
    ensures
        groups_from(o, t, i, j).len() > 0 ==> groups_from(o, t, i, j)[0].0 > e0,
        forall|k: int| 0 <= k < groups_from(o, t, i, j).len() - 1
            ==> (#[trigger] groups_from(o, t, i, j)[k]).1 < groups_from(o, t, i, j)[k + 1].0,
    decreases (o.len() - i) + (t.len() - j),
{
    let gs = groups_from(o, t, i, j);
    if !(i == o.len() && j == t.len()) {
        let take_ours = i < o.len() && (j == t.len() || o[i].0 <= t[j].0);
        let i1 = if take_ours { i + 1 } else { i };
        let j1 = if take_ours { j } else { j + 1 };
        let e1 = if take_ours { o[i].1 } else { t[j].1 };
        lemma_absorb_bounds(o, t, i1, j1, e1);
        lemma_absorb_stops(o, t, i1, j1, e1);
        let a = absorb(o, t, i1, j1, e1);
        let go = o.subrange(i, a.0);
        let gt = t.subrange(j, a.1);
        if go.len() > 0 {
            assert(go[0] == o[i]);
        }
        if gt.len() > 0 {
            assert(gt[0] == t[j]);
        }
        assert(gs[0].0 > e0);
        lemma_groups_separated(o, t, a.0, a.1, a.2);
        let rest = groups_from(o, t, a.0, a.1);
        assert(gs.drop_first() =~= rest);
        assert forall|k: int| 0 <= k < gs.len() - 1 implies (#[trigger] gs[k]).1 < gs[k + 1].0 by {
            if k == 0 {
                assert(gs[1] == rest[0]);
            } else {
                assert(gs[k] == rest[k - 1] && gs[k + 1] == rest[k - 1 + 1]);
            }
        }
    }
}

/// The groups partition the hunks: their hunks of ours, in order, are all
/// our hunks, and likewise theirs; no group is empty; and each group ends
/// before the next one starts, so no hunk of a later group overlaps or
/// touches an earlier group.
pub proof fn law_groups_partition(o: Seq<(int, int, Seq<u8>)>, t: Seq<(int, int, Seq<u8>)>)
    requires
        forall|k: int| 0 <= k < o.len() ==> 0 <= (#[trigger] o[k]).0 <= usize::MAX,
        forall|k: int| 0 <= k < t.len() ==> 0 <= (#[trigger] t[k]).0 <= usize::MAX,
    ensures
        group_ours(groups_from(o, t, 0, 0)) == o,
        group_theirs(groups_from(o, t, 0, 0)) == t,
        forall|k: int| 0 <= k < groups_from(o, t, 0, 0).len()
            ==> (#[trigger] groups_from(o, t, 0, 0)[k]).2.len() + groups_from(o, t, 0, 0)[k].3.len() > 0,
        forall|k: int| 0 <= k < groups_from(o, t, 0, 0).len() - 1
            ==> (#[trigger] groups_from(o, t, 0, 0)[k]).1 < groups_from(o, t, 0, 0)[k + 1].0,
{
    lemma_groups_partition(o, t, 0, 0);
    assert(o.subrange(0, o.len() as int) =~= o);
    assert(t.subrange(0, t.len() as int) =~= t);
    lemma_groups_separated(o, t, 0, 0, -1);
}

/// A group in which both sides insert the same text is no conflict: it
/// becomes that text, once.
pub proof fn law_identical_changes_resolve(g: (int, int, Seq<(int, int, Seq<u8>)>, Seq<(int, int, Seq<u8>)>))
    requires
        inserted_text(g.2) == inserted_text(g.3),
    ensures
        resolve_group(g) == (inserted_text(g.2), false),
{
}

/// How a group resolves: a change of one side only is taken as it is; two
/// sides that insert different texts are a conflict that shows our text
/// first, between the markers.
pub proof fn law_group_resolution(g: (int, int, Seq<(int, int, Seq<u8>)>, Seq<(int, int, Seq<u8>)>))
    ensures
        g.3.len() == 0 ==> resolve_group(g) == (inserted_text(g.2), false),
        g.2.len() == 0 ==> resolve_group(g) == (inserted_text(g.3), false),
        g.2.len() > 0 && g.3.len() > 0 && inserted_text(g.2) != inserted_text(g.3) ==> {
            &&& resolve_group(g).1
            &&& resolve_group(g).0.subrange(0, ours_marker().len() as int) == ours_marker()
            &&& resolve_group(g).0.subrange(ours_marker().len() as int, ours_marker().len() + inserted_text(g.2).len() as int)
                == inserted_text(g.2)
        },
{
    if g.2.len() == 0 && g.3.len() == 0 {
        assert(inserted_text(g.2) =~= Seq::<u8>::empty());
        assert(inserted_text(g.3) =~= Seq::<u8>::empty());
    }
    let no = inserted_text(g.2);
    let nt = inserted_text(g.3);
    let c = conflict_text(no, nt);
    assert(c.subrange(0, ours_marker().len() as int) =~= ours_marker());
    assert(c.subrange(ours_marker().len() as int, ours_marker().len() + no.len() as int) =~= no);
}

/// Applying groups in each of which both sides insert the same text never
/// reports a conflict: the merge takes the shared text of each group.
pub proof fn law_agreeing_groups_merge_cleanly(
    lines: Seq<Seq<u8>>,
    gs: Seq<(int, int, Seq<(int, int, Seq<u8>)>, Seq<(int, int, Seq<u8>)>)>,
    k: int,
    cursor: int,
)
    requires
        forall|j: int| 0 <= j < gs.len() ==> inserted_text((#[trigger] gs[j]).2) == inserted_text(gs[j].3),
    ensures
        !apply_from(lines, gs, k, cursor).1,
    decreases gs.len() - k,
{
    if 0 <= k < gs.len() {
        law_identical_changes_resolve(gs[k]);
        law_agreeing_groups_merge_cleanly(lines, gs, k + 1, gs[k].1);
    }
}

} // verus!
