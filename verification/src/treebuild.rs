//! Building the hierarchy of tree objects that a commit records from the
//! flat list of staged paths.

use vstd::prelude::*;
use crate::external::{sha1_digest, zlib_compress};
use crate::objects::{entries_view, entry_view, tree_object};
use crate::utils::forward_slashes;

verus! {

/// The mode of a regular file's entry.
pub open spec fn file_mode() -> u32 {
    0o100644
}

/// The mode of a directory's entry.
pub open spec fn dir_mode() -> u32 {
    0o040000
}

/// How a staged path is filed at the current level, slashes normalized:
/// `(1, name, _)` a file here (a path without a slash, or with a single
/// trailing one); `(2, dir, rest)` a path inside directory `dir`;
/// `(0, _, _)` a path left out (an empty name or directory).
pub open spec fn classify(p: Seq<char>) -> (u8, Seq<char>, Seq<char>) {
    let q = forward_slashes(p);
    let k = crate::text::find_from(q, 0, '/');
    if k >= q.len() {
        if q.len() > 0 { (1u8, q, Seq::empty()) } else { (0u8, q, Seq::empty()) }
    } else if k == q.len() - 1 {
        if k > 0 { (1u8, q.subrange(0, k), Seq::empty()) } else { (0u8, q, Seq::empty()) }
    } else if k > 0 {
        (2u8, q.subrange(0, k), q.subrange(k + 1, q.len() as int))
    } else {
        (0u8, q, Seq::empty())
    }
}

/// The total length of the paths, one more for each.
pub open spec fn total_len(f: Seq<(Seq<char>, Seq<u8>)>) -> nat
    decreases f.len(),
{
    if f.len() == 0 {
        0
    } else {
        total_len(f.drop_last()) + f.last().0.len() + 1
    }
}

/// The file entries of the current level, in order.
pub open spec fn file_entries(f: Seq<(Seq<char>, Seq<u8>)>) -> Seq<(u32, Seq<char>, Seq<u8>)>
    decreases f.len(),
{
    if f.len() == 0 {
        Seq::empty()
    } else {
        let c = classify(f.last().0);
        if c.0 == 1 {
            file_entries(f.drop_last()).push((file_mode(), c.1, f.last().1))
        } else {
            file_entries(f.drop_last())
        }
    }
}

/// The directories of the current level, each once, in the order in which
/// they first occur.
pub open spec fn dir_names(f: Seq<(Seq<char>, Seq<u8>)>) -> Seq<Seq<char>>
    decreases f.len(),
{
    if f.len() == 0 {
        Seq::empty()
    } else {
        let c = classify(f.last().0);
        let ns = dir_names(f.drop_last());
        if c.0 == 2 && !ns.contains(c.1) {
            ns.push(c.1)
        } else {
            ns
        }
    }
}

/// The paths inside directory `d`, relative to it, in order.
pub open spec fn members(f: Seq<(Seq<char>, Seq<u8>)>, d: Seq<char>) -> Seq<(Seq<char>, Seq<u8>)>
    decreases f.len(),
{
    if f.len() == 0 {
        Seq::empty()
    } else {
        let c = classify(f.last().0);
        if c.0 == 2 && c.1 == d {
            members(f.drop_last(), d).push((c.2, f.last().1))
        } else {
            members(f.drop_last(), d)
        }
    }
}

pub proof fn lemma_classify_rest_shorter(p: Seq<char>)
    ensures
        classify(p).0 == 2 ==> classify(p).2.len() + 1 < p.len() + 1,
{
    let q = forward_slashes(p);
    crate::text::lemma_find_from_bounds(q, 0, '/');
}

pub proof fn lemma_members_shorter(f: Seq<(Seq<char>, Seq<u8>)>, d: Seq<char>)
    ensures
        total_len(members(f, d)) + members(f, d).len() <= total_len(f),
    decreases f.len(),
{
    if f.len() > 0 {
        lemma_members_shorter(f.drop_last(), d);
        lemma_classify_rest_shorter(f.last().0);
        let c = classify(f.last().0);
        let m0 = members(f.drop_last(), d);
        if c.0 == 2 && c.1 == d {
            let m = m0.push((c.2, f.last().1));
            assert(m.drop_last() =~= m0);
            assert(total_len(m) == total_len(m0) + c.2.len() + 1);
        }
    }
}

pub proof fn lemma_dir_names_members(f: Seq<(Seq<char>, Seq<u8>)>, d: Seq<char>)
    ensures
        dir_names(f).contains(d) ==> members(f, d).len() > 0,
        dir_names(f).len() <= f.len(),
    decreases f.len(),
{
    if f.len() > 0 {
        lemma_dir_names_members(f.drop_last(), d);
        let c = classify(f.last().0);
        let ns = dir_names(f.drop_last());
        if c.0 == 2 && !ns.contains(c.1) && c.1 == d {
            assert(members(f, d).len() > 0);
        }
        if dir_names(f).contains(d) && !ns.contains(d) {
            let i = choose|i: int| 0 <= i < dir_names(f).len() && dir_names(f)[i] == d;
            assert(i == ns.len());
        }
    }
}

/// Strict lexicographic order of byte strings: at the first difference the
/// smaller byte comes first, and a proper prefix comes before the longer
/// string.
pub open spec fn bytes_lt(a: Seq<u8>, b: Seq<u8>) -> bool
    decreases a.len(),
{
    if a.len() == 0 {
        b.len() > 0
    } else if b.len() == 0 {
        false
    } else if a[0] != b[0] {
        a[0] < b[0]
    } else {
        bytes_lt(a.drop_first(), b.drop_first())
    }
}

/// What Git orders a tree entry by: the UTF-8 bytes of its name, with a
/// '/' after the name of a directory.
pub open spec fn sort_key(e: (u32, Seq<char>, Seq<u8>)) -> Seq<u8> {
    vstd::utf8::encode_utf8(e.1) + (if e.0 == dir_mode() { seq![0x2fu8] } else { Seq::empty() })
}

/// Whether entry `a` comes before entry `b` in Git's canonical tree order.
pub open spec fn entry_lt(a: (u32, Seq<char>, Seq<u8>), b: (u32, Seq<char>, Seq<u8>)) -> bool {
    bytes_lt(sort_key(a), sort_key(b))
}

/// Whether `a` comes before `b` bytewise.
pub fn bytes_less(a: &[u8], b: &[u8]) -> (r: bool)
    ensures
        r == bytes_lt(a@, b@),
{
    let mut k: usize = 0;
    assert(a@.subrange(0, a@.len() as int) =~= a@);
    assert(b@.subrange(0, b@.len() as int) =~= b@);
    while k < a.len() && k < b.len()
        invariant
            k <= a@.len(),
            k <= b@.len(),
            bytes_lt(a@, b@) == bytes_lt(a@.subrange(k as int, a@.len() as int), b@.subrange(k as int, b@.len() as int)),
        decreases a@.len() - k,
    {
        let ghost sa = a@.subrange(k as int, a@.len() as int);
        let ghost sb = b@.subrange(k as int, b@.len() as int);
        proof {
            assert(sa[0] == a@[k as int]);
            assert(sb[0] == b@[k as int]);
        }
        if a[k] != b[k] {
            return a[k] < b[k];
        }
        proof {
            assert(sa.drop_first() =~= a@.subrange(k + 1, a@.len() as int));
            assert(sb.drop_first() =~= b@.subrange(k + 1, b@.len() as int));
        }
        k += 1;
    }
    k == a.len() && k < b.len()
}

/// The bytes an entry is ordered by.
fn entry_sort_key(e: &(u32, String, crate::hash::Hash)) -> (r: Vec<u8>)
    ensures
        r@ == sort_key(crate::objects::entry_view(*e)),
{
    let mut key: Vec<u8> = Vec::new();
    crate::objects::push_bytes(&mut key, e.1.as_str().as_bytes());
    if e.0 == 0o040000 {
        key.push(0x2f);
    }
    proof {
        if e.0 == dir_mode() {
            assert(key@ =~= sort_key(crate::objects::entry_view(*e)));
        } else {
            assert(key@ =~= sort_key(crate::objects::entry_view(*e)));
        }
    }
    key
}

/// Inserts an entry into entries in Git's tree order, after those that do
/// not come after it (so equal entries keep their order).
pub open spec fn insert_by_name(sorted: Seq<(u32, Seq<char>, Seq<u8>)>, e: (u32, Seq<char>, Seq<u8>)) -> Seq<(u32, Seq<char>, Seq<u8>)>
    decreases sorted.len(),
{
    if sorted.len() == 0 {
        seq![e]
    } else if entry_lt(e, sorted.last()) {
        insert_by_name(sorted.drop_last(), e).push(sorted.last())
    } else {
        sorted.push(e)
    }
}

/// Entries in Git's canonical tree order (names compared bytewise, a
/// directory's name read with a '/' after it), equal entries in their given
/// order (what a stable sort gives).
pub open spec fn sort_by_name(es: Seq<(u32, Seq<char>, Seq<u8>)>) -> Seq<(u32, Seq<char>, Seq<u8>)>
    decreases es.len(),
{
    if es.len() == 0 {
        Seq::empty()
    } else {
        insert_by_name(sort_by_name(es.drop_last()), es.last())
    }
}

/// The entries of the tree of the paths `f`: a file entry for each file at
/// this level and a directory entry for each directory (pointing at the
/// tree of the paths inside it), in Git's canonical tree order.
pub open spec fn tree_entries(f: Seq<(Seq<char>, Seq<u8>)>) -> Seq<(u32, Seq<char>, Seq<u8>)>
    decreases total_len(f), f.len() + 1,
{
    proof {
        lemma_dir_names_members(f, Seq::empty());
    }
    sort_by_name(file_entries(f) + dir_entries(f, dir_names(f)))
}

/// The directory entries for the directories `ns` of the paths `f`.
pub open spec fn dir_entries(f: Seq<(Seq<char>, Seq<u8>)>, ns: Seq<Seq<char>>) -> Seq<(u32, Seq<char>, Seq<u8>)>
    decreases total_len(f), ns.len(),
{
    if ns.len() == 0 || ns.len() > f.len() {
        Seq::empty()
    } else {
        let d = ns.last();
        proof {
            lemma_members_shorter(f, d);
        }
        let rest = dir_entries(f, ns.drop_last());
        if members(f, d).len() == 0 {
            rest
        } else {
            rest.push((dir_mode(), d, sha1_digest(tree_object(tree_entries(members(f, d))))))
        }
    }
}

/// The identity of the tree of the paths `f`.
pub open spec fn tree_hash_of(f: Seq<(Seq<char>, Seq<u8>)>) -> Seq<u8> {
    sha1_digest(tree_object(tree_entries(f)))
}

/// The stored form of the tree of the paths `f`.
pub open spec fn tree_stored_of(f: Seq<(Seq<char>, Seq<u8>)>) -> Seq<u8> {
    zlib_compress(tree_object(tree_entries(f)))
}

/// Every tree below the tree of the paths `f` (its own not included), as
/// identity and stored form: for each directory in order, the trees below
/// it and then its own.
pub open spec fn subtrees(f: Seq<(Seq<char>, Seq<u8>)>) -> Seq<(Seq<u8>, Seq<u8>)>
    decreases total_len(f), f.len() + 1,
{
    proof {
        lemma_dir_names_members(f, Seq::empty());
    }
    dir_subtrees(f, dir_names(f))
}

/// The trees below and of the directories `ns` of the paths `f`.
pub open spec fn dir_subtrees(f: Seq<(Seq<char>, Seq<u8>)>, ns: Seq<Seq<char>>) -> Seq<(Seq<u8>, Seq<u8>)>
    decreases total_len(f), ns.len(),
{
    if ns.len() == 0 || ns.len() > f.len() {
        Seq::empty()
    } else {
        let d = ns.last();
        proof {
            lemma_members_shorter(f, d);
        }
        let rest = dir_subtrees(f, ns.drop_last());
        if members(f, d).len() == 0 {
            rest
        } else {
            rest + subtrees(members(f, d)) + seq![(
                sha1_digest(tree_object(tree_entries(members(f, d)))),
                zlib_compress(tree_object(tree_entries(members(f, d)))),
            )]
        }
    }
}

/// Where `e` goes among entries sorted by name: after the last entry whose
/// name is not greater.
pub proof fn lemma_insert_by_name_at(sorted: Seq<(u32, Seq<char>, Seq<u8>)>, e: (u32, Seq<char>, Seq<u8>), j: int)
    requires
        0 <= j <= sorted.len(),
        forall|i: int| j <= i < sorted.len() ==> entry_lt(e, #[trigger] sorted[i]),
        j > 0 ==> !entry_lt(e, sorted[j - 1]),
    ensures
        insert_by_name(sorted, e) == sorted.insert(j, e),
    decreases sorted.len(),
{
    if sorted.len() == 0 {
        assert(sorted.insert(j, e) =~= seq![e]);
    } else if j == sorted.len() {
        assert(sorted.insert(j, e) =~= sorted.push(e));
    } else {
        assert(entry_lt(e, sorted.last()));
        let init = sorted.drop_last();
        assert forall|i: int| j <= i < init.len() implies entry_lt(e, #[trigger] init[i]) by {
            assert(init[i] == sorted[i]);
        }
        if j > 0 {
            assert(init[j - 1] == sorted[j - 1]);
        }
        lemma_insert_by_name_at(init, e, j);
        assert(init.insert(j, e).push(sorted.last()) =~= sorted.insert(j, e));
    }
}

/// The entries as plain values.
pub open spec fn tree_entry_views(es: Seq<(u32, String, crate::hash::Hash)>) -> Seq<(u32, Seq<char>, Seq<u8>)> {
    entries_view(es)
}

/// Sorts entries into Git's canonical tree order, keeping equal entries in
/// their order.
pub fn sort_entries(es: Vec<(u32, String, crate::hash::Hash)>) -> (r: Vec<(u32, String, crate::hash::Hash)>)
    ensures
        entries_view(r@) == sort_by_name(entries_view(es@)),
{
    let mut out: Vec<(u32, String, crate::hash::Hash)> = Vec::new();
    let mut k: usize = 0;
    while k < es.len()
        invariant
            k <= es@.len(),
            entries_view(out@) == sort_by_name(entries_view(es@.subrange(0, k as int))),
        decreases es@.len() - k,
    {
        let e = &es[k];
        let ek = entry_sort_key(e);
        let mut j = out.len();
        let ghost sorted = entries_view(out@);
        let ghost ev = crate::objects::entry_view(es@[k as int]);
        while j > 0
            invariant
                j <= out@.len(),
                sorted == entries_view(out@),
                ek@ == sort_key(ev),
                forall|i: int| j <= i < sorted.len() ==> entry_lt(ev, #[trigger] sorted[i]),
            ensures
                j <= out@.len(),
                forall|i: int| j <= i < sorted.len() ==> entry_lt(ev, #[trigger] sorted[i]),
                j > 0 ==> !entry_lt(ev, sorted[j - 1]),
            decreases j,
        {
            let ok = entry_sort_key(&out[j - 1]);
            proof {
                assert(sorted[j - 1] == crate::objects::entry_view(out@[j - 1]));
            }
            if !bytes_less(ek.as_slice(), ok.as_slice()) {
                break;
            }
            j -= 1;
        }
        proof {
            lemma_insert_by_name_at(sorted, ev, j as int);
        }
        out.insert(j, (e.0, e.1.clone(), e.2));
        proof {
            assert(entries_view(out@) =~= sorted.insert(j as int, ev));
            let pre = entries_view(es@.subrange(0, k + 1));
            assert(pre.drop_last() =~= entries_view(es@.subrange(0, k as int)));
            assert(pre.last() == ev);
        }
        k += 1;
    }
    proof {
        assert(es@.subrange(0, es@.len() as int) =~= es@);
    }
    out
}

/// The staged paths as plain values.
pub open spec fn file_views(files: Seq<(String, crate::hash::Hash)>) -> Seq<(Seq<char>, Seq<u8>)> {
    files.map_values(|e: (String, crate::hash::Hash)| (e.0@, e.1@))
}

/// Files a path as `classify` says.
fn classify_path(p: &String) -> (r: (u8, Vec<char>, Vec<char>))
    ensures
        (r.0, r.1@, r.2@) == classify(p@),
{
    let cs = crate::external::str_to_chars(p.as_str());
    let mut q: Vec<char> = Vec::new();
    let mut i: usize = 0;
    while i < cs.len()
        invariant
            i <= cs@.len(),
            q@ == forward_slashes(cs@.subrange(0, i as int)),
        decreases cs@.len() - i,
    {
        q.push(if cs[i] == '\\' { '/' } else { cs[i] });
        i += 1;
        assert(q@ =~= forward_slashes(cs@.subrange(0, i as int)));
    }
    assert(cs@.subrange(0, cs@.len() as int) =~= cs@);
    proof {
        crate::text::lemma_find_from_bounds(q@, 0, '/');
    }
    let k = crate::text::find_char(q.as_slice(), 0, '/');
    let n = q.len();
    if k >= n {
        if n > 0 { (1, q, Vec::new()) } else { (0, q, Vec::new()) }
    } else if k == n - 1 {
        if k > 0 {
            let name = crate::text::copy_chars(q.as_slice(), 0, k);
            (1, name, Vec::new())
        } else {
            (0, q, Vec::new())
        }
    } else if k > 0 {
        let d = crate::text::copy_chars(q.as_slice(), 0, k);
        let rest = crate::text::copy_chars(q.as_slice(), k + 1, n);
        (2, d, rest)
    } else {
        (0, q, Vec::new())
    }
}

/// The paths inside directory `d`, relative to it.
fn collect_members(files: &[(String, crate::hash::Hash)], d: &Vec<char>) -> (r: Vec<(String, crate::hash::Hash)>)
    ensures
        file_views(r@) == members(file_views(files@), d@),
{
    let ghost fv = file_views(files@);
    let mut r: Vec<(String, crate::hash::Hash)> = Vec::new();
    let mut k: usize = 0;
    while k < files.len()
        invariant
            k <= files@.len(),
            fv == file_views(files@),
            file_views(r@) == members(fv.subrange(0, k as int), d@),
        decreases files@.len() - k,
    {
        let c = classify_path(&files[k].0);
        let ghost before = file_views(r@);
        let hit = c.0 == 2 && crate::text::text_equal(c.1.as_slice(), d.as_slice());
        if hit {
            r.push((crate::external::chars_to_string(c.2.as_slice()), files[k].1));
        }
        proof {
            let pre = fv.subrange(0, k + 1);
            assert(pre.drop_last() =~= fv.subrange(0, k as int));
            assert(pre.last() == (files@[k as int].0@, files@[k as int].1@));
            if hit {
                assert(file_views(r@) =~= before.push((c.2@, files@[k as int].1@)));
            } else {
                assert(file_views(r@) =~= before);
            }
        }
        k += 1;
    }
    assert(fv.subrange(0, fv.len() as int) =~= fv);
    r
}

/// Whether `d` is among the names.
fn has_name(names: &Vec<Vec<char>>, d: &Vec<char>) -> (r: bool)
    ensures
        r == crate::text::views(names@).contains(d@),
{
    let mut k: usize = 0;
    while k < names.len()
        invariant
            k <= names@.len(),
            forall|i: int| 0 <= i < k ==> names@[i]@ != d@,
        decreases names@.len() - k,
    {
        if crate::text::text_equal(names[k].as_slice(), d.as_slice()) {
            assert(crate::text::views(names@)[k as int] == d@);
            return true;
        }
        k += 1;
    }
    proof {
        if crate::text::views(names@).contains(d@) {
            let i = choose|i: int| 0 <= i < names@.len() && crate::text::views(names@)[i] == d@;
            assert(names@[i]@ == d@);
        }
    }
    false
}

/// Builds the tree of the staged paths and every tree below it: gives the
/// tree's identity and stored form, and appends each tree below it to
/// `trees_to_store`.
pub fn build_tree_recursive(
    files: &[(String, crate::hash::Hash)],
    trees_to_store: &mut Vec<(crate::hash::Hash, Vec<u8>)>,
) -> (r: (crate::hash::Hash, Vec<u8>))
    ensures
        r.0@ == tree_hash_of(file_views(files@)),
        r.1@ == tree_stored_of(file_views(files@)),
        final(trees_to_store)@.map_values(|t: (crate::hash::Hash, Vec<u8>)| (t.0@, t.1@))
            == old(trees_to_store)@.map_values(|t: (crate::hash::Hash, Vec<u8>)| (t.0@, t.1@)) + subtrees(file_views(files@)),
    decreases total_len(file_views(files@)),
{
    let ghost fv = file_views(files@);
    let ghost stored_view = |t: (crate::hash::Hash, Vec<u8>)| (t.0@, t.1@);
    let ghost start = trees_to_store@.map_values(stored_view);
    // The files of this level and the directories, in order.
    let mut entries: Vec<(u32, String, crate::hash::Hash)> = Vec::new();
    let mut names: Vec<Vec<char>> = Vec::new();
    let mut k: usize = 0;
    while k < files.len()
        invariant
            k <= files@.len(),
            fv == file_views(files@),
            entries_view(entries@) == file_entries(fv.subrange(0, k as int)),
            crate::text::views(names@) == dir_names(fv.subrange(0, k as int)),
        decreases files@.len() - k,
    {
        let c = classify_path(&files[k].0);
        let ghost e0 = entries_view(entries@);
        let ghost n0 = crate::text::views(names@);
        proof {
            let pre = fv.subrange(0, k + 1);
            assert(pre.drop_last() =~= fv.subrange(0, k as int));
            assert(pre.last() == (files@[k as int].0@, files@[k as int].1@));
        }
        if c.0 == 1 {
            entries.push((0o100644u32, crate::external::chars_to_string(c.1.as_slice()), files[k].1));
            assert(entries_view(entries@) =~= e0.push((file_mode(), c.1@, files@[k as int].1@)));
        }
        if c.0 == 2 && !has_name(&names, &c.1) {
            names.push(c.1);
            assert(crate::text::views(names@) =~= n0.push(c.1@));
        }
        k += 1;
    }
    assert(fv.subrange(0, fv.len() as int) =~= fv);
    let ghost ns = crate::text::views(names@);
    proof {
        lemma_dir_names_members(fv, Seq::empty());
    }
    // A directory entry for each directory, with its tree built first.
    let mut dirs: Vec<(u32, String, crate::hash::Hash)> = Vec::new();
    let mut j: usize = 0;
    while j < names.len()
        invariant
            j <= names@.len(),
            fv == file_views(files@),
            ns == crate::text::views(names@),
            ns == dir_names(fv),
            ns.len() <= fv.len(),
            stored_view == (|t: (crate::hash::Hash, Vec<u8>)| (t.0@, t.1@)),
            entries_view(dirs@) == dir_entries(fv, ns.subrange(0, j as int)),
            trees_to_store@.map_values(stored_view) == start + dir_subtrees(fv, ns.subrange(0, j as int)),
        decreases names@.len() - j,
    {
        let d = &names[j];
        let ghost pre = ns.subrange(0, j + 1);
        proof {
            assert(pre.drop_last() =~= ns.subrange(0, j as int));
            assert(pre.last() == d@);
            assert(ns.contains(d@)) by {
                assert(ns[j as int] == d@);
            }
            lemma_dir_names_members(fv, d@);
            lemma_members_shorter(fv, d@);
        }
        let sub = collect_members(files, d);
        let ghost before = trees_to_store@.map_values(stored_view);
        let (h, st) = build_tree_recursive(sub.as_slice(), trees_to_store);
        let ghost mid = trees_to_store@.map_values(stored_view);
        trees_to_store.push((h, st.clone()));
        proof {
            assert(trees_to_store@.map_values(stored_view) =~= mid.push((h@, st@)));
        }
        let ghost d0 = entries_view(dirs@);
        dirs.push((0o040000u32, crate::external::chars_to_string(d.as_slice()), h));
        proof {
            assert(entries_view(dirs@) =~= d0.push((dir_mode(), d@, h@)));
            assert(trees_to_store@.map_values(stored_view) =~= start + dir_subtrees(fv, pre));
        }
        j += 1;
    }
    assert(ns.subrange(0, ns.len() as int) =~= ns);
    // All entries of this level, sorted by name.
    let mut all = entries;
    let ghost fe = entries_view(all@);
    let mut m: usize = 0;
    while m < dirs.len()
        invariant
            m <= dirs@.len(),
            entries_view(all@) == fe + entries_view(dirs@).subrange(0, m as int),
        decreases dirs@.len() - m,
    {
        let ghost prev = entries_view(all@);
        let name = dirs[m].1.clone();
        all.push((dirs[m].0, name, dirs[m].2));
        proof {
            assert(entries_view(all@) =~= prev.push(crate::objects::entry_view(dirs@[m as int])));
            assert(entries_view(dirs@).subrange(0, m + 1) =~= entries_view(dirs@).subrange(0, m as int).push(
                crate::objects::entry_view(dirs@[m as int]),
            ));
        }
        m += 1;
    }
    assert(entries_view(dirs@).subrange(0, m as int) =~= entries_view(dirs@));
    let sorted = sort_entries(all);
    let h = crate::objects::hash_tree(sorted.as_slice());
    let st = crate::objects::compress_tree(sorted.as_slice());
    (h, st)
}

/// A path inside a directory: the name alone at the top, else
/// `prefix/name`.
pub open spec fn join_path(prefix: Seq<char>, name: Seq<char>) -> Seq<char> {
    if prefix.len() == 0 {
        name
    } else {
        prefix + seq!['/'] + name
    }
}

/// The entries of one stored tree read under `prefix`: the files with their
/// paths, and the subdirectories with theirs, each in the tree's order.
pub open spec fn split_level(prefix: Seq<char>, es: Seq<(u32, Seq<char>, Seq<u8>)>) -> (
    Seq<(Seq<char>, Seq<u8>)>,
    Seq<(Seq<char>, Seq<u8>)>,
)
    decreases es.len(),
{
    if es.len() == 0 {
        (seq![], seq![])
    } else {
        let r = split_level(prefix, es.drop_last());
        let e = es.last();
        if e.0 == dir_mode() {
            (r.0, r.1.push((join_path(prefix, e.1), e.2)))
        } else {
            (r.0.push((join_path(prefix, e.1), e.2)), r.1)
        }
    }
}

/// One step of flattening a commit's tree: the files of a tree found at
/// `prefix`, and the subtrees still to read, with their paths.
pub fn tree_level(prefix: &str, entries: &[(u32, String, crate::hash::Hash)]) -> (r: (
    Vec<(String, crate::hash::Hash)>,
    Vec<(String, crate::hash::Hash)>,
))
    ensures
        (file_views(r.0@), file_views(r.1@)) == split_level(prefix@, entries_view(entries@)),
{
    let pc = crate::external::str_to_chars(prefix);
    let mut files: Vec<(String, crate::hash::Hash)> = Vec::new();
    let mut dirs: Vec<(String, crate::hash::Hash)> = Vec::new();
    let mut k: usize = 0;
    while k < entries.len()
        invariant
            k <= entries@.len(),
            pc@ == prefix@,
            (file_views(files@), file_views(dirs@)) == split_level(prefix@, entries_view(entries@).subrange(0, k as int)),
        decreases entries@.len() - k,
    {
        let ghost prev = entries_view(entries@).subrange(0, k as int);
        let ghost next = entries_view(entries@).subrange(0, k + 1);
        assert(next.drop_last() =~= prev);
        assert(next.last() == entry_view(entries@[k as int]));
        let mut path: Vec<char> = Vec::new();
        if pc.len() > 0 {
            crate::text::push_chars(&mut path, pc.as_slice());
            path.push('/');
        }
        crate::text::push_str(&mut path, entries[k].1.as_str());
        assert(path@ == join_path(prefix@, entries@[k as int].1@));
        let item = (crate::external::chars_to_string(path.as_slice()), entries[k].2);
        if entries[k].0 == 0o040000 {
            let ghost before = file_views(dirs@);
            dirs.push(item);
            assert(file_views(dirs@) =~= before.push((item.0@, item.1@)));
        } else {
            let ghost before = file_views(files@);
            files.push(item);
            assert(file_views(files@) =~= before.push((item.0@, item.1@)));
        }
        k += 1;
    }
    assert(entries_view(entries@).subrange(0, entries@.len() as int) =~= entries_view(entries@));
    (files, dirs)
}

} // verus!
