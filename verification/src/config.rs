//! The user's global configuration file: lines `key = value`, read by key
//! and rewritten with one key set.

use vstd::prelude::*;
use crate::external::{str_to_chars, chars_to_string};
use crate::text::{
    find_from, find_char, lemma_find_from_bounds, lines, lines_from, split_lines, strip_line_end,
    views, trim_ws, trim_start_ws, trim_end_ws, trim_range, text_equal, push_chars,
    is_unicode_whitespace, lemma_find_first, lemma_lines_shift,
};

verus! {

/// A configuration entry: its key and its value.
pub type Entry = (Seq<char>, Seq<char>);

/// The key and the value of a configuration line: the text before its
/// first '=' and the text after it, each without surrounding whitespace;
/// `None` for a line without '='.
pub open spec fn config_line(line: Seq<char>) -> Option<Entry> {
    let k = find_from(line, 0, '=');
    if k < line.len() {
        Some((trim_ws(line.subrange(0, k)), trim_ws(line.subrange(k + 1, line.len() as int))))
    } else {
        None
    }
}

/// The value that the first line for `key` among `ls` gives.
pub open spec fn config_lookup(ls: Seq<Seq<char>>, key: Seq<char>) -> Option<Seq<char>>
    decreases ls.len(),
{
    if ls.len() == 0 {
        None
    } else if config_line(ls[0]) is Some && config_line(ls[0]).unwrap().0 == key {
        Some(config_line(ls[0]).unwrap().1)
    } else {
        config_lookup(ls.drop_first(), key)
    }
}

/// The position of the first entry for `key` at or after `i`, or `es.len()`.
pub open spec fn entry_index_from(es: Seq<Entry>, key: Seq<char>, i: int) -> int
    decreases es.len() - i,
{
    if i < 0 || i >= es.len() {
        es.len() as int
    } else if es[i].0 == key {
        i
    } else {
        entry_index_from(es, key, i + 1)
    }
}

/// `es` with `key` set to `value`: in place where `key` has an entry,
/// at the end where it has none.
pub open spec fn upsert(es: Seq<Entry>, key: Seq<char>, value: Seq<char>) -> Seq<Entry> {
    let i = entry_index_from(es, key, 0);
    if i < es.len() {
        es.update(i, (key, value))
    } else {
        es.push((key, value))
    }
}

/// The entries of the lines `ls`: each key once, in the order of its first
/// line, with the value of its last line.
pub open spec fn config_entries(ls: Seq<Seq<char>>) -> Seq<Entry>
    decreases ls.len(),
{
    if ls.len() == 0 {
        seq![]
    } else {
        let es = config_entries(ls.drop_last());
        match config_line(ls.last()) {
            Some(e) => upsert(es, e.0, e.1),
            None => es,
        }
    }
}

/// The text of entries: a line `key=value` for each, in order.
pub open spec fn render_entries(es: Seq<Entry>) -> Seq<char>
    decreases es.len(),
{
    if es.len() == 0 {
        seq![]
    } else {
        render_entries(es.drop_last()) + es.last().0 + seq!['='] + es.last().1 + seq!['\n']
    }
}

/// The text of each entry.
pub open spec fn entry_views(es: Seq<(Vec<char>, Vec<char>)>) -> Seq<Entry> {
    es.map_values(|e: (Vec<char>, Vec<char>)| (e.0@, e.1@))
}

/// The text of an optional string.
pub open spec fn opt_text(s: Option<String>) -> Option<Seq<char>> {
    match s {
        Some(t) => Some(t@),
        None => None,
    }
}

/// Splits one line into its key and value.
fn parse_config_line(line: &[char]) -> (r: Option<(Vec<char>, Vec<char>)>)
    ensures
        r is Some <==> config_line(line@) is Some,
        r matches Some(e) ==> config_line(line@) == Some((e.0@, e.1@)),
{
    let k = find_char(line, 0, '=');
    proof {
        lemma_find_from_bounds(line@, 0, '=');
    }
    if k < line.len() {
        let key = trim_range(line, 0, k);
        let value = trim_range(line, k + 1, line.len());
        Some((key, value))
    } else {
        None
    }
}

/// The value the configuration text gives `key`: that of its first line
/// `key = value`, both sides trimmed.
pub fn config_value(content: &str, key: &str) -> (r: Option<String>)
    ensures
        opt_text(r) == config_lookup(split_lines(content@), key@),
{
    let cs = str_to_chars(content);
    let ks = str_to_chars(key);
    let ls = lines(cs.as_slice());
    let mut i: usize = 0;
    assert(views(ls@).skip(0) =~= views(ls@));
    while i < ls.len()
        invariant
            i <= ls@.len(),
            views(ls@) == split_lines(content@),
            ks@ == key@,
            config_lookup(views(ls@).skip(i as int), key@) == config_lookup(split_lines(content@), key@),
        decreases ls@.len() - i,
    {
        let ghost rest = views(ls@).skip(i as int);
        assert(rest[0] == ls@[i as int]@);
        assert(rest.drop_first() =~= views(ls@).skip(i + 1));
        match parse_config_line(ls[i].as_slice()) {
            Some((k, v)) => {
                if text_equal(k.as_slice(), ks.as_slice()) {
                    return Some(chars_to_string(v.as_slice()));
                }
            },
            None => {},
        }
        i += 1;
    }
    assert(views(ls@).skip(i as int).len() == 0);
    None
}

/// Sets `key` to `value` among the entries.
fn upsert_entry(es: &mut Vec<(Vec<char>, Vec<char>)>, key: Vec<char>, value: Vec<char>)
    ensures
        entry_views(final(es)@) == upsert(entry_views(old(es)@), key@, value@),
{
    let ghost v0 = entry_views(es@);
    let mut j: usize = 0;
    while j < es.len()
        invariant
            j <= es@.len(),
            es@ == old(es)@,
            v0 == entry_views(old(es)@),
            entry_index_from(v0, key@, 0) == entry_index_from(v0, key@, j as int),
        decreases es@.len() - j,
    {
        if text_equal(es[j].0.as_slice(), key.as_slice()) {
            assert(entry_index_from(v0, key@, j as int) == j);
            let ghost before = es@;
            es.set(j, (key, value));
            assert(es@ == before.update(j as int, (key, value)));
            assert(entry_views(es@) =~= v0.update(j as int, (key@, value@)));
            assert(upsert(v0, key@, value@) == v0.update(j as int, (key@, value@)));
            return;
        }
        j += 1;
    }
    es.push((key, value));
    assert(entry_views(es@) =~= v0.push((key@, value@)));
}

/// The configuration text with `key` set to `value`: every other key keeps
/// the value of its last line, each key stands on one line `key=value`,
/// in the order of its first line, and a new key comes last.
pub fn updated_config(content: &str, key: &str, value: &str) -> (r: String)
    ensures
        r@ == render_entries(upsert(config_entries(split_lines(content@)), key@, value@)),
{
    let cs = str_to_chars(content);
    let ls = lines(cs.as_slice());
    let mut es: Vec<(Vec<char>, Vec<char>)> = Vec::new();
    let mut i: usize = 0;
    while i < ls.len()
        invariant
            i <= ls@.len(),
            views(ls@) == split_lines(content@),
            entry_views(es@) == config_entries(views(ls@).subrange(0, i as int)),
        decreases ls@.len() - i,
    {
        let ghost prev = views(ls@).subrange(0, i as int);
        let ghost next = views(ls@).subrange(0, i + 1);
        assert(next.drop_last() =~= prev);
        assert(next.last() == ls@[i as int]@);
        match parse_config_line(ls[i].as_slice()) {
            Some((k, v)) => {
                upsert_entry(&mut es, k, v);
            },
            None => {},
        }
        i += 1;
    }
    assert(views(ls@).subrange(0, ls@.len() as int) =~= views(ls@));
    upsert_entry(&mut es, str_to_chars(key), str_to_chars(value));
    let mut out: Vec<char> = Vec::new();
    let mut k: usize = 0;
    while k < es.len()
        invariant
            k <= es@.len(),
            out@ == render_entries(entry_views(es@).subrange(0, k as int)),
        decreases es@.len() - k,
    {
        let ghost prev = entry_views(es@).subrange(0, k as int);
        let ghost next = entry_views(es@).subrange(0, k + 1);
        assert(next.drop_last() =~= prev);
        assert(next.last() == (es@[k as int].0@, es@[k as int].1@));
        push_chars(&mut out, es[k].0.as_slice());
        out.push('=');
        push_chars(&mut out, es[k].1.as_slice());
        out.push('\n');
        assert(out@ =~= render_entries(prev) + next.last().0 + seq!['='] + next.last().1 + seq!['\n']);
        k += 1;
    }
    assert(entry_views(es@).subrange(0, es@.len() as int) =~= entry_views(es@));
    chars_to_string(out.as_slice())
}

/// `s` holds no `c`.
pub open spec fn no_char(s: Seq<char>, c: char) -> bool {
    forall|i: int| 0 <= i < s.len() ==> s[i] != c
}

/// `s` neither starts nor ends with whitespace.
pub open spec fn ws_free_ends(s: Seq<char>) -> bool {
    s.len() == 0 || (!is_unicode_whitespace(s[0]) && !is_unicode_whitespace(s.last()))
}

/// A key that a configuration line can carry: no '=', no line break, no
/// whitespace at its ends.
pub open spec fn clean_key(k: Seq<char>) -> bool {
    no_char(k, '=') && no_char(k, '\n') && ws_free_ends(k)
}

/// A value that a configuration line can carry: no line break, no
/// whitespace at its ends.
pub open spec fn clean_value(v: Seq<char>) -> bool {
    no_char(v, '\n') && ws_free_ends(v)
}

/// Entries that render and read back as themselves: clean keys and values,
/// no key twice.
pub open spec fn clean_entries(es: Seq<Entry>) -> bool {
    &&& forall|i: int| 0 <= i < es.len() ==> clean_key(#[trigger] es[i].0) && clean_value(es[i].1)
    &&& forall|i: int, j: int| 0 <= i < j < es.len() ==> (#[trigger] es[i]).0 != (#[trigger] es[j]).0
}

/// The line of an entry, without its line break.
pub open spec fn entry_line(e: Entry) -> Seq<char> {
    e.0 + seq!['='] + e.1
}

proof fn lemma_lines_no_break(s: Seq<char>, i: int)
    requires
        0 <= i,
    ensures
        forall|j: int| 0 <= j < lines_from(s, i).len() ==> no_char(#[trigger] lines_from(s, i)[j], '\n'),
    decreases s.len() - i,
{
    if i < s.len() {
        lemma_find_from_bounds(s, i, '\n');
        let nl = find_from(s, i, '\n');
        let end = if nl < s.len() { nl + 1 } else { nl };
        let seg = s.subrange(i, end);
        let line = strip_line_end(seg);
        assert(no_char(line, '\n')) by {
            if nl < s.len() {
                assert(seg.drop_last() =~= s.subrange(i, nl));
            }
            assert forall|k: int| 0 <= k < line.len() implies line[k] != '\n' by {
                assert(line[k] == s[i + k]);
            }
        }
        lemma_lines_no_break(s, end);
        assert forall|j: int| 0 <= j < lines_from(s, i).len() implies no_char(#[trigger] lines_from(s, i)[j], '\n') by {
            if j > 0 {
                assert(lines_from(s, i)[j] == lines_from(s, end)[j - 1]);
            }
        }
    }
}

proof fn lemma_trim_start_front(s: Seq<char>)
    ensures
        trim_start_ws(s).len() == 0 || !is_unicode_whitespace(trim_start_ws(s)[0]),
        forall|c: char| no_char(s, c) ==> no_char(trim_start_ws(s), c),
    decreases s.len(),
{
    if s.len() > 0 && is_unicode_whitespace(s[0]) {
        lemma_trim_start_front(s.drop_first());
        assert forall|c: char| no_char(s, c) implies no_char(trim_start_ws(s), c) by {
            assert(no_char(s.drop_first(), c));
        }
    }
}

proof fn lemma_trim_end_ends(u: Seq<char>)
    ensures
        trim_end_ws(u).len() == 0 || !is_unicode_whitespace(trim_end_ws(u).last()),
        trim_end_ws(u).len() > 0 ==> trim_end_ws(u)[0] == u[0],
        forall|c: char| no_char(u, c) ==> no_char(trim_end_ws(u), c),
    decreases u.len(),
{
    if u.len() > 0 && is_unicode_whitespace(u.last()) {
        lemma_trim_end_ends(u.drop_last());
        assert forall|c: char| no_char(u, c) implies no_char(trim_end_ws(u), c) by {
            assert(no_char(u.drop_last(), c));
        }
    }
}

/// What trimming leaves has no whitespace at its ends, and no character
/// that was not there before.
proof fn lemma_trim_clean(s: Seq<char>)
    ensures
        ws_free_ends(trim_ws(s)),
        forall|c: char| no_char(s, c) ==> no_char(trim_ws(s), c),
{
    lemma_trim_start_front(s);
    lemma_trim_end_ends(trim_start_ws(s));
}

/// Trimming leaves a text without whitespace at its ends as it is.
proof fn lemma_trim_identity(s: Seq<char>)
    requires
        ws_free_ends(s),
    ensures
        trim_ws(s) == s,
{
}

/// A line read from a text without line breaks gives a clean entry.
proof fn lemma_line_entry_clean(l: Seq<char>)
    requires
        no_char(l, '\n'),
        config_line(l) is Some,
    ensures
        clean_key(config_line(l).unwrap().0),
        clean_value(config_line(l).unwrap().1),
{
    lemma_find_from_bounds(l, 0, '=');
    let k = find_from(l, 0, '=');
    let a = l.subrange(0, k);
    let b = l.subrange(k + 1, l.len() as int);
    assert(no_char(a, '='));
    assert(no_char(a, '\n'));
    assert(no_char(b, '\n'));
    lemma_trim_clean(a);
    lemma_trim_clean(b);
}

/// The line of a clean entry reads back as the entry.
proof fn lemma_entry_line_reads_back(e: Entry)
    requires
        clean_key(e.0),
        clean_value(e.1),
    ensures
        config_line(entry_line(e)) == Some(e),
{
    let l = entry_line(e);
    let k = e.0.len() as int;
    assert(l[k] == '=');
    assert forall|i: int| 0 <= i < k implies l[i] != '=' by {
        assert(l[i] == e.0[i]);
    }
    lemma_find_first(l, k, '=');
    assert(l.subrange(0, k) =~= e.0);
    assert(l.subrange(k + 1, l.len() as int) =~= e.1);
    lemma_trim_identity(e.0);
    lemma_trim_identity(e.1);
}

proof fn lemma_entry_index(es: Seq<Entry>, key: Seq<char>, i: int)
    requires
        0 <= i <= es.len(),
    ensures
        i <= entry_index_from(es, key, i) <= es.len(),
        entry_index_from(es, key, i) < es.len() ==> es[entry_index_from(es, key, i)].0 == key,
        forall|j: int| i <= j < entry_index_from(es, key, i) ==> es[j].0 != key,
    decreases es.len() - i,
{
    if i < es.len() && es[i].0 != key {
        lemma_entry_index(es, key, i + 1);
    }
}

/// Setting a clean key to a clean value keeps the entries clean, and the
/// result holds the new entry.
proof fn lemma_upsert_clean(es: Seq<Entry>, key: Seq<char>, value: Seq<char>)
    requires
        clean_entries(es),
        clean_key(key),
        clean_value(value),
    ensures
        clean_entries(upsert(es, key, value)),
        upsert(es, key, value).contains((key, value)),
{
    lemma_entry_index(es, key, 0);
    let i = entry_index_from(es, key, 0);
    let r = upsert(es, key, value);
    if i < es.len() {
        assert(r[i] == (key, value));
        assert forall|a: int, b: int| 0 <= a < b < r.len() implies (#[trigger] r[a]).0 != (#[trigger] r[b]).0 by {
            assert(r[a].0 == es[a].0 && r[b].0 == es[b].0);
        }
    } else {
        assert(r[es.len() as int] == (key, value));
        assert forall|a: int, b: int| 0 <= a < b < r.len() implies (#[trigger] r[a]).0 != (#[trigger] r[b]).0 by {
            if b == es.len() {
                assert(r[a] == es[a]);
            } else {
                assert(r[a] == es[a] && r[b] == es[b]);
            }
        }
    }
}

/// The entries read from lines without line breaks are clean.
proof fn lemma_entries_clean(ls: Seq<Seq<char>>)
    requires
        forall|j: int| 0 <= j < ls.len() ==> no_char(#[trigger] ls[j], '\n'),
    ensures
        clean_entries(config_entries(ls)),
    decreases ls.len(),
{
    if ls.len() > 0 {
        let prev = ls.drop_last();
        assert forall|j: int| 0 <= j < prev.len() implies no_char(#[trigger] prev[j], '\n') by {
            assert(prev[j] == ls[j]);
        }
        lemma_entries_clean(prev);
        assert(no_char(ls[ls.len() - 1], '\n'));
        match config_line(ls.last()) {
            Some(e) => {
                lemma_line_entry_clean(ls.last());
                lemma_upsert_clean(config_entries(prev), e.0, e.1);
            },
            None => {},
        }
    }
}

/// The text of entries is the first entry's line and then the text of the
/// others.
proof fn lemma_render_front(es: Seq<Entry>)
    requires
        es.len() > 0,
    ensures
        render_entries(es) == entry_line(es[0]) + seq!['\n'] + render_entries(es.drop_first()),
    decreases es.len(),
{
    if es.len() == 1 {
        assert(es.drop_last() =~= Seq::<Entry>::empty());
        assert(es.drop_first() =~= Seq::<Entry>::empty());
        assert(render_entries(es.drop_last()) == Seq::<char>::empty());
        assert(es.last() == es[0]);
        assert(render_entries(es) =~= entry_line(es[0]) + seq!['\n']);
    } else {
        lemma_render_front(es.drop_last());
        assert(es.drop_last().drop_first() =~= es.drop_first().drop_last());
        assert(es.drop_first().last() == es.last());
        assert(es.drop_last()[0] == es[0]);
        assert(render_entries(es) =~= entry_line(es[0]) + seq!['\n'] + render_entries(es.drop_first()));
    }
}

/// The lines of the text of clean entries are the entries' lines.
proof fn lemma_rendered_lines(es: Seq<Entry>)
    requires
        clean_entries(es),
    ensures
        split_lines(render_entries(es)) == es.map_values(|e: Entry| entry_line(e)),
    decreases es.len(),
{
    if es.len() == 0 {
        assert(split_lines(render_entries(es)) =~= es.map_values(|e: Entry| entry_line(e)));
    } else {
        let rest = es.drop_first();
        assert(clean_entries(rest)) by {
            assert forall|i: int| 0 <= i < rest.len() implies clean_key(#[trigger] rest[i].0) && clean_value(rest[i].1) by {
                assert(rest[i] == es[i + 1]);
                assert(clean_key(es[i + 1].0) && clean_value(es[i + 1].1));
            }
            assert forall|a: int, b: int| 0 <= a < b < rest.len() implies (#[trigger] rest[a]).0 != (#[trigger] rest[b]).0 by {
                assert(rest[a] == es[a + 1] && rest[b] == es[b + 1]);
            }
        }
        lemma_rendered_lines(rest);
        lemma_render_front(es);
        let l = entry_line(es[0]);
        let p = l + seq!['\n'];
        let s = p + render_entries(rest);
        assert(clean_key(es[0].0) && clean_value(es[0].1));
        assert forall|i: int| 0 <= i < l.len() implies s[i] != '\n' by {
            assert(s[i] == l[i]);
            if i < es[0].0.len() {
                assert(l[i] == es[0].0[i]);
            } else if i > es[0].0.len() {
                assert(l[i] == es[0].1[i - es[0].0.len() - 1]);
            }
        }
        assert(s[l.len() as int] == '\n');
        lemma_find_first(s, l.len() as int, '\n');
        assert(s.subrange(0, l.len() as int + 1) =~= p);
        assert(p.drop_last() =~= l);
        assert(l.last() != '\r') by {
            if es[0].1.len() > 0 {
                assert(l.last() == es[0].1.last());
            }
        }
        assert(strip_line_end(p) == l);
        lemma_lines_shift(p, render_entries(rest), 0);
        assert(p + render_entries(rest) == s);
        assert(split_lines(s) =~= seq![l] + split_lines(render_entries(rest)));
        assert(es.map_values(|e: Entry| entry_line(e)) =~= seq![l] + rest.map_values(|e: Entry| entry_line(e)));
    }
}

/// Reading the lines of clean entries finds the value of a key they hold.
proof fn lemma_lookup_finds(es: Seq<Entry>, key: Seq<char>, value: Seq<char>)
    requires
        clean_entries(es),
        es.contains((key, value)),
    ensures
        config_lookup(es.map_values(|e: Entry| entry_line(e)), key) == Some(value),
    decreases es.len(),
{
    let ls = es.map_values(|e: Entry| entry_line(e));
    let i = choose|i: int| 0 <= i < es.len() && es[i] == (key, value);
    assert(clean_key(es[0].0) && clean_value(es[0].1));
    lemma_entry_line_reads_back(es[0]);
    assert(ls[0] == entry_line(es[0]));
    if es[0].0 == key {
        if i != 0 {
            assert(es[0].0 != es[i].0);
        }
    } else {
        let rest = es.drop_first();
        assert(rest[i - 1] == (key, value));
        assert(clean_entries(rest)) by {
            assert forall|a: int| 0 <= a < rest.len() implies clean_key(#[trigger] rest[a].0) && clean_value(rest[a].1) by {
                assert(rest[a] == es[a + 1]);
                assert(clean_key(es[a + 1].0) && clean_value(es[a + 1].1));
            }
            assert forall|a: int, b: int| 0 <= a < b < rest.len() implies (#[trigger] rest[a]).0 != (#[trigger] rest[b]).0 by {
                assert(rest[a] == es[a + 1] && rest[b] == es[b + 1]);
            }
        }
        lemma_lookup_finds(rest, key, value);
        assert(ls.drop_first() =~= rest.map_values(|e: Entry| entry_line(e)));
    }
}

/// A key set in the configuration text reads back with the value it was
/// set to, for a key without '=' or line breaks and a value without line
/// breaks, neither with whitespace at its ends.
pub proof fn law_config_set_then_get(content: Seq<char>, key: Seq<char>, value: Seq<char>)
    requires
        clean_key(key),
        clean_value(value),
    ensures
        config_lookup(split_lines(render_entries(upsert(config_entries(split_lines(content)), key, value))), key)
            == Some(value),
{
    lemma_lines_no_break(content, 0);
    lemma_entries_clean(split_lines(content));
    let es = upsert(config_entries(split_lines(content)), key, value);
    lemma_upsert_clean(config_entries(split_lines(content)), key, value);
    lemma_rendered_lines(es);
    lemma_lookup_finds(es, key, value);
}

} // verus!
