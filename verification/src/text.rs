//! Text helpers shared by the parsers and encoders: Unicode whitespace, line
//! splitting, and unsigned numbers in decimal and octal.

use vstd::prelude::*;
use crate::external::str_to_chars;

verus! {

/// The characters that `char::is_whitespace` accepts (Unicode White_Space).
pub open spec fn is_unicode_whitespace(c: char) -> bool {
    let u = c as u32;
    (0x09 <= u <= 0x0d) || u == 0x20 || u == 0x85 || u == 0xa0 || u == 0x1680 || (0x2000 <= u
        <= 0x200a) || u == 0x2028 || u == 0x2029 || u == 0x202f || u == 0x205f || u == 0x3000
}

/// Whether `c` is Unicode whitespace.
pub fn is_whitespace(c: char) -> (r: bool)
    ensures
        r == is_unicode_whitespace(c),
{
    let u = c as u32;
    (0x09 <= u && u <= 0x0d) || u == 0x20 || u == 0x85 || u == 0xa0 || u == 0x1680 || (0x2000 <= u
        && u <= 0x200a) || u == 0x2028 || u == 0x2029 || u == 0x202f || u == 0x205f || u == 0x3000
}

/// The whitespace-separated words of `s[i..]`, `cur` being the word read so
/// far.
pub open spec fn words_from(s: Seq<char>, i: int, cur: Seq<char>) -> Seq<Seq<char>>
    decreases s.len() - i,
{
    if i < 0 || i >= s.len() {
        if cur.len() > 0 {
            seq![cur]
        } else {
            seq![]
        }
    } else if is_unicode_whitespace(s[i]) {
        if cur.len() > 0 {
            seq![cur] + words_from(s, i + 1, Seq::empty())
        } else {
            words_from(s, i + 1, Seq::empty())
        }
    } else {
        words_from(s, i + 1, cur.push(s[i]))
    }
}

/// The words of `s` as `str::split_whitespace` yields them: the maximal runs
/// of characters that are not whitespace.
pub open spec fn split_whitespace(s: Seq<char>) -> Seq<Seq<char>> {
    words_from(s, 0, Seq::empty())
}

/// The contents of a list of character vectors.
pub open spec fn views(v: Seq<Vec<char>>) -> Seq<Seq<char>> {
    v.map_values(|x: Vec<char>| x@)
}

/// Splits `s` into its whitespace-separated words.
pub fn words(s: &[char]) -> (r: Vec<Vec<char>>)
    ensures
        views(r@) == split_whitespace(s@),
{
    let mut out: Vec<Vec<char>> = Vec::new();
    let mut cur: Vec<char> = Vec::new();
    let mut i: usize = 0;
    while i < s.len()
        invariant
            i <= s@.len(),
            views(out@) + words_from(s@, i as int, cur@) == split_whitespace(s@),
        decreases s@.len() - i,
    {
        let ghost before = views(out@);
        if is_whitespace(s[i]) {
            if cur.len() > 0 {
                let w = cur;
                out.push(w);
                cur = Vec::new();
                assert(views(out@) =~= before.push(w@));
                assert(views(out@) + words_from(s@, i + 1, cur@) =~= before + (seq![w@]
                    + words_from(s@, i + 1, Seq::empty())));
            } else {
                assert(cur@ =~= Seq::<char>::empty());
            }
        } else {
            cur.push(s[i]);
        }
        i += 1;
    }
    if cur.len() > 0 {
        let ghost before = views(out@);
        let w = cur;
        out.push(w);
        assert(views(out@) =~= before + seq![w@]);
    } else {
        assert(views(out@) =~= views(out@) + words_from(s@, i as int, cur@));
    }
    out
}

/// The position of the first `c` in `s` at or after `i`, or `s.len()`.
pub open spec fn find_from(s: Seq<char>, i: int, c: char) -> int
    decreases s.len() - i,
{
    if i < 0 || i >= s.len() {
        s.len() as int
    } else if s[i] == c {
        i
    } else {
        find_from(s, i + 1, c)
    }
}

/// A line with its terminator removed: a final "\n", and then a "\r"
/// before it.
pub open spec fn strip_line_end(seg: Seq<char>) -> Seq<char> {
    if seg.len() > 0 && seg.last() == '\n' {
        let t = seg.drop_last();
        if t.len() > 0 && t.last() == '\r' {
            t.drop_last()
        } else {
            t
        }
    } else {
        seg
    }
}

/// The lines of `s[i..]` as `str::lines` yields them.
pub open spec fn lines_from(s: Seq<char>, i: int) -> Seq<Seq<char>>
    decreases s.len() - i,
{
    if i < 0 || i >= s.len() {
        seq![]
    } else {
        let nl = find_from(s, i, '\n');
        let end = if nl < s.len() { nl + 1 } else { nl };
        proof {
            lemma_find_from_bounds(s, i, '\n');
        }
        seq![strip_line_end(s.subrange(i, end))] + lines_from(s, end)
    }
}

/// The lines of `s`: pieces ended by "\n" (with a "\r" before it removed
/// too); a last piece without "\n" counts when it is not empty.
pub open spec fn split_lines(s: Seq<char>) -> Seq<Seq<char>> {
    lines_from(s, 0)
}

pub proof fn lemma_find_from_bounds(s: Seq<char>, i: int, c: char)
    requires
        0 <= i <= s.len(),
    ensures
        i <= find_from(s, i, c) <= s.len(),
        find_from(s, i, c) < s.len() ==> s[find_from(s, i, c)] == c,
        forall|k: int| i <= k < find_from(s, i, c) ==> s[k] != c,
    decreases s.len() - i,
{
    if i < s.len() && s[i] != c {
        lemma_find_from_bounds(s, i + 1, c);
    }
}

/// Finds the first `c` at or after `i`.
pub fn find_char(s: &[char], i: usize, c: char) -> (r: usize)
    requires
        i <= s@.len(),
    ensures
        r == find_from(s@, i as int, c),
{
    let mut k = i;
    while k < s.len()
        invariant
            i <= k <= s@.len(),
            find_from(s@, i as int, c) == find_from(s@, k as int, c),
        decreases s@.len() - k,
    {
        if s[k] == c {
            return k;
        }
        k += 1;
    }
    k
}

/// Copies `s[from..to]`.
pub fn copy_chars(s: &[char], from: usize, to: usize) -> (r: Vec<char>)
    requires
        from <= to <= s@.len(),
    ensures
        r@ == s@.subrange(from as int, to as int),
{
    let mut r: Vec<char> = Vec::new();
    let mut k = from;
    while k < to
        invariant
            from <= k <= to <= s@.len(),
            r@ == s@.subrange(from as int, k as int),
        decreases to - k,
    {
        r.push(s[k]);
        k += 1;
        assert(r@ =~= s@.subrange(from as int, k as int));
    }
    r
}

/// Removes a line terminator as `str::lines` does.
pub fn strip_terminator(seg: Vec<char>) -> (r: Vec<char>)
    ensures
        r@ == strip_line_end(seg@),
{
    let mut t = seg;
    if t.len() > 0 && t[t.len() - 1] == '\n' {
        t.pop();
        if t.len() > 0 && t[t.len() - 1] == '\r' {
            t.pop();
        }
    }
    t
}

/// Splits `s` into lines.
pub fn lines(s: &[char]) -> (r: Vec<Vec<char>>)
    ensures
        views(r@) == split_lines(s@),
{
    let mut out: Vec<Vec<char>> = Vec::new();
    let mut i: usize = 0;
    while i < s.len()
        invariant
            i <= s@.len(),
            views(out@) + lines_from(s@, i as int) == split_lines(s@),
        decreases s@.len() - i,
    {
        let nl = find_char(s, i, '\n');
        proof {
            lemma_find_from_bounds(s@, i as int, '\n');
        }
        let end = if nl < s.len() { nl + 1 } else { nl };
        let seg = copy_chars(s, i, end);
        let line = strip_terminator(seg);
        let ghost before = views(out@);
        out.push(line);
        assert(views(out@) =~= before.push(line@));
        assert(views(out@) + lines_from(s@, end as int) =~= before + lines_from(s@, i as int));
        i = end;
    }
    out
}

/// Appends the characters of `s`.
pub fn push_str(out: &mut Vec<char>, s: &str)
    ensures
        final(out)@ == old(out)@ + s@,
{
    let cs = str_to_chars(s);
    push_chars(out, &cs);
}

/// Appends characters.
pub fn push_chars(out: &mut Vec<char>, cs: &[char])
    ensures
        final(out)@ == old(out)@ + cs@,
{
    let ghost start = out@;
    let mut k: usize = 0;
    while k < cs.len()
        invariant
            k <= cs@.len(),
            out@ == start + cs@.subrange(0, k as int),
        decreases cs@.len() - k,
    {
        out.push(cs[k]);
        k += 1;
        assert(out@ =~= start + cs@.subrange(0, k as int));
    }
    assert(cs@.subrange(0, cs@.len() as int) =~= cs@);
}

/// The ASCII digit of a value below 10.
pub open spec fn ascii_digit(d: nat) -> u8 {
    (48 + d) as u8
}

/// The digits of `n` in base `radix` (2 to 10), most significant first,
/// without leading zeros ("0" for zero), as ASCII bytes.
pub open spec fn radix_digits(n: nat, radix: nat) -> Seq<u8>
    decreases n,
{
    if radix < 2 || n < radix {
        seq![ascii_digit(n % 10)]
    } else {
        proof {
            lemma_div_smaller(n, radix);
        }
        radix_digits(n / radix, radix).push(ascii_digit(n % radix))
    }
}

pub proof fn lemma_div_smaller(n: nat, radix: nat)
    requires
        radix >= 2,
        n >= radix,
    ensures
        n / radix < n,
{
    assert(n / radix < n) by (nonlinear_arith)
        requires
            radix >= 2,
            n >= radix,
    ;
}

/// Decimal digits, as `format!("{}", n)` writes them.
pub open spec fn decimal(n: nat) -> Seq<u8> {
    radix_digits(n, 10)
}

/// Octal digits, as `format!("{:o}", n)` writes them.
pub open spec fn octal(n: nat) -> Seq<u8> {
    radix_digits(n, 8)
}

/// Appends the digits of `n` in base `radix`.
pub fn push_digits(out: &mut Vec<u8>, n: u64, radix: u64)
    requires
        2 <= radix <= 10,
    ensures
        final(out)@ == old(out)@ + radix_digits(n as nat, radix as nat),
    decreases n,
{
    if n < radix {
        out.push((48 + n % 10) as u8);
    } else {
        proof {
            lemma_div_smaller(n as nat, radix as nat);
        }
        push_digits(out, n / radix, radix);
        out.push((48 + n % radix) as u8);
    }
}

/// The ASCII bytes of a character sequence that is all ASCII.
pub open spec fn ascii_chars(b: Seq<u8>) -> Seq<char> {
    b.map_values(|x: u8| x as char)
}

/// Appends the characters of ASCII bytes.
pub fn push_ascii(out: &mut Vec<char>, b: &[u8])
    requires
        forall|k: int| 0 <= k < b@.len() ==> b@[k] < 128,
    ensures
        final(out)@ == old(out)@ + ascii_chars(b@),
{
    let ghost start = out@;
    let mut k: usize = 0;
    while k < b.len()
        invariant
            k <= b@.len(),
            out@ == start + ascii_chars(b@.subrange(0, k as int)),
        decreases b@.len() - k,
    {
        out.push(b[k] as char);
        assert(ascii_chars(b@.subrange(0, k + 1)) =~= ascii_chars(b@.subrange(0, k as int)).push(
            b@[k as int] as char,
        ));
        k += 1;
        assert(out@ =~= start + ascii_chars(b@.subrange(0, k as int)));
    }
    assert(b@.subrange(0, b@.len() as int) =~= b@);
}

pub proof fn lemma_radix_digits_ascii(n: nat, radix: nat)
    requires
        radix <= 10,
    ensures
        forall|k: int| 0 <= k < radix_digits(n, radix).len() ==> 48 <= #[trigger] radix_digits(n, radix)[k] < 58,
        radix_digits(n, radix).len() >= 1,
    decreases n,
{
    if radix < 2 || n < radix {
    } else {
        lemma_div_smaller(n, radix);
        lemma_radix_digits_ascii(n / radix, radix);
    }
}

/// Whether a character is a digit below `radix`.
pub open spec fn is_radix_digit(c: char, radix: nat) -> bool {
    48 <= (c as u32) < 48 + radix
}

/// The value of a run of digits, most significant first.
pub open spec fn digits_value(s: Seq<char>, radix: nat) -> nat
    decreases s.len(),
{
    if s.len() == 0 {
        0
    } else {
        digits_value(s.drop_last(), radix) * radix + ((s.last() as u32) - 48) as nat
    }
}

/// Whether every character of `s` is a digit below `radix`.
pub open spec fn all_radix_digits(s: Seq<char>, radix: nat) -> bool {
    forall|k: int| 0 <= k < s.len() ==> is_radix_digit(#[trigger] s[k], radix)
}

/// What `from_str_radix` (and `str::parse`) makes of `s` for an unsigned
/// type whose largest value is `max`: an optional '+', then at least one
/// digit below `radix`, and a value that fits.
pub open spec fn spec_parse_unsigned(s: Seq<char>, radix: nat, max: nat) -> Option<nat> {
    let body = if s.len() > 0 && s[0] == '+' { s.drop_first() } else { s };
    if body.len() == 0 {
        None
    } else if !all_radix_digits(body, radix) {
        None
    } else if digits_value(body, radix) > max {
        None
    } else {
        Some(digits_value(body, radix))
    }
}

pub proof fn lemma_digits_value_monotone(s: Seq<char>, radix: nat, j: int)
    requires
        radix >= 1,
        0 <= j <= s.len(),
        forall|k: int| 0 <= k < s.len() ==> is_radix_digit(#[trigger] s[k], radix),
    ensures
        digits_value(s.subrange(0, j), radix) <= digits_value(s, radix),
    decreases s.len() - j,
{
    if j < s.len() {
        lemma_digits_value_monotone(s, radix, j + 1);
        let p = s.subrange(0, j + 1);
        assert(p.drop_last() =~= s.subrange(0, j));
        assert(is_radix_digit(s[j], radix));
        assert(p.last() == s[j]);
        let v = digits_value(s.subrange(0, j), radix);
        assert(v * radix >= v) by (nonlinear_arith)
            requires
                radix >= 1,
        ;
        assert(digits_value(p, radix) == digits_value(p.drop_last(), radix) * radix + ((p.last() as u32) - 48) as nat);
        assert(digits_value(p, radix) >= v);
    } else {
        assert(s.subrange(0, j) =~= s);
    }
}

/// Parses an unsigned number in base `radix` no larger than `max`, as
/// `u64::from_str_radix` and `u32::from_str_radix` do.
pub fn parse_unsigned(s: &[char], radix: u64, max: u64) -> (r: Option<u64>)
    requires
        2 <= radix <= 10,
    ensures
        match spec_parse_unsigned(s@, radix as nat, max as nat) {
            Some(v) => r == Some(v as u64),
            None => r is None,
        },
{
    let start: usize = if s.len() > 0 && s[0] == '+' { 1 } else { 0 };
    let ghost body = if s@.len() > 0 && s@[0] == '+' { s@.drop_first() } else { s@ };
    assert(body =~= s@.subrange(start as int, s@.len() as int));
    if start >= s.len() {
        return None;
    }
    let mut value: u64 = 0;
    let mut k = start;
    assert(body.subrange(0, 0) =~= Seq::<char>::empty());
    while k < s.len()
        invariant
            start <= k <= s@.len(),
            body == s@.subrange(start as int, s@.len() as int),
            body == (if s@.len() > 0 && s@[0] == '+' { s@.drop_first() } else { s@ }),
            body.len() > 0,
            2 <= radix <= 10,
            forall|j: int| 0 <= j < k - start ==> is_radix_digit(#[trigger] body[j], radix as nat),
            value == digits_value(body.subrange(0, k - start), radix as nat),
            value <= max,
        decreases s@.len() - k,
    {
        let c = s[k];
        let u = c as u32;
        assert(body[k - start] == c);
        if !(48 <= u && (u as u64) < 48 + radix) {
            assert(!is_radix_digit(body[k - start], radix as nat));
            assert(exists|q: int| 0 <= q < body.len() && !is_radix_digit(#[trigger] body[q], radix as nat));
            return None;
        }
        let d = (u - 48) as u64;
        let ghost prefix = body.subrange(0, k + 1 - start);
        assert(prefix.drop_last() =~= body.subrange(0, k - start));
        assert(prefix.last() == c);
        assert(digits_value(prefix, radix as nat) == value * radix + d);
        let over = if value > max / radix {
            true
        } else {
            assert(value * radix <= max) by (nonlinear_arith)
                requires
                    value <= max / radix,
                    radix >= 2,
            ;
            d > max - value * radix
        };
        if over {
            proof {
                if value > max / radix {
                    assert(value * radix > max) by (nonlinear_arith)
                        requires
                            value > max / radix,
                            radix >= 2,
                    ;
                }
                assert(digits_value(prefix, radix as nat) > max);
                if forall|j: int| 0 <= j < body.len() ==> is_radix_digit(#[trigger] body[j], radix as nat) {
                    lemma_digits_value_monotone(body, radix as nat, k + 1 - start);
                    assert(digits_value(body, radix as nat) > max);
                }
                assert(spec_parse_unsigned(s@, radix as nat, max as nat) is None);
            }
            return None;
        }
        value = value * radix + d;
        k += 1;
    }
    assert(body.subrange(0, body.len() as int) =~= body);
    Some(value)
}

/// Whether `p` occurs in `s` at position `k`.
pub open spec fn occurs_at(s: Seq<char>, p: Seq<char>, k: int) -> bool {
    0 <= k && k + p.len() <= s.len() && s.subrange(k, k + p.len()) == p
}

/// Whether `s` starts with `p`.
pub open spec fn starts_with(s: Seq<char>, p: Seq<char>) -> bool {
    occurs_at(s, p, 0)
}

/// Whether `s` ends with `p`.
pub open spec fn ends_with(s: Seq<char>, p: Seq<char>) -> bool {
    occurs_at(s, p, s.len() - p.len())
}

/// The first position at or after `i` where `p` occurs in `s`, or -1.
pub open spec fn find_seq_from(s: Seq<char>, p: Seq<char>, i: int) -> int
    decreases s.len() + 1 - i,
{
    if i < 0 || i + p.len() > s.len() {
        -1
    } else if occurs_at(s, p, i) {
        i
    } else {
        find_seq_from(s, p, i + 1)
    }
}

pub proof fn lemma_find_seq_from(s: Seq<char>, p: Seq<char>, i: int)
    requires
        0 <= i,
    ensures
        find_seq_from(s, p, i) == -1 || (i <= find_seq_from(s, p, i) && occurs_at(s, p, find_seq_from(s, p, i))),
        forall|k: int| i <= k && (find_seq_from(s, p, i) == -1 || k < find_seq_from(s, p, i)) ==> !occurs_at(s, p, k),
    decreases s.len() + 1 - i,
{
    if i + p.len() <= s.len() && !occurs_at(s, p, i) {
        lemma_find_seq_from(s, p, i + 1);
    }
}

/// Whether `p` occurs in `s` at `k`.
pub fn matches_at(s: &[char], p: &[char], k: usize) -> (r: bool)
    ensures
        r == occurs_at(s@, p@, k as int),
{
    if k > s.len() || p.len() > s.len() - k {
        return false;
    }
    let mut m: usize = 0;
    while m < p.len()
        invariant
            s@.len() <= usize::MAX,
            k + p@.len() <= s@.len(),
            m <= p@.len(),
            s@.subrange(k as int, k + m) == p@.subrange(0, m as int),
        decreases p@.len() - m,
    {
        if s[k + m] != p[m] {
            assert(s@.subrange(k as int, k + p@.len())[m as int] != p@[m as int]);
            return false;
        }
        assert(s@.subrange(k as int, k + m + 1) =~= s@.subrange(k as int, k + m).push(s@[k + m]));
        assert(p@.subrange(0, m + 1) =~= p@.subrange(0, m as int).push(p@[m as int]));
        m += 1;
    }
    assert(p@.subrange(0, m as int) =~= p@);
    true
}

/// The first position at or after `i` where `p` occurs in `s`.
pub fn find_seq(s: &[char], p: &[char], i: usize) -> (r: Option<usize>)
    ensures
        match r {
            Some(k) => k == find_seq_from(s@, p@, i as int),
            None => find_seq_from(s@, p@, i as int) == -1,
        },
{
    if p.len() == 0 {
        if i <= s.len() {
            assert(s@.subrange(i as int, i as int) =~= p@);
            return Some(i);
        }
        return None;
    }
    let mut k = i;
    while k <= s.len() && p.len() <= s.len() - k
        invariant
            i <= k,
            p@.len() > 0,
            find_seq_from(s@, p@, i as int) == find_seq_from(s@, p@, k as int),
        decreases s@.len() + 1 - k,
    {
        if matches_at(s, p, k) {
            return Some(k);
        }
        k += 1;
    }
    None
}

/// `s` with every `c` at its end removed.
pub open spec fn trim_end_char(s: Seq<char>, c: char) -> Seq<char>
    decreases s.len(),
{
    if s.len() > 0 && s.last() == c {
        trim_end_char(s.drop_last(), c)
    } else {
        s
    }
}

/// The position of the last `c` in `s`, or -1.
pub open spec fn rfind_char(s: Seq<char>, c: char) -> int
    decreases s.len(),
{
    if s.len() == 0 {
        -1
    } else if s.last() == c {
        s.len() - 1
    } else {
        rfind_char(s.drop_last(), c)
    }
}

pub proof fn lemma_rfind_char(s: Seq<char>, c: char)
    ensures
        -1 <= rfind_char(s, c) < s.len(),
        rfind_char(s, c) >= 0 ==> s[rfind_char(s, c)] == c,
        forall|k: int| rfind_char(s, c) < k < s.len() ==> s[k] != c,
    decreases s.len(),
{
    if s.len() > 0 && s.last() != c {
        lemma_rfind_char(s.drop_last(), c);
        assert forall|k: int| rfind_char(s, c) < k < s.len() implies s[k] != c by {
            if k < s.len() - 1 {
                assert(s.drop_last()[k] == s[k]);
            }
        }
    }
}

/// The number of characters left after removing every `c` at the end.
pub fn trimmed_len(s: &[char], c: char) -> (n: usize)
    ensures
        n <= s@.len(),
        trim_end_char(s@, c) == s@.subrange(0, n as int),
{
    let mut n = s.len();
    assert(s@.subrange(0, n as int) =~= s@);
    while n > 0 && s[n - 1] == c
        invariant
            n <= s@.len(),
            trim_end_char(s@, c) == trim_end_char(s@.subrange(0, n as int), c),
        decreases n,
    {
        assert(s@.subrange(0, n as int).drop_last() =~= s@.subrange(0, n - 1));
        n -= 1;
    }
    n
}

/// The position of the last `c` among the first `n` characters.
pub fn rfind_in(s: &[char], n: usize, c: char) -> (r: Option<usize>)
    requires
        n <= s@.len(),
    ensures
        match r {
            Some(k) => k == rfind_char(s@.subrange(0, n as int), c),
            None => rfind_char(s@.subrange(0, n as int), c) == -1,
        },
{
    let mut m = n;
    while m > 0
        invariant
            m <= n <= s@.len(),
            rfind_char(s@.subrange(0, n as int), c) == rfind_char(s@.subrange(0, m as int), c),
        decreases m,
    {
        if s[m - 1] == c {
            return Some(m - 1);
        }
        assert(s@.subrange(0, m as int).drop_last() =~= s@.subrange(0, m - 1));
        m -= 1;
    }
    None
}

/// The last position at or before `k` where `p` occurs in `s`, or -1.
pub open spec fn rfind_seq_from(s: Seq<char>, p: Seq<char>, k: int) -> int
    decreases k + 1,
{
    if k < 0 {
        -1
    } else if occurs_at(s, p, k) {
        k
    } else {
        rfind_seq_from(s, p, k - 1)
    }
}

/// The last position where `p` occurs in `s`, or -1.
pub open spec fn rfind_seq(s: Seq<char>, p: Seq<char>) -> int {
    rfind_seq_from(s, p, s.len() - p.len())
}

pub proof fn lemma_rfind_seq_from(s: Seq<char>, p: Seq<char>, k: int)
    ensures
        rfind_seq_from(s, p, k) == -1 || (0 <= rfind_seq_from(s, p, k) <= k && occurs_at(s, p, rfind_seq_from(s, p, k))),
    decreases k + 1,
{
    if k >= 0 && !occurs_at(s, p, k) {
        lemma_rfind_seq_from(s, p, k - 1);
    }
}

/// The last position where `p` occurs in `s`.
pub fn rfind_str(s: &[char], p: &[char]) -> (r: Option<usize>)
    ensures
        match r {
            Some(k) => k == rfind_seq(s@, p@) && occurs_at(s@, p@, k as int),
            None => rfind_seq(s@, p@) == -1,
        },
{
    proof {
        lemma_rfind_seq_from(s@, p@, s@.len() - p@.len());
    }
    if p.len() > s.len() {
        return None;
    }
    let mut k = s.len() - p.len();
    loop
        invariant
            k + p@.len() <= s@.len(),
            rfind_seq(s@, p@) == rfind_seq_from(s@, p@, k as int),
        decreases k,
    {
        if matches_at(s, p, k) {
            return Some(k);
        }
        if k == 0 {
            assert(rfind_seq_from(s@, p@, -1) == -1);
            return None;
        }
        k -= 1;
    }
}

/// Lines joined with "\n" between them.
pub open spec fn join_newline(ls: Seq<Seq<char>>) -> Seq<char>
    decreases ls.len(),
{
    if ls.len() == 0 {
        Seq::empty()
    } else if ls.len() == 1 {
        ls[0]
    } else {
        join_newline(ls.drop_last()) + seq!['\n'] + ls.last()
    }
}

/// Joins `ls[from..]` with "\n" between the lines.
pub fn join_with_newlines(ls: &[Vec<char>], from: usize) -> (r: Vec<char>)
    requires
        from <= ls@.len(),
    ensures
        r@ == join_newline(views(ls@).subrange(from as int, ls@.len() as int)),
{
    let mut r: Vec<char> = Vec::new();
    let mut k = from;
    while k < ls.len()
        invariant
            from <= k <= ls@.len(),
            r@ == join_newline(views(ls@).subrange(from as int, k as int)),
        decreases ls@.len() - k,
    {
        let ghost prev = views(ls@).subrange(from as int, k as int);
        if k > from {
            r.push('\n');
        }
        push_chars(&mut r, ls[k].as_slice());
        proof {
            let next = views(ls@).subrange(from as int, k + 1);
            assert(next.drop_last() =~= prev);
            assert(next.last() == ls@[k as int]@);
            if k == from {
                assert(next.len() == 1);
            }
        }
        k += 1;
    }
    r
}

/// Texts joined with `sep` between them.
pub open spec fn join_sep(ls: Seq<Seq<char>>, sep: Seq<char>) -> Seq<char>
    decreases ls.len(),
{
    if ls.len() == 0 {
        Seq::empty()
    } else if ls.len() == 1 {
        ls[0]
    } else {
        join_sep(ls.drop_last(), sep) + sep + ls.last()
    }
}

/// Joins texts with `sep` between them.
pub fn join_texts(ls: &[Vec<char>], sep: &[char]) -> (r: Vec<char>)
    ensures
        r@ == join_sep(views(ls@), sep@),
{
    let mut r: Vec<char> = Vec::new();
    let mut k: usize = 0;
    while k < ls.len()
        invariant
            k <= ls@.len(),
            r@ == join_sep(views(ls@).subrange(0, k as int), sep@),
        decreases ls@.len() - k,
    {
        let ghost prev = views(ls@).subrange(0, k as int);
        if k > 0 {
            push_chars(&mut r, sep);
        }
        push_chars(&mut r, ls[k].as_slice());
        proof {
            let next = views(ls@).subrange(0, k + 1);
            assert(next.drop_last() =~= prev);
            assert(next.last() == ls@[k as int]@);
        }
        k += 1;
    }
    assert(views(ls@).subrange(0, ls@.len() as int) =~= views(ls@));
    r
}

/// Whether two texts are equal.
pub fn text_equal(a: &[char], b: &[char]) -> (r: bool)
    ensures
        r == (a@ == b@),
{
    if a.len() != b.len() {
        return false;
    }
    let mut k: usize = 0;
    while k < a.len()
        invariant
            a@.len() == b@.len(),
            k <= a@.len(),
            a@.subrange(0, k as int) == b@.subrange(0, k as int),
        decreases a@.len() - k,
    {
        if a[k] != b[k] {
            assert(a@[k as int] != b@[k as int]);
            return false;
        }
        assert(a@.subrange(0, k + 1) =~= a@.subrange(0, k as int).push(a@[k as int]));
        assert(b@.subrange(0, k + 1) =~= b@.subrange(0, k as int).push(b@[k as int]));
        k += 1;
    }
    assert(a@ =~= a@.subrange(0, k as int));
    assert(b@ =~= b@.subrange(0, k as int));
    true
}

/// `s` without the whitespace at its start.
pub open spec fn trim_start_ws(s: Seq<char>) -> Seq<char>
    decreases s.len(),
{
    if s.len() > 0 && is_unicode_whitespace(s[0]) {
        trim_start_ws(s.drop_first())
    } else {
        s
    }
}

/// `s` without the whitespace at its end.
pub open spec fn trim_end_ws(s: Seq<char>) -> Seq<char>
    decreases s.len(),
{
    if s.len() > 0 && is_unicode_whitespace(s.last()) {
        trim_end_ws(s.drop_last())
    } else {
        s
    }
}

/// `s` without whitespace at either end (`str::trim`).
pub open spec fn trim_ws(s: Seq<char>) -> Seq<char> {
    trim_end_ws(trim_start_ws(s))
}

/// Removes the whitespace at both ends of `s[from..to]`.
pub fn trim_range(s: &[char], from: usize, to: usize) -> (r: Vec<char>)
    requires
        from <= to <= s@.len(),
    ensures
        r@ == trim_ws(s@.subrange(from as int, to as int)),
{
    let mut a = from;
    while a < to && is_whitespace(s[a])
        invariant
            from <= a <= to <= s@.len(),
            trim_start_ws(s@.subrange(from as int, to as int)) == trim_start_ws(s@.subrange(a as int, to as int)),
        decreases to - a,
    {
        assert(s@.subrange(a as int, to as int).drop_first() =~= s@.subrange(a + 1, to as int));
        a += 1;
    }
    let mut b = to;
    while b > a && is_whitespace(s[b - 1])
        invariant
            a <= b <= to <= s@.len(),
            trim_end_ws(s@.subrange(a as int, to as int)) == trim_end_ws(s@.subrange(a as int, b as int)),
        decreases b - a,
    {
        assert(s@.subrange(a as int, b as int).drop_last() =~= s@.subrange(a as int, b - 1));
        b -= 1;
    }
    copy_chars(s, a, b)
}

/// Text never has more characters than its UTF-8 encoding has bytes.
pub proof fn lemma_encode_utf8_len(chars: Seq<char>)
    ensures
        vstd::utf8::encode_utf8(chars).len() >= chars.len(),
    decreases chars.len(),
{
    if chars.len() > 0 {
        lemma_encode_utf8_len(chars.drop_first());
    }
}

pub proof fn lemma_find_first(s: Seq<char>, k: int, c: char)
    requires
        0 <= k < s.len(),
        s[k] == c,
        forall|i: int| 0 <= i < k ==> s[i] != c,
    ensures
        find_from(s, 0, c) == k,
{
    lemma_find_from_bounds(s, 0, c);
    let f = find_from(s, 0, c);
    if f > k {
        assert(s[k] != c);
    }
}

pub proof fn lemma_find_shift(p: Seq<char>, r: Seq<char>, j: int, c: char)
    requires
        0 <= j,
    ensures
        find_from(p + r, p.len() + j, c) == p.len() + find_from(r, j, c),
    decreases r.len() - j,
{
    if j < r.len() {
        assert((p + r)[p.len() + j] == r[j]);
        if r[j] != c {
            lemma_find_shift(p, r, j + 1, c);
        }
    }
}

pub proof fn lemma_lines_shift(p: Seq<char>, r: Seq<char>, j: int)
    requires
        0 <= j,
    ensures
        lines_from(p + r, p.len() + j) == lines_from(r, j),
    decreases r.len() - j,
{
    if j < r.len() {
        let s = p + r;
        lemma_find_shift(p, r, j, '\n');
        lemma_find_from_bounds(r, j, '\n');
        let nl = find_from(r, j, '\n');
        let end = if nl < r.len() { nl + 1 } else { nl };
        assert(s.subrange(p.len() + j, p.len() + end) =~= r.subrange(j, end));
        lemma_lines_shift(p, r, end);
    }
}

/// A line without a line break, a "\n", then more text: the lines are that
/// line and then the lines of the rest.
pub proof fn lemma_line_then(l: Seq<char>, r: Seq<char>)
    requires
        forall|i: int| 0 <= i < l.len() ==> l[i] != '\n',
        l.len() == 0 || l.last() != '\r',
    ensures
        split_lines(l + seq!['\n'] + r) == seq![l] + split_lines(r),
{
    let p = l + seq!['\n'];
    let s = p + r;
    assert forall|i: int| 0 <= i < l.len() implies s[i] != '\n' by {
        assert(s[i] == l[i]);
    }
    assert(s[l.len() as int] == '\n');
    lemma_find_first(s, l.len() as int, '\n');
    assert(s.subrange(0, l.len() as int + 1) =~= p);
    assert(p.drop_last() =~= l);
    assert(strip_line_end(p) == l);
    lemma_lines_shift(p, r, 0);
    assert(l + seq!['\n'] + r == s);
    assert(split_lines(s) =~= seq![l] + split_lines(r));
}

} // verus!
