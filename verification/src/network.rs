//! The Git smart-HTTP protocol as far as it is computed rather than sent:
//! reading a branch's head out of a ref advertisement, and writing the
//! pkt-line requests of push and fetch.

use vstd::prelude::*;
use vstd::string::StringSliceAdditionalSpecFns;
use crate::external::{chars_to_string, spec_hex_decode, str_to_chars};
use crate::text::{find_seq, find_seq_from, lines, split_lines, split_whitespace, views, words};

verus! {

/// The ref name of a branch.
pub open spec fn refs_target(branch: Seq<char>) -> Seq<char> {
    "refs/heads/"@ + branch
}

/// The last 40 bytes of a word longer than that, else the word.
pub open spec fn hash_tail(w: Seq<u8>) -> Seq<u8> {
    if w.len() > 40 { w.subrange(w.len() - 40, w.len() as int) } else { w }
}

/// Whether the last 40 bytes of the word start on a character boundary
/// (always so for a word of at most 40 bytes).
pub open spec fn tail_on_boundary(w: Seq<u8>) -> bool {
    w.len() <= 40 || vstd::utf8::is_char_boundary(w, w.len() - 40)
}

/// The hash that hex digits decode to, when they decode to 20 bytes.
pub open spec fn decoded_hash(b: Seq<u8>) -> Option<Seq<u8>> {
    match spec_hex_decode(b) {
        Some(x) => if x.len() == 20 { Some(x) } else { None },
        None => None,
    }
}

/// Reads a ref advertisement line by line for the branch's head: the first
/// line that names the ref and whose first word ends in 40 hex digits gives
/// the hash. `Some(None)` when no line does; `None` when a line that names
/// the ref has a first word whose last 40 bytes would cut a character.
pub open spec fn refs_scan(ls: Seq<Seq<char>>, target: Seq<char>) -> Option<Option<Seq<u8>>>
    decreases ls.len(),
{
    if ls.len() == 0 {
        Some(None)
    } else {
        let line = ls[0];
        let ws = split_whitespace(line);
        if find_seq_from(line, target, 0) != -1 && ws.len() > 0 {
            let w = vstd::utf8::encode_utf8(ws[0]);
            if !tail_on_boundary(w) {
                None
            } else {
                match decoded_hash(hash_tail(w)) {
                    Some(h) => Some(Some(h)),
                    None => refs_scan(ls.drop_first(), target),
                }
            }
        } else {
            refs_scan(ls.drop_first(), target)
        }
    }
}

/// What reading the advertisement `body` for `branch` gives.
pub open spec fn spec_refs_head(body: Seq<char>, branch: Seq<char>) -> Option<Option<Seq<u8>>> {
    refs_scan(split_lines(body), refs_target(branch))
}

/// The hash a first word stands for, or `None` when it stands for none;
/// `Err` when its last 40 bytes would cut a character.
fn word_hash(word: &Vec<char>) -> (r: Result<Option<crate::hash::Hash>, ()>)
    ensures
        match r {
            Err(_) => !tail_on_boundary(vstd::utf8::encode_utf8(word@)),
            Ok(h) => tail_on_boundary(vstd::utf8::encode_utf8(word@))
                && crate::merge::opt_view(h) == decoded_hash(hash_tail(vstd::utf8::encode_utf8(word@))),
        },
{
    let s = chars_to_string(word.as_slice());
    let w = s.as_str();
    let n = w.len();
    let ghost wb = vstd::utf8::encode_utf8(word@);
    assert(w.spec_bytes() == wb);
    let tail: &str = if n > 40 {
        if !w.is_char_boundary(n - 40) {
            return Err(());
        }
        let (_, t) = w.split_at(n - 40);
        assert(t.spec_bytes() == hash_tail(wb));
        t
    } else {
        assert(w.spec_bytes() == hash_tail(wb));
        w
    };
    match crate::hash::Hash::from_hex(tail) {
        Ok(h) => Ok(Some(h)),
        Err(_) => Ok(None),
    }
}

/// Scans the advertisement as `refs_scan` says.
fn scan_refs(body: &str, branch: &str) -> (r: Result<Option<crate::hash::Hash>, ()>)
    ensures
        match r {
            Err(_) => spec_refs_head(body@, branch@) is None,
            Ok(h) => spec_refs_head(body@, branch@) == Some(crate::merge::opt_view(h)),
        },
{
    let mut target = str_to_chars("refs/heads/");
    crate::text::push_str(&mut target, branch);
    let b = str_to_chars(body);
    let ls = lines(b.as_slice());
    let ghost all = views(ls@);
    let mut k: usize = 0;
    assert(all.subrange(0, all.len() as int) =~= all);
    while k < ls.len()
        invariant
            k <= ls@.len(),
            all == views(ls@),
            target@ == refs_target(branch@),
            all == split_lines(body@),
            refs_scan(all, target@) == refs_scan(all.subrange(k as int, all.len() as int), target@),
        decreases ls@.len() - k,
    {
        let line = &ls[k];
        let ghost rest = all.subrange(k as int, all.len() as int);
        proof {
            assert(rest[0] == line@);
            assert(rest.drop_first() =~= all.subrange(k + 1, all.len() as int));
        }
        if find_seq(line.as_slice(), target.as_slice(), 0).is_some() {
            let ws = words(line.as_slice());
            if ws.len() > 0 {
                proof {
                    assert(split_whitespace(line@)[0] == ws@[0]@);
                }
                match word_hash(&ws[0]) {
                    Err(_) => {
                        return Err(());
                    },
                    Ok(Some(h)) => {
                        return Ok(Some(h));
                    },
                    Ok(None) => {},
                }
            }
        }
        k += 1;
    }
    Ok(None)
}

/// The head of `branch` in a ref advertisement: the hash that the first line
/// naming `refs/heads/<branch>` gives with its first word (the last 40
/// digits of it, past any pkt-line length), or `None`.
pub fn parse_discover_refs_body(body: &str, branch: &str) -> (r: Option<crate::hash::Hash>)
    requires
        spec_refs_head(body@, branch@) is Some,
    ensures
        spec_refs_head(body@, branch@) == Some(crate::merge::opt_view(r)),
{
    match scan_refs(body, branch) {
        Ok(h) => h,
        Err(_) => None,
    }
}

/// Whether reading the advertisement for `branch` would cut a character
/// apart, which `parse_discover_refs_body` cannot do.
pub fn refs_body_cuts_char(body: &str, branch: &str) -> (r: bool)
    ensures
        r == (spec_refs_head(body@, branch@) is None),
{
    scan_refs(body, branch).is_err()
}

} // verus!

verus! {

/// The lowercase hex digit for a value below 16.
pub open spec fn hex_digit_char(d: nat) -> char {
    if d < 10 { (48 + d) as char } else { (87 + d) as char }
}

/// A number in lowercase hex, without leading zeros.
pub open spec fn lower_hex(n: nat) -> Seq<char>
    decreases n,
{
    if n < 16 {
        seq![hex_digit_char(n)]
    } else {
        lower_hex(n / 16).push(hex_digit_char(n % 16))
    }
}

/// Digits padded with zeros in front to four (`{:04x}`).
pub open spec fn pad4(s: Seq<char>) -> Seq<char> {
    if s.len() < 4 { Seq::new((4 - s.len()) as nat, |i: int| '0') + s } else { s }
}

/// A pkt-line: four hex digits giving the line's length in bytes, the four
/// included, then the payload.
pub open spec fn pkt_line(payload: Seq<char>) -> Seq<char> {
    pad4(lower_hex(vstd::utf8::encode_utf8(payload).len() + 4)) + payload
}

fn hex_digit(d: usize) -> (c: char)
    requires
        d < 16,
    ensures
        c == hex_digit_char(d as nat),
{
    if d < 10 {
        ((48 + d) as u8) as char
    } else {
        ((87 + d) as u8) as char
    }
}

fn push_lower_hex(out: &mut Vec<char>, n: usize)
    ensures
        final(out)@ == old(out)@ + lower_hex(n as nat),
    decreases n,
{
    if n >= 16 {
        push_lower_hex(out, n / 16);
    }
    let c = hex_digit(n % 16);
    let ghost mid = out@;
    out.push(c);
    assert(out@ =~= old(out)@ + lower_hex(n as nat));
}

/// Appends the payload as a pkt-line.
pub fn push_pkt_line(out: &mut Vec<char>, payload: &[char])
    ensures
        final(out)@ == old(out)@ + pkt_line(payload@),
{
    let text = chars_to_string(payload);
    let n = text.as_str().len();
    let mut digits: Vec<char> = Vec::new();
    push_lower_hex(&mut digits, n + 4);
    assert(digits@ =~= lower_hex((n + 4) as nat));
    let ghost start = out@;
    if digits.len() < 4 {
        let pad = 4 - digits.len();
        let mut k: usize = 0;
        while k < pad
            invariant
                k <= pad,
                out@ == start + Seq::new(k as nat, |i: int| '0'),
            decreases pad - k,
        {
            out.push('0');
            k += 1;
            assert(out@ =~= start + Seq::new(k as nat, |i: int| '0'));
        }
    }
    crate::text::push_chars(out, digits.as_slice());
    crate::text::push_chars(out, payload);
    assert(out@ =~= start + pkt_line(payload@));
}

} // verus!

verus! {

/// The command line of a push: the remote's old head (forty zeros when it
/// has none), our new head, the branch's ref, a NUL and the capability
/// asked for.
pub open spec fn push_command(local: Seq<u8>, remote: Option<Seq<u8>>, branch: Seq<char>) -> Seq<char> {
    (match remote {
        Some(r) => crate::objects::hex_chars(r),
        None => "0000000000000000000000000000000000000000"@,
    }) + " "@ + crate::objects::hex_chars(local) + " refs/heads/"@ + branch + "\0report-status"@
}

/// What a push sends before the packfile: the command as a pkt-line, then a
/// flush packet.
pub open spec fn spec_push_prefix(local: Seq<u8>, remote: Option<Seq<u8>>, branch: Seq<char>) -> Seq<u8> {
    vstd::utf8::encode_utf8(pkt_line(push_command(local, remote, branch)) + "0000"@)
}

/// An optional borrowed hash as optional bytes.
pub open spec fn opt_ref_view(h: Option<&crate::hash::Hash>) -> Option<Seq<u8>> {
    match h {
        Some(x) => Some(x@),
        None => None,
    }
}

/// The bytes a push sends ahead of the packfile.
pub fn push_request_prefix(local_head: &crate::hash::Hash, remote_head: Option<&crate::hash::Hash>, branch: &str) -> (r: Vec<u8>)
    ensures
        r@ == spec_push_prefix(local_head@, opt_ref_view(remote_head), branch@),
{
    let mut cmd: Vec<char> = Vec::new();
    match remote_head {
        Some(h) => crate::text::push_str(&mut cmd, h.to_string().as_str()),
        None => crate::text::push_str(&mut cmd, "0000000000000000000000000000000000000000"),
    }
    crate::text::push_str(&mut cmd, " ");
    crate::text::push_str(&mut cmd, local_head.to_string().as_str());
    crate::text::push_str(&mut cmd, " refs/heads/");
    crate::text::push_str(&mut cmd, branch);
    crate::text::push_str(&mut cmd, "\0report-status");
    let mut out: Vec<char> = Vec::new();
    push_pkt_line(&mut out, cmd.as_slice());
    crate::text::push_str(&mut out, "0000");
    let text = chars_to_string(out.as_slice());
    vstd::slice::slice_to_vec(text.as_str().as_bytes())
}

/// The body of a fetch request: a "want" line as a pkt-line, a flush
/// packet, a "have" line when we have a head, and "done".
pub open spec fn spec_fetch_body(want: Seq<u8>, have: Option<Seq<u8>>) -> Seq<char> {
    pkt_line("want "@ + crate::objects::hex_chars(want) + " multi_ack\n"@) + "0000"@ + (match have {
        Some(h) => pkt_line("have "@ + crate::objects::hex_chars(h) + "\n"@),
        None => Seq::empty(),
    }) + "0009done\n"@
}

/// Builds the body of a fetch request.
pub fn fetch_request_body(want_hash: &crate::hash::Hash, have_hash: Option<&crate::hash::Hash>) -> (r: String)
    ensures
        r@ == spec_fetch_body(want_hash@, opt_ref_view(have_hash)),
{
    let mut want: Vec<char> = Vec::new();
    crate::text::push_str(&mut want, "want ");
    crate::text::push_str(&mut want, want_hash.to_string().as_str());
    crate::text::push_str(&mut want, " multi_ack\n");
    let mut out: Vec<char> = Vec::new();
    push_pkt_line(&mut out, want.as_slice());
    crate::text::push_str(&mut out, "0000");
    let ghost mid = out@;
    match have_hash {
        Some(h) => {
            let mut have: Vec<char> = Vec::new();
            crate::text::push_str(&mut have, "have ");
            crate::text::push_str(&mut have, h.to_string().as_str());
            crate::text::push_str(&mut have, "\n");
            push_pkt_line(&mut out, have.as_slice());
        },
        None => {},
    }
    crate::text::push_str(&mut out, "0009done\n");
    chars_to_string(out.as_slice())
}

/// The value of the Authorization header for a token: HTTP basic
/// authentication as user "git".
pub open spec fn spec_basic_auth(token: Seq<char>) -> Seq<char> {
    "Basic "@ + crate::external::base64_standard(vstd::utf8::encode_utf8("git:"@ + token))
}

/// Builds the Authorization header's value for a token.
pub fn basic_auth_value(token: &str) -> (r: String)
    ensures
        r@ == spec_basic_auth(token@),
{
    let mut cred: Vec<char> = Vec::new();
    crate::text::push_str(&mut cred, "git:");
    crate::text::push_str(&mut cred, token);
    let cred_text = chars_to_string(cred.as_slice());
    let encoded = crate::external::base64_encode(cred_text.as_str().as_bytes());
    let mut out: Vec<char> = Vec::new();
    crate::text::push_str(&mut out, "Basic ");
    crate::text::push_str(&mut out, encoded.as_str());
    chars_to_string(out.as_slice())
}

/// The value of a hex digit of either case, or -1.
pub open spec fn hex_char_value(c: char) -> int {
    if '0' <= c && c <= '9' {
        c as int - 48
    } else if 'a' <= c && c <= 'f' {
        c as int - 87
    } else if 'A' <= c && c <= 'F' {
        c as int - 55
    } else {
        -1
    }
}

/// The value of hex digits, most significant first.
pub open spec fn hex_value_of(s: Seq<char>) -> int
    decreases s.len(),
{
    if s.len() == 0 {
        0
    } else {
        hex_value_of(s.drop_last()) * 16 + hex_char_value(s.last())
    }
}

/// What `usize::from_str_radix(s, 16)` gives for at most four characters:
/// an optional '+' and at least one hex digit of either case.
pub open spec fn spec_parse_hex4(s: Seq<char>) -> Option<int> {
    if digits_after_sign(s).len() == 0 || exists|i: int|
        0 <= i < digits_after_sign(s).len() && hex_char_value(#[trigger] digits_after_sign(s)[i]) < 0 {
        None
    } else {
        Some(hex_value_of(digits_after_sign(s)))
    }
}

/// The text after an optional leading '+'.
pub open spec fn digits_after_sign(s: Seq<char>) -> Seq<char> {
    if s.len() > 0 && s[0] == '+' { s.drop_first() } else { s }
}

/// What to do with what the server sends before the packfile.
#[derive(Debug, PartialEq, Eq)]
pub enum PktStep {
    /// Fewer than four bytes are left, or the packfile starts: stop.
    Stop,
    /// A flush packet (or a length that does not read as hex): skip its
    /// four bytes.
    Flush,
    /// A pkt-line of this many bytes, its length prefix included.
    Line(usize),
}

/// The step that the start of the server's response calls for: its first
/// four bytes are "PACK", or a pkt-line length in hex.
pub open spec fn spec_pkt_step(buf: Seq<u8>) -> (u8, int) {
    if buf.len() < 4 {
        (0u8, 0)
    } else if buf.subrange(0, 4) == seq![0x50u8, 0x41, 0x43, 0x4b] {
        (0u8, 0)
    } else {
        let head = buf.subrange(0, 4);
        let n = if vstd::utf8::valid_utf8(head) {
            match spec_parse_hex4(vstd::utf8::decode_utf8(head)) {
                Some(v) => v,
                None => 0,
            }
        } else {
            0
        };
        if n == 0 { (1u8, 0) } else { (2u8, n) }
    }
}

fn hex_char(c: char) -> (r: Option<usize>)
    ensures
        match r {
            Some(v) => hex_char_value(c) == v as int && v < 16,
            None => hex_char_value(c) < 0,
        },
{
    if '0' <= c && c <= '9' {
        Some((c as u32 - 48) as usize)
    } else if 'a' <= c && c <= 'f' {
        Some((c as u32 - 87) as usize)
    } else if 'A' <= c && c <= 'F' {
        Some((c as u32 - 55) as usize)
    } else {
        None
    }
}

/// Reads a hex length of at most four characters.
fn parse_hex4(s: &[char]) -> (r: Option<usize>)
    requires
        s@.len() <= 4,
    ensures
        match spec_parse_hex4(s@) {
            Some(v) => r == Some(v as usize) && 0 <= v < 0x10000,
            None => r is None,
        },
{
    let start: usize = if s.len() > 0 && s[0] == '+' { 1 } else { 0 };
    let ghost body = if s@.len() > 0 && s@[0] == '+' { s@.drop_first() } else { s@ };
    assert(body =~= s@.subrange(start as int, s@.len() as int));
    if start >= s.len() {
        return None;
    }
    let mut value: usize = 0;
    let mut k = start;
    while k < s.len()
        invariant
            start <= k <= s@.len(),
            s@.len() <= 4,
            body == s@.subrange(start as int, s@.len() as int),
            body == digits_after_sign(s@),
            body.len() > 0,
            forall|j: int| 0 <= j < k - start ==> hex_char_value(#[trigger] body[j]) >= 0,
            value == hex_value_of(body.subrange(0, k - start)),
            value < pow16(k - start),
        decreases s@.len() - k,
    {
        let c = s[k];
        assert(body[k - start] == c);
        match hex_char(c) {
            None => {
                let ghost bad: int = k - start;
                assert(0 <= bad < body.len() && hex_char_value(body[bad]) < 0);
                return None;
            },
            Some(d) => {
                let ghost prefix = body.subrange(0, k + 1 - start);
                assert(prefix.drop_last() =~= body.subrange(0, k - start));
                assert(prefix.last() == c);
                assert(value * 16 + d < pow16(k + 1 - start)) by (nonlinear_arith)
                    requires
                        value < pow16(k - start),
                        d < 16,
                        pow16(k + 1 - start) == pow16(k - start) * 16,
                ;
                value = value * 16 + d;
                k += 1;
            },
        }
    }
    assert(body.subrange(0, body.len() as int) =~= body);
    Some(value)
}

/// 16 to the power `n`, for `n` up to 4.
pub open spec fn pow16(n: int) -> int {
    if n <= 0 { 1 } else if n == 1 { 16 } else if n == 2 { 256 } else if n == 3 { 4096 } else { 65536 }
}

/// Decides what the start of the server's response calls for.
pub fn pkt_step(buf: &[u8]) -> (r: PktStep)
    ensures
        match spec_pkt_step(buf@) {
            (0u8, _) => r is Stop,
            (1u8, _) => r is Flush,
            (_, n) => r matches PktStep::Line(m) && m as int == n,
        },
{
    if buf.len() < 4 {
        return PktStep::Stop;
    }
    let head = crate::textmerge::copy_bytes(buf, 0, 4);
    if head[0] == 0x50u8 && head[1] == 0x41u8 && head[2] == 0x43u8 && head[3] == 0x4bu8 {
        assert(buf@.subrange(0, 4) =~= seq![0x50u8, 0x41, 0x43, 0x4b]);
        return PktStep::Stop;
    }
    proof {
        if buf@.subrange(0, 4) == seq![0x50u8, 0x41, 0x43, 0x4b] {
            assert(head@[0] == 0x50u8 && head@[1] == 0x41u8 && head@[2] == 0x43u8 && head@[3] == 0x4bu8);
        }
    }
    let n: usize = match crate::external::utf8_str(head.as_slice()) {
        Some(text) => {
            let cs = str_to_chars(text);
            proof {
                vstd::utf8::decode_utf8_encode_utf8(head@);
                crate::text::lemma_encode_utf8_len(cs@);
            }
            match parse_hex4(cs.as_slice()) {
                Some(v) => v,
                None => 0,
            }
        },
        None => 0,
    };
    if n == 0 {
        PktStep::Flush
    } else {
        PktStep::Line(n)
    }
}

/// A push names the remote's current head as the ref's old value: the
/// command starts with the remote head's hex digits when the remote has
/// the branch, and with forty zeros (a new ref) only when it has not.
pub proof fn law_push_names_remote_head(local: Seq<u8>, remote: Option<Seq<u8>>, branch: Seq<char>)
    ensures
        remote matches Some(r) ==> push_command(local, remote, branch).subrange(0, crate::objects::hex_chars(r).len() as int)
            == crate::objects::hex_chars(r),
        remote is None ==> push_command(local, remote, branch).subrange(0, 40)
            == "0000000000000000000000000000000000000000"@,
{
    reveal_strlit("0000000000000000000000000000000000000000");
    match remote {
        Some(r) => {
            let h = crate::objects::hex_chars(r);
            assert(push_command(local, remote, branch).subrange(0, h.len() as int) =~= h);
        },
        None => {
            let z = "0000000000000000000000000000000000000000"@;
            assert(push_command(local, remote, branch).subrange(0, 40) =~= z);
        },
    }
}

} // verus!
