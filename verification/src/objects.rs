//! Git's canonical object encodings: the "<kind> <size>\0" header, blob,
//! tree and commit contents, their SHA-1 identities and zlib storage form,
//! and the parsers that read them back.

use vstd::prelude::*;
use vstd::string::StringSliceAdditionalSpecFns;
use crate::error::GikError;
use crate::external::{
    chars_to_string, sha1, sha1_digest, spec_hex_encode, str_to_chars, utf8_str, zlib_compress,
    zlib_compress_bytes, zlib_decompress, zlib_decompress_bytes,
};
use crate::text::{
    all_radix_digits, ascii_chars, ascii_digit, decimal, digits_value, is_radix_digit,
    lemma_radix_digits_ascii, octal, parse_unsigned, push_ascii, push_chars, push_digits, push_str,
    is_unicode_whitespace, radix_digits, spec_parse_unsigned, split_whitespace, views, words,
    words_from,
};

verus! {

/// "blob", "tree" and "commit" as bytes.
pub open spec fn kind_blob() -> Seq<u8> {
    seq![0x62u8, 0x6c, 0x6f, 0x62]
}

pub open spec fn kind_tree() -> Seq<u8> {
    seq![0x74u8, 0x72, 0x65, 0x65]
}

pub open spec fn kind_commit() -> Seq<u8> {
    seq![0x63u8, 0x6f, 0x6d, 0x6d, 0x69, 0x74]
}

/// The header that precedes an object's content: its kind, a space, its
/// size in decimal and a NUL byte.
pub open spec fn object_header(kind: Seq<u8>, size: nat) -> Seq<u8> {
    kind + seq![0x20u8] + decimal(size) + seq![0u8]
}

/// Appends bytes.
pub fn push_bytes(out: &mut Vec<u8>, b: &[u8])
    ensures
        final(out)@ == old(out)@ + b@,
{
    let ghost start = out@;
    let mut k: usize = 0;
    while k < b.len()
        invariant
            k <= b@.len(),
            out@ == start + b@.subrange(0, k as int),
        decreases b@.len() - k,
    {
        out.push(b[k]);
        k += 1;
        assert(out@ =~= start + b@.subrange(0, k as int));
    }
    assert(b@.subrange(0, b@.len() as int) =~= b@);
}

/// Builds an object header.
fn header_bytes(kind: &[u8], size: u64) -> (out: Vec<u8>)
    ensures
        out@ == object_header(kind@, size as nat),
{
    let mut out: Vec<u8> = Vec::new();
    push_bytes(&mut out, kind);
    out.push(0x20);
    push_digits(&mut out, size, 10);
    out.push(0);
    assert(out@ =~= object_header(kind@, size as nat));
    out
}

fn blob_kind() -> (k: Vec<u8>)
    ensures
        k@ == kind_blob(),
{
    let k = vec![0x62u8, 0x6c, 0x6f, 0x62];
    assert(k@ =~= kind_blob());
    k
}

fn tree_kind() -> (k: Vec<u8>)
    ensures
        k@ == kind_tree(),
{
    let k = vec![0x74u8, 0x72, 0x65, 0x65];
    assert(k@ =~= kind_tree());
    k
}

fn commit_kind() -> (k: Vec<u8>)
    ensures
        k@ == kind_commit(),
{
    let k = vec![0x63u8, 0x6f, 0x6d, 0x6d, 0x69, 0x74];
    assert(k@ =~= kind_commit());
    k
}

/// The full object a blob is stored as: header with the given size, then
/// the content.
pub open spec fn blob_object(content: Seq<u8>, size: nat) -> Seq<u8> {
    object_header(kind_blob(), size) + content
}

/// The identity of a blob: SHA-1 of "blob <size>\0" and the content.
pub fn hash_blob(content: &[u8], size: u64) -> (h: crate::hash::Hash)
    ensures
        h@ == sha1_digest(blob_object(content@, size as nat)),
{
    let mut data = header_bytes(blob_kind().as_slice(), size);
    push_bytes(&mut data, content);
    crate::hash::Hash(sha1(data.as_slice()))
}

/// The stored form of a blob: the zlib stream of its header and content.
pub fn compress_blob(content: &[u8], size: u64) -> (out: Vec<u8>)
    ensures
        out@ == zlib_compress(blob_object(content@, size as nat)),
        zlib_decompress(out@) == Some(blob_object(content@, size as nat)),
{
    let mut data = header_bytes(blob_kind().as_slice(), size);
    push_bytes(&mut data, content);
    zlib_compress_bytes(data.as_slice())
}

/// A tree entry seen as plain values: mode, name, hash.
pub open spec fn entry_view(e: (u32, String, crate::hash::Hash)) -> (u32, Seq<char>, Seq<u8>) {
    (e.0, e.1@, e.2@)
}

pub open spec fn entries_view(es: Seq<(u32, String, crate::hash::Hash)>) -> Seq<(u32, Seq<char>, Seq<u8>)> {
    es.map_values(|e: (u32, String, crate::hash::Hash)| entry_view(e))
}

/// One tree entry on the wire: the mode in octal, a space, the name's UTF-8
/// bytes, a NUL byte and the 20 hash bytes.
pub open spec fn tree_entry_bytes(e: (u32, Seq<char>, Seq<u8>)) -> Seq<u8> {
    octal(e.0 as nat) + seq![0x20u8] + vstd::utf8::encode_utf8(e.1) + seq![0u8] + e.2
}

/// A tree's content: its entries' encodings one after the other.
pub open spec fn tree_content(es: Seq<(u32, Seq<char>, Seq<u8>)>) -> Seq<u8>
    decreases es.len(),
{
    if es.len() == 0 {
        Seq::empty()
    } else {
        tree_content(es.drop_last()) + tree_entry_bytes(es.last())
    }
}

/// Encodes tree entries in Git's canonical tree format.
pub fn build_tree_content(entries: &[(u32, String, crate::hash::Hash)]) -> (out: Vec<u8>)
    ensures
        out@ == tree_content(entries_view(entries@)),
{
    let mut content: Vec<u8> = Vec::new();
    let mut k: usize = 0;
    while k < entries.len()
        invariant
            k <= entries@.len(),
            content@ == tree_content(entries_view(entries@.subrange(0, k as int))),
        decreases entries@.len() - k,
    {
        let ghost before = content@;
        let e = &entries[k];
        push_digits(&mut content, e.0 as u64, 8);
        content.push(0x20);
        push_bytes(&mut content, e.1.as_str().as_bytes());
        content.push(0);
        push_bytes(&mut content, e.2.0.as_slice());
        proof {
            let es = entries_view(entries@.subrange(0, k + 1));
            assert(es.drop_last() =~= entries_view(entries@.subrange(0, k as int)));
            assert(es.last() == entry_view(entries@[k as int]));
            assert(content@ =~= before + tree_entry_bytes(es.last()));
        }
        k += 1;
    }
    assert(entries@.subrange(0, entries@.len() as int) =~= entries@);
    content
}

/// The full object a tree is stored as.
pub open spec fn tree_object(es: Seq<(u32, Seq<char>, Seq<u8>)>) -> Seq<u8> {
    object_header(kind_tree(), tree_content(es).len()) + tree_content(es)
}

fn tree_object_bytes(entries: &[(u32, String, crate::hash::Hash)]) -> (out: Vec<u8>)
    ensures
        out@ == tree_object(entries_view(entries@)),
{
    let content = build_tree_content(entries);
    let mut data = header_bytes(tree_kind().as_slice(), content.len() as u64);
    push_bytes(&mut data, content.as_slice());
    data
}

/// The identity of a tree.
pub fn hash_tree(entries: &[(u32, String, crate::hash::Hash)]) -> (h: crate::hash::Hash)
    ensures
        h@ == sha1_digest(tree_object(entries_view(entries@))),
{
    let data = tree_object_bytes(entries);
    crate::hash::Hash(sha1(data.as_slice()))
}

/// The stored form of a tree.
pub fn compress_tree(entries: &[(u32, String, crate::hash::Hash)]) -> (out: Vec<u8>)
    ensures
        out@ == zlib_compress(tree_object(entries_view(entries@))),
        zlib_decompress(out@) == Some(tree_object(entries_view(entries@))),
{
    let data = tree_object_bytes(entries);
    zlib_compress_bytes(data.as_slice())
}

} // verus!

verus! {

/// The 40 lowercase hex digits of a hash, as characters.
pub open spec fn hex_chars(h: Seq<u8>) -> Seq<char> {
    ascii_chars(spec_hex_encode(h))
}

/// One "parent <hex>\n" line per parent, in order.
pub open spec fn parent_lines(parents: Seq<Seq<u8>>) -> Seq<char>
    decreases parents.len(),
{
    if parents.len() == 0 {
        Seq::empty()
    } else {
        parent_lines(parents.drop_last()) + "parent "@ + hex_chars(parents.last()) + "\n"@
    }
}

/// An identity line: the role ("author " or "committer "), then
/// "<name> <<email>> <timestamp> +0000\n".
pub open spec fn identity_line(role: Seq<char>, name: Seq<char>, email: Seq<char>, timestamp: nat) -> Seq<char> {
    role + name + " <"@ + email + "> "@ + ascii_chars(decimal(timestamp)) + " +0000\n"@
}

/// A commit's content: its tree, its parents, author and committer (the
/// same identity and time), a blank line and the message, which is given a
/// final newline when it lacks one.
pub open spec fn commit_content(
    tree: Seq<u8>,
    parents: Seq<Seq<u8>>,
    name: Seq<char>,
    email: Seq<char>,
    timestamp: nat,
    message: Seq<char>,
) -> Seq<char> {
    "tree "@ + hex_chars(tree) + "\n"@ + parent_lines(parents) + identity_line(
        "author "@,
        name,
        email,
        timestamp,
    ) + identity_line("committer "@, name, email, timestamp) + "\n"@ + message + (if message.len()
        > 0 && message.last() == '\n' {
        Seq::empty()
    } else {
        "\n"@
    })
}

/// The hashes of a list as plain byte sequences.
pub open spec fn hash_views(hs: Seq<crate::hash::Hash>) -> Seq<Seq<u8>> {
    hs.map_values(|h: crate::hash::Hash| h@)
}

fn push_identity(out: &mut Vec<char>, role: &str, name: &str, email: &str, timestamp: u64)
    ensures
        final(out)@ == old(out)@ + identity_line(role@, name@, email@, timestamp as nat),
{
    let ghost start = out@;
    push_str(out, role);
    push_str(out, name);
    push_str(out, " <");
    push_str(out, email);
    push_str(out, "> ");
    let mut digits: Vec<u8> = Vec::new();
    push_digits(&mut digits, timestamp, 10);
    proof {
        lemma_radix_digits_ascii(timestamp as nat, 10);
    }
    push_ascii(out, digits.as_slice());
    push_str(out, " +0000\n");
    assert(out@ =~= start + identity_line(role@, name@, email@, timestamp as nat));
}

/// Builds a commit's content in Git's canonical format.
pub fn build_commit_content(
    tree_hash: crate::hash::Hash,
    parent_hashes: &[crate::hash::Hash],
    author: &str,
    email: &str,
    timestamp: u64,
    message: &str,
) -> (content: String)
    ensures
        content@ == commit_content(
            tree_hash@,
            hash_views(parent_hashes@),
            author@,
            email@,
            timestamp as nat,
            message@,
        ),
{
    let mut out: Vec<char> = Vec::new();
    push_str(&mut out, "tree ");
    push_str(&mut out, tree_hash.to_string().as_str());
    push_str(&mut out, "\n");
    let ghost head = out@;
    let mut k: usize = 0;
    while k < parent_hashes.len()
        invariant
            k <= parent_hashes@.len(),
            out@ == head + parent_lines(hash_views(parent_hashes@.subrange(0, k as int))),
        decreases parent_hashes@.len() - k,
    {
        let ghost before = out@;
        push_str(&mut out, "parent ");
        push_str(&mut out, parent_hashes[k].to_string().as_str());
        push_str(&mut out, "\n");
        proof {
            let ps = hash_views(parent_hashes@.subrange(0, k + 1));
            assert(ps.drop_last() =~= hash_views(parent_hashes@.subrange(0, k as int)));
            assert(ps.last() == parent_hashes@[k as int]@);
            assert(out@ =~= head + parent_lines(ps));
        }
        k += 1;
    }
    assert(parent_hashes@.subrange(0, parent_hashes@.len() as int) =~= parent_hashes@);
    push_identity(&mut out, "author ", author, email, timestamp);
    push_identity(&mut out, "committer ", author, email, timestamp);
    push_str(&mut out, "\n");
    let msg = str_to_chars(message);
    push_chars(&mut out, msg.as_slice());
    if !(msg.len() > 0 && msg[msg.len() - 1] == '\n') {
        push_str(&mut out, "\n");
    }
    let content = chars_to_string(out.as_slice());
    assert(content@ =~= commit_content(
        tree_hash@,
        hash_views(parent_hashes@),
        author@,
        email@,
        timestamp as nat,
        message@,
    ));
    content
}

/// The full object a commit is stored as: the header counts the UTF-8 bytes
/// of the content.
pub open spec fn commit_object(content: Seq<char>) -> Seq<u8> {
    object_header(kind_commit(), vstd::utf8::encode_utf8(content).len()) + vstd::utf8::encode_utf8(content)
}

fn commit_object_bytes(content: &String) -> (out: Vec<u8>)
    ensures
        out@ == commit_object(content@),
{
    let bytes = content.as_str().as_bytes();
    let mut data = header_bytes(commit_kind().as_slice(), bytes.len() as u64);
    push_bytes(&mut data, bytes);
    data
}

/// The identity of a commit.
pub fn hash_commit(
    tree_hash: crate::hash::Hash,
    parent_hashes: &[crate::hash::Hash],
    author: &str,
    email: &str,
    timestamp: u64,
    message: &str,
) -> (h: crate::hash::Hash)
    ensures
        h@ == sha1_digest(commit_object(commit_content(
            tree_hash@,
            hash_views(parent_hashes@),
            author@,
            email@,
            timestamp as nat,
            message@,
        ))),
{
    let content = build_commit_content(tree_hash, parent_hashes, author, email, timestamp, message);
    let data = commit_object_bytes(&content);
    crate::hash::Hash(sha1(data.as_slice()))
}

/// The stored form of a commit.
pub fn compress_commit(
    tree_hash: crate::hash::Hash,
    parent_hashes: &[crate::hash::Hash],
    author: &str,
    email: &str,
    timestamp: u64,
    message: &str,
) -> (out: Vec<u8>)
    ensures
        zlib_decompress(out@) == Some(commit_object(commit_content(
            tree_hash@,
            hash_views(parent_hashes@),
            author@,
            email@,
            timestamp as nat,
            message@,
        ))),
        out@ == zlib_compress(commit_object(commit_content(
            tree_hash@,
            hash_views(parent_hashes@),
            author@,
            email@,
            timestamp as nat,
            message@,
        ))),
{
    let content = build_commit_content(tree_hash, parent_hashes, author, email, timestamp, message);
    let data = commit_object_bytes(&content);
    zlib_compress_bytes(data.as_slice())
}

} // verus!

verus! {

/// The position of the first byte `b` in `s` at or after `i`, or `s.len()`.
pub open spec fn find_byte_from(s: Seq<u8>, i: int, b: u8) -> int
    decreases s.len() - i,
{
    if i < 0 || i >= s.len() {
        s.len() as int
    } else if s[i] == b {
        i
    } else {
        find_byte_from(s, i + 1, b)
    }
}

pub proof fn lemma_find_byte_bounds(s: Seq<u8>, i: int, b: u8)
    requires
        0 <= i <= s.len(),
    ensures
        i <= find_byte_from(s, i, b) <= s.len(),
        find_byte_from(s, i, b) < s.len() ==> s[find_byte_from(s, i, b)] == b,
        forall|k: int| i <= k < find_byte_from(s, i, b) ==> s[k] != b,
    decreases s.len() - i,
{
    if i < s.len() && s[i] != b {
        lemma_find_byte_bounds(s, i + 1, b);
    }
}

/// Finds the first `b` at or after `i`.
pub fn find_byte(s: &[u8], i: usize, b: u8) -> (r: usize)
    requires
        i <= s@.len(),
    ensures
        r == find_byte_from(s@, i as int, b),
{
    let mut k = i;
    while k < s.len()
        invariant
            i <= k <= s@.len(),
            find_byte_from(s@, i as int, b) == find_byte_from(s@, k as int, b),
        decreases s@.len() - k,
    {
        if s[k] == b {
            return k;
        }
        k += 1;
    }
    k
}

/// Reads tree entries from `c[i..]`: each is an octal mode (UTF-8, fitting a
/// `u32`) up to the first space, a UTF-8 name up to the next NUL byte, and
/// 20 hash bytes.
pub open spec fn parse_tree_from(c: Seq<u8>, i: int) -> Option<Seq<(u32, Seq<char>, Seq<u8>)>>
    decreases c.len() - i,
{
    if i < 0 || i >= c.len() {
        Some(Seq::empty())
    } else {
        let sp = find_byte_from(c, i, 0x20);
        let mode_bytes = c.subrange(i, sp);
        if sp >= c.len() || !vstd::utf8::valid_utf8(mode_bytes) {
            None
        } else {
            match spec_parse_unsigned(vstd::utf8::decode_utf8(mode_bytes), 8, 0xffff_ffff) {
                None => None,
                Some(mode) => {
                    let nul = find_byte_from(c, sp + 1, 0);
                    let name_bytes = c.subrange(sp + 1, nul);
                    if nul >= c.len() || !vstd::utf8::valid_utf8(name_bytes) || nul + 21 > c.len() {
                        None
                    } else {
                        proof {
                            lemma_find_byte_bounds(c, i, 0x20);
                            lemma_find_byte_bounds(c, sp + 1, 0);
                        }
                        match parse_tree_from(c, nul + 21) {
                            None => None,
                            Some(rest) => Some(
                                seq![
                                    (
                                        mode as u32,
                                        vstd::utf8::decode_utf8(name_bytes),
                                        c.subrange(nul + 1, nul + 21),
                                    ),
                                ] + rest,
                            ),
                        }
                    }
                },
            }
        }
    }
}

/// The entries of a tree's content, as Git's tree format lays them out.
pub open spec fn spec_parse_tree(c: Seq<u8>) -> Option<Seq<(u32, Seq<char>, Seq<u8>)>> {
    parse_tree_from(c, 0)
}

/// The error for malformed object data: an I/O error carrying `msg`.
fn invalid_data(msg: &str) -> (e: GikError)
    ensures
        e matches GikError::Io(m) && m@ == msg@,
{
    GikError::Io(msg.to_string())
}

/// Parses a tree's content into (mode, name, hash) entries. Fails on a
/// missing space or NUL byte, a mode or name that is not UTF-8, a mode that
/// is not octal or does not fit, or a truncated hash.
pub fn parse_tree(content: &[u8]) -> (r: Result<Vec<(u32, String, crate::hash::Hash)>, GikError>)
    ensures
        match spec_parse_tree(content@) {
            Some(es) => r matches Ok(v) && entries_view(v@) == es,
            None => r is Err,
        },
{
    let mut entries: Vec<(u32, String, crate::hash::Hash)> = Vec::new();
    let mut i: usize = 0;
    while i < content.len()
        invariant
            i <= content@.len(),
            spec_parse_tree(content@) == match parse_tree_from(content@, i as int) {
                Some(rest) => Some(entries_view(entries@) + rest),
                None => None::<Seq<(u32, Seq<char>, Seq<u8>)>>,
            },
        decreases content@.len() - i,
    {
        let sp = find_byte(content, i, 0x20);
        proof {
            lemma_find_byte_bounds(content@, i as int, 0x20);
        }
        if sp >= content.len() {
            return Err(invalid_data("Invalid tree format: missing space"));
        }
        let mode_chars = match utf8_str(&content[i..sp]) {
            Some(v) => str_to_chars(v),
            None => {
                return Err(invalid_data("Invalid mode UTF-8"));
            },
        };
        let mode = match parse_unsigned(mode_chars.as_slice(), 8, 0xffff_ffff) {
            Some(m) => m as u32,
            None => {
                return Err(invalid_data("Invalid mode octal"));
            },
        };
        let nul = find_byte(content, sp + 1, 0);
        proof {
            lemma_find_byte_bounds(content@, sp + 1, 0);
        }
        if nul >= content.len() {
            return Err(invalid_data("Invalid tree format: missing null"));
        }
        let name_chars = match utf8_str(&content[sp + 1..nul]) {
            Some(v) => str_to_chars(v),
            None => {
                return Err(invalid_data("Invalid name UTF-8"));
            },
        };
        if 21 > content.len() - nul {
            return Err(invalid_data("Invalid tree format: truncated hash"));
        }
        let mut hash_bytes = [0u8; 20];
        let start = nul + 1;
        let mut k: usize = 0;
        while k < 20
            invariant
                k <= 20,
                start == nul + 1,
                start + 20 <= content.len(),
                forall|j: int| 0 <= j < k ==> hash_bytes@[j] == content@[nul + 1 + j],
            decreases 20 - k,
        {
            hash_bytes[k] = content[start + k];
            k += 1;
        }
        let name = chars_to_string(name_chars.as_slice());
        let entry = (mode, name, crate::hash::Hash(hash_bytes));
        let ghost before = entries@;
        entries.push(entry);
        proof {
            assert(hash_bytes@ =~= content@.subrange(nul + 1, nul + 21));
            assert(entries_view(entries@) =~= entries_view(before).push(entry_view(entry)));
            assert(entries_view(entries@) + parse_tree_from(content@, nul + 21).unwrap_or(Seq::empty())
                =~= entries_view(before) + (seq![entry_view(entry)] + parse_tree_from(content@, nul + 21).unwrap_or(Seq::empty())));
        }
        i = nul + 1 + 20;
    }
    Ok(entries)
}

} // verus!

verus! {

proof fn lemma_ascii_encode(b: Seq<u8>)
    requires
        forall|k: int| 0 <= k < b.len() ==> b[k] < 128,
    ensures
        vstd::utf8::encode_utf8(ascii_chars(b)) == b,
    decreases b.len(),
{
    if b.len() > 0 {
        let c = ascii_chars(b);
        assert(c.drop_first() =~= ascii_chars(b.drop_first()));
        lemma_ascii_encode(b.drop_first());
        let u = b[0];
        assert((u as char) as u32 == u as u32);
        assert(vstd::utf8::has_width_1_encoding(u as u32));
        assert(((u as u32) & 0x7f) as u8 == u) by (bit_vector)
            requires
                u < 128,
        ;
        assert(vstd::utf8::encode_utf8(c) =~= b);
    }
}

proof fn lemma_digits_roundtrip(n: nat, radix: nat)
    requires
        2 <= radix <= 10,
    ensures
        digits_value(ascii_chars(radix_digits(n, radix)), radix) == n,
        all_radix_digits(ascii_chars(radix_digits(n, radix)), radix),
    decreases n,
{
    lemma_radix_digits_ascii(n, radix);
    let d = radix_digits(n, radix);
    let c = ascii_chars(d);
    if n < radix {
        assert(c.drop_last() =~= Seq::<char>::empty());
        assert(n % 10 == n);
        assert(ascii_digit(n % 10) == (48 + n) as u8);
        assert(c.last() == ascii_digit(n % 10) as char);
        assert((c.last() as u32) == 48 + n);
        assert(digits_value(c, radix) == digits_value(c.drop_last(), radix) * radix + ((c.last() as u32) - 48) as nat);
        assert(digits_value(c.drop_last(), radix) == 0);
        assert(0 * radix == 0) by (nonlinear_arith);
        assert(((c.last() as u32) - 48) as nat == n);
        assert(digits_value(c, radix) == n);
    } else {
        crate::text::lemma_div_smaller(n, radix);
        lemma_digits_roundtrip(n / radix, radix);
        assert(c.drop_last() =~= ascii_chars(radix_digits(n / radix, radix)));
        assert(c.last() == ascii_digit(n % radix) as char);
        assert((c.last() as u32) == 48 + n % radix);
        assert(n == (n / radix) * radix + n % radix) by (nonlinear_arith)
            requires
                radix >= 2,
        ;
        assert(digits_value(c, radix) == digits_value(c.drop_last(), radix) * radix + ((c.last() as u32) - 48) as nat);
        assert(digits_value(c.drop_last(), radix) == n / radix);
        assert(digits_value(c, radix) == n);
        assert forall|k: int| 0 <= k < c.len() implies is_radix_digit(#[trigger] c[k], radix) by {
            if k < c.len() - 1 {
                assert(c[k] == c.drop_last()[k]);
            }
        }
    }
}

pub proof fn lemma_parse_digits(n: nat, radix: nat, max: nat)
    requires
        2 <= radix <= 10,
        n <= max,
    ensures
        spec_parse_unsigned(ascii_chars(radix_digits(n, radix)), radix, max) == Some(n),
{
    lemma_digits_roundtrip(n, radix);
    lemma_radix_digits_ascii(n, radix);
    let c = ascii_chars(radix_digits(n, radix));
    assert(c[0] != '+');
}

proof fn lemma_encode_no_nul(s: Seq<char>)
    requires
        forall|k: int| 0 <= k < s.len() ==> (s[k] as u32) != 0,
    ensures
        forall|k: int| 0 <= k < vstd::utf8::encode_utf8(s).len() ==> vstd::utf8::encode_utf8(s)[k] != 0,
    decreases s.len(),
{
    if s.len() > 0 {
        lemma_encode_no_nul(s.drop_first());
        let u = s[0] as u32;
        assert(u != 0);
        vstd::utf8::char_is_scalar(s[0]);
        assert forall|k: int| 0 <= k < s.drop_first().len() implies (s.drop_first()[k] as u32) != 0 by {
            assert(s.drop_first()[k] == s[k + 1]);
        }
        let e = vstd::utf8::encode_scalar(u);
        assert(forall|k: int| 0 <= k < e.len() ==> e[k] != 0) by {
            assert(((u & 0x7f) as u8) != 0 || u >= 128 || u == 0) by (bit_vector);
            assert((0xC0u8 | ((u >> 6u32) & 0x1F) as u8) != 0) by (bit_vector);
            assert((0xE0u8 | ((u >> 12u32) & 0x0F) as u8) != 0) by (bit_vector);
            assert((0xF0u8 | ((u >> 18u32) & 0x7) as u8) != 0) by (bit_vector);
            assert((0x80u8 | (u & 0x3F) as u8) != 0) by (bit_vector);
            assert((0x80u8 | ((u >> 6u32) & 0x3F) as u8) != 0) by (bit_vector);
            assert((0x80u8 | ((u >> 12u32) & 0x3F) as u8) != 0) by (bit_vector);
        }
        let rest = vstd::utf8::encode_utf8(s.drop_first());
        assert forall|k: int| 0 <= k < vstd::utf8::encode_utf8(s).len() implies vstd::utf8::encode_utf8(s)[k] != 0 by {
            if k < e.len() {
                assert(vstd::utf8::encode_utf8(s)[k] == e[k]);
            } else {
                assert(vstd::utf8::encode_utf8(s)[k] == rest[k - e.len()]);
            }
        }
    }
}

proof fn lemma_tree_content_front(es: Seq<(u32, Seq<char>, Seq<u8>)>)
    requires
        es.len() > 0,
    ensures
        tree_content(es) == tree_entry_bytes(es[0]) + tree_content(es.drop_first()),
    decreases es.len(),
{
    if es.len() == 1 {
        assert(es.drop_last() =~= Seq::<(u32, Seq<char>, Seq<u8>)>::empty());
        assert(es.drop_first() =~= Seq::<(u32, Seq<char>, Seq<u8>)>::empty());
        assert(tree_content(es) =~= tree_entry_bytes(es[0]) + tree_content(es.drop_first()));
    } else {
        lemma_tree_content_front(es.drop_last());
        assert(es.drop_last().drop_first() =~= es.drop_first().drop_last());
        assert(es.drop_first().last() == es.last());
        assert(tree_content(es) =~= tree_entry_bytes(es[0]) + tree_content(es.drop_first()));
    }
}

/// An entry that the tree format can carry: a name without NUL characters
/// and a hash of 20 bytes.
pub open spec fn storable_entry(e: (u32, Seq<char>, Seq<u8>)) -> bool {
    &&& forall|k: int| 0 <= k < e.1.len() ==> (e.1[k] as u32) != 0
    &&& e.2.len() == 20
}

proof fn lemma_parse_tree_suffix(c: Seq<u8>, i: int, es: Seq<(u32, Seq<char>, Seq<u8>)>)
    requires
        0 <= i <= c.len(),
        c.subrange(i, c.len() as int) == tree_content(es),
        forall|k: int| 0 <= k < es.len() ==> storable_entry(#[trigger] es[k]),
    ensures
        parse_tree_from(c, i) == Some(es),
    decreases es.len(),
{
    if es.len() == 0 {
        assert(c.subrange(i, c.len() as int).len() == 0);
    } else {
        lemma_tree_content_front(es);
        let e = es[0];
        assert(storable_entry(e));
        let eb = tree_entry_bytes(e);
        let oct = octal(e.0 as nat);
        let nb = vstd::utf8::encode_utf8(e.1);
        lemma_radix_digits_ascii(e.0 as nat, 8);
        let sp = i + oct.len();
        let nul = sp + 1 + nb.len();
        assert(c.subrange(i, c.len() as int) =~= eb + tree_content(es.drop_first()));
        assert(eb.len() <= c.len() - i);
        assert forall|k: int| 0 <= k < eb.len() implies c[i + k] == #[trigger] eb[k] by {
            assert(c.subrange(i, c.len() as int)[k] == c[i + k]);
        }
        // The mode runs up to the first space.
        assert forall|k: int| i <= k < sp implies c[k] != 0x20 by {
            assert(c[i + (k - i)] == eb[k - i]);
            assert(eb[k - i] == oct[k - i]);
        }
        assert(c[i + oct.len()] == eb[oct.len() as int]);
        lemma_find_byte_bounds(c, i, 0x20);
        assert(find_byte_from(c, i, 0x20) == sp) by {
            let f = find_byte_from(c, i, 0x20);
            if f < sp {
                assert(c[f] == 0x20);
            }
            if f > sp {
                assert(c[sp] != 0x20);
            }
        }
        assert(c.subrange(i, sp) =~= oct);
        lemma_ascii_encode(oct);
        vstd::utf8::encode_utf8_valid_utf8(ascii_chars(oct));
        vstd::utf8::encode_utf8_decode_utf8(ascii_chars(oct));
        lemma_parse_digits(e.0 as nat, 8, 0xffff_ffff);
        // The name runs up to the first NUL byte.
        lemma_encode_no_nul(e.1);
        assert forall|k: int| sp + 1 <= k < nul implies c[k] != 0 by {
            assert(c[i + (k - i)] == eb[k - i]);
            assert(eb[k - i] == nb[k - sp - 1]);
        }
        assert(c[i + (nul - i)] == eb[nul - i]);
        lemma_find_byte_bounds(c, sp + 1, 0);
        assert(find_byte_from(c, sp + 1, 0) == nul) by {
            let f = find_byte_from(c, sp + 1, 0);
            if f < nul {
                assert(c[f] == 0);
            }
            if f > nul {
                assert(c[nul] != 0);
            }
        }
        assert(c.subrange(sp + 1, nul) =~= nb) by {
            assert forall|k: int| 0 <= k < nb.len() implies c.subrange(sp + 1, nul)[k] == nb[k] by {
                assert(c[i + (oct.len() + 1 + k)] == eb[oct.len() + 1 + k]);
                assert(eb[oct.len() + 1 + k] == nb[k]);
            }
        }
        vstd::utf8::encode_utf8_valid_utf8(e.1);
        vstd::utf8::encode_utf8_decode_utf8(e.1);
        assert(c.subrange(nul + 1, nul + 21) =~= e.2) by {
            assert forall|k: int| 0 <= k < 20 implies c.subrange(nul + 1, nul + 21)[k] == e.2[k] by {
                assert(c[i + (nul + 1 + k - i)] == eb[nul + 1 + k - i]);
            }
        }
        assert(c.subrange(nul + 21, c.len() as int) =~= tree_content(es.drop_first())) by {
            assert(c.subrange(i, c.len() as int) =~= eb + tree_content(es.drop_first()));
            assert forall|k: int| 0 <= k < c.len() - (nul + 21) implies c.subrange(nul + 21, c.len() as int)[k]
                == tree_content(es.drop_first())[k] by {
                assert(c.subrange(i, c.len() as int)[eb.len() + k] == c[i + eb.len() + k]);
            }
        }
        assert forall|k: int| 0 <= k < es.drop_first().len() implies storable_entry(#[trigger] es.drop_first()[k]) by {
            assert(es.drop_first()[k] == es[k + 1]);
        }
        lemma_parse_tree_suffix(c, nul + 21, es.drop_first());
        assert(seq![e] + es.drop_first() =~= es);
    }
}

/// Reading back the content that `build_tree_content` wrote gives the same
/// entries, for every list of entries whose names hold no NUL character.
pub proof fn law_tree_roundtrip(es: Seq<(u32, Seq<char>, Seq<u8>)>)
    requires
        forall|k: int| 0 <= k < es.len() ==> storable_entry(#[trigger] es[k]),
    ensures
        spec_parse_tree(tree_content(es)) == Some(es),
{
    let c = tree_content(es);
    assert(c.subrange(0, c.len() as int) =~= c);
    lemma_parse_tree_suffix(c, 0, es);
}

} // verus!

verus! {

/// What `decompress_object` makes of stored bytes: the zlib stream is
/// inflated, the header up to the first NUL byte must be UTF-8 of exactly
/// two words, the kind and the size (a decimal `u64`), and the rest is the
/// content.
pub open spec fn spec_decompress_object(data: Seq<u8>) -> Option<(Seq<char>, u64, Seq<u8>)> {
    match zlib_decompress(data) {
        None => None,
        Some(content) => {
            let nul = find_byte_from(content, 0, 0);
            let hb = content.subrange(0, nul);
            if nul >= content.len() || !vstd::utf8::valid_utf8(hb) {
                None
            } else {
                let parts = split_whitespace(vstd::utf8::decode_utf8(hb));
                if parts.len() != 2 {
                    None
                } else {
                    match spec_parse_unsigned(parts[1], 10, 0xffff_ffff_ffff_ffff) {
                        None => None,
                        Some(size) => Some(
                            (parts[0], size as u64, content.subrange(nul + 1, content.len() as int)),
                        ),
                    }
                }
            }
        },
    }
}

/// Inflates a stored object and splits off its header: returns the kind,
/// the size the header announces and the content.
pub fn decompress_object(data: &[u8]) -> (r: Result<(String, u64, Vec<u8>), GikError>)
    ensures
        match spec_decompress_object(data@) {
            Some((kind, size, content)) => r matches Ok((k, s, c)) && k@ == kind && s == size
                && c@ == content,
            None => r is Err,
        },
{
    let content = match zlib_decompress_bytes(data) {
        Some(c) => c,
        None => {
            return Err(invalid_data("corrupt deflate stream"));
        },
    };
    let nul = find_byte(content.as_slice(), 0, 0);
    proof {
        lemma_find_byte_bounds(content@, 0, 0);
    }
    if nul >= content.len() {
        return Err(invalid_data("Missing null terminator in header"));
    }
    let header = match utf8_str(&content.as_slice()[0..nul]) {
        Some(h) => str_to_chars(h),
        None => {
            return Err(invalid_data("Invalid UTF-8 in header"));
        },
    };
    let parts = words(header.as_slice());
    if parts.len() != 2 {
        return Err(invalid_data("Invalid header format"));
    }
    assert(parts@[1]@ == views(parts@)[1]);
    assert(parts@[0]@ == views(parts@)[0]);
    let size = match parse_unsigned(parts[1].as_slice(), 10, 0xffff_ffff_ffff_ffff) {
        Some(s) => s,
        None => {
            return Err(invalid_data("Invalid size in header"));
        },
    };
    let obj_type = chars_to_string(parts[0].as_slice());
    let mut actual: Vec<u8> = Vec::new();
    push_bytes(&mut actual, &content.as_slice()[nul + 1..content.len()]);
    Ok((obj_type, size, actual))
}

} // verus!

verus! {

proof fn lemma_words_run(s: Seq<char>, i: int, j: int, cur: Seq<char>)
    requires
        0 <= i <= j <= s.len(),
        forall|k: int| i <= k < j ==> !is_unicode_whitespace(#[trigger] s[k]),
    ensures
        words_from(s, i, cur) == words_from(s, j, cur + s.subrange(i, j)),
    decreases j - i,
{
    if i < j {
        lemma_words_run(s, i + 1, j, cur.push(s[i]));
        assert(cur.push(s[i]) + s.subrange(i + 1, j) =~= cur + s.subrange(i, j));
    } else {
        assert(cur + s.subrange(i, j) =~= cur);
    }
}

proof fn lemma_two_words(a: Seq<char>, b: Seq<char>)
    requires
        a.len() > 0,
        b.len() > 0,
        forall|k: int| 0 <= k < a.len() ==> !is_unicode_whitespace(#[trigger] a[k]),
        forall|k: int| 0 <= k < b.len() ==> !is_unicode_whitespace(#[trigger] b[k]),
    ensures
        split_whitespace(a + seq![' '] + b) == seq![a, b],
{
    let s = a + seq![' '] + b;
    let n = a.len() as int;
    assert forall|k: int| 0 <= k < n implies !is_unicode_whitespace(#[trigger] s[k]) by {
        assert(s[k] == a[k]);
    }
    lemma_words_run(s, 0, n, Seq::empty());
    assert(Seq::<char>::empty() + s.subrange(0, n) =~= a);
    assert(s[n] == ' ');
    assert forall|k: int| n + 1 <= k < s.len() implies !is_unicode_whitespace(#[trigger] s[k]) by {
        assert(s[k] == b[k - n - 1]);
    }
    lemma_words_run(s, n + 1, s.len() as int, Seq::empty());
    assert(Seq::<char>::empty() + s.subrange(n + 1, s.len() as int) =~= b);
    assert(words_from(s, s.len() as int, b) == seq![b]);
    assert(words_from(s, n, a) == seq![a] + words_from(s, n + 1, Seq::empty()));
    assert(seq![a] + seq![b] =~= seq![a, b]);
}

/// An object kind that the store writes: "blob", "tree" or "commit".
pub open spec fn known_kind(kind: Seq<u8>) -> bool {
    kind == kind_blob() || kind == kind_tree() || kind == kind_commit()
}

/// Reading an object whose zlib stream holds a header of a known kind with
/// size `size`, then `content`, gives back that kind, that size and exactly
/// that content.
pub proof fn law_object_roundtrip(stored: Seq<u8>, kind: Seq<u8>, size: u64, content: Seq<u8>)
    requires
        known_kind(kind),
        zlib_decompress(stored) == Some(object_header(kind, size as nat) + content),
    ensures
        spec_decompress_object(stored) == Some((ascii_chars(kind), size, content)),
{
    let full = object_header(kind, size as nat) + content;
    let dec = decimal(size as nat);
    lemma_radix_digits_ascii(size as nat, 10);
    let hb = kind + seq![0x20u8] + dec;
    let nul = hb.len() as int;
    assert(forall|k: int| 0 <= k < kind.len() ==> 97 <= #[trigger] kind[k] <= 122);
    assert forall|k: int| 0 <= k < nul implies full[k] != 0 && #[trigger] full[k] == hb[k] by {
        if k < kind.len() {
        } else if k == kind.len() {
        } else {
            assert(hb[k] == dec[k - kind.len() - 1]);
        }
    }
    assert(full[nul] == 0);
    lemma_find_byte_bounds(full, 0, 0);
    assert(find_byte_from(full, 0, 0) == nul) by {
        let f = find_byte_from(full, 0, 0);
        if f < nul {
            assert(full[f] == 0);
        }
        if f > nul {
            assert(full[nul] != 0);
        }
    }
    assert(full.subrange(0, nul) =~= hb);
    assert forall|k: int| 0 <= k < hb.len() implies hb[k] < 128 by {
        if k > kind.len() {
            assert(hb[k] == dec[k - kind.len() - 1]);
        }
    }
    lemma_ascii_encode(hb);
    vstd::utf8::encode_utf8_valid_utf8(ascii_chars(hb));
    vstd::utf8::encode_utf8_decode_utf8(ascii_chars(hb));
    let a = ascii_chars(kind);
    let b = ascii_chars(dec);
    assert(ascii_chars(hb) =~= a + seq![' '] + b);
    assert forall|k: int| 0 <= k < a.len() implies !is_unicode_whitespace(#[trigger] a[k]) by {
        assert((kind[k] as char) as u32 == kind[k] as u32);
    }
    assert forall|k: int| 0 <= k < b.len() implies !is_unicode_whitespace(#[trigger] b[k]) by {
        assert((dec[k] as char) as u32 == dec[k] as u32);
    }
    lemma_two_words(a, b);
    lemma_parse_digits(size as nat, 10, 0xffff_ffff_ffff_ffff);
    assert(full.subrange(nul + 1, full.len() as int) =~= content);
}

/// The identity of an object of the given kind ("commit", "tree", "blob")
/// and content: SHA-1 of "<kind> <size>\0" and the content.
pub fn hash_object(kind: &str, content: &[u8]) -> (h: crate::hash::Hash)
    ensures
        h@ == sha1_digest(object_header(kind.spec_bytes(), content@.len()) + content@),
{
    let mut data = header_bytes(kind.as_bytes(), content.len() as u64);
    push_bytes(&mut data, content);
    crate::hash::Hash(sha1(data.as_slice()))
}

/// The stored form of an object of the given kind and content: the zlib
/// stream of "<kind> <size>\0" and the content.
pub fn compress_object(kind: &str, content: &[u8]) -> (out: Vec<u8>)
    ensures
        out@ == zlib_compress(object_header(kind.spec_bytes(), content@.len()) + content@),
        zlib_decompress(out@) == Some(object_header(kind.spec_bytes(), content@.len()) + content@),
{
    let mut data = header_bytes(kind.as_bytes(), content.len() as u64);
    push_bytes(&mut data, content);
    zlib_compress_bytes(data.as_slice())
}

} // verus!
