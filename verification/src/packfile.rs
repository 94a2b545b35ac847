//! Whole packfiles: the header, the entries, the trailing checksum, and
//! the kinds of object a pack carries.

use vstd::prelude::*;
use vstd::string::StringSliceAdditionalSpecFns;
use crate::error::GikError;
use crate::external::{chars_to_string, sha1, sha1_digest, str_to_chars, zlib_compress, zlib_compress_bytes};
use crate::pack::{spec_encode_object_header, write_object_header};

verus! {

/// A 32-bit number in big-endian order.
pub open spec fn be32(n: u32) -> Seq<u8> {
    seq![
        (n / 0x100_0000) as u8,
        ((n / 0x1_0000) % 0x100) as u8,
        ((n / 0x100) % 0x100) as u8,
        (n % 0x100) as u8,
    ]
}

/// The signature that opens a pack: "PACK".
pub open spec fn pack_signature() -> Seq<u8> {
    seq![0x50u8, 0x41, 0x43, 0x4b]
}

/// A pack's header: the signature, version 2 and the number of objects.
pub open spec fn spec_pack_header(count: u32) -> Seq<u8> {
    pack_signature() + be32(2) + be32(count)
}

fn push_be32(out: &mut Vec<u8>, n: u32)
    ensures
        final(out)@ == old(out)@ + be32(n),
{
    out.push((n / 0x100_0000) as u8);
    out.push(((n / 0x1_0000) % 0x100) as u8);
    out.push(((n / 0x100) % 0x100) as u8);
    out.push((n % 0x100) as u8);
    assert(out@ =~= old(out)@ + be32(n));
}

/// Writes a pack's header.
pub fn write_packfile_header(out: &mut Vec<u8>, object_count: u32)
    ensures
        final(out)@ == old(out)@ + spec_pack_header(object_count),
{
    out.push(0x50u8);
    out.push(0x41u8);
    out.push(0x43u8);
    out.push(0x4bu8);
    push_be32(out, 2);
    push_be32(out, object_count);
    assert(out@ =~= old(out)@ + spec_pack_header(object_count));
}

/// The entries of a pack: each object's entry header, then its content
/// compressed.
pub open spec fn pack_entries(objects: Seq<(u8, Seq<u8>)>) -> Seq<u8>
    decreases objects.len(),
{
    if objects.len() == 0 {
        Seq::empty()
    } else {
        let last = objects.last();
        pack_entries(objects.drop_last()) + spec_encode_object_header(last.0, last.1.len() as u64)
            + zlib_compress(last.1)
    }
}

/// A pack of the objects: header, entries, then the SHA-1 of all that.
pub open spec fn spec_packfile(objects: Seq<(u8, Seq<u8>)>) -> Seq<u8> {
    let body = spec_pack_header(objects.len() as u32) + pack_entries(objects);
    body + sha1_digest(body)
}

/// The objects as plain values: pack type and content.
pub open spec fn object_views(objects: Seq<(u8, Vec<u8>)>) -> Seq<(u8, Seq<u8>)> {
    objects.map_values(|o: (u8, Vec<u8>)| (o.0, o.1@))
}

/// Builds a pack of the objects, each given by its pack type (commit 1,
/// tree 2, blob 3) and content.
pub fn build_packfile(objects: &[(u8, Vec<u8>)]) -> (pack: Vec<u8>)
    ensures
        pack@ == spec_packfile(object_views(objects@)),
{
    let ghost objs = object_views(objects@);
    let mut out: Vec<u8> = Vec::new();
    write_packfile_header(&mut out, objects.len() as u32);
    let ghost head = out@;
    let mut k: usize = 0;
    while k < objects.len()
        invariant
            k <= objects@.len(),
            objs == object_views(objects@),
            head == spec_pack_header(objects@.len() as u32),
            out@ == head + pack_entries(objs.subrange(0, k as int)),
        decreases objects@.len() - k,
    {
        let t = objects[k].0;
        let content = &objects[k].1;
        write_object_header(&mut out, t, content.len());
        let packed = zlib_compress_bytes(content.as_slice());
        crate::objects::push_bytes(&mut out, packed.as_slice());
        proof {
            let sub = objs.subrange(0, k + 1);
            assert(sub.drop_last() =~= objs.subrange(0, k as int));
            assert(sub.last() == (t, content@));
        }
        k += 1;
    }
    proof {
        assert(objs.subrange(0, objs.len() as int) =~= objs);
    }
    let checksum = sha1(out.as_slice());
    crate::objects::push_bytes(&mut out, checksum.as_slice());
    out
}

/// The number that four bytes give in big-endian order.
pub open spec fn be32_value(b0: u8, b1: u8, b2: u8, b3: u8) -> u32 {
    (b0 as int * 0x100_0000 + b1 as int * 0x1_0000 + b2 as int * 0x100 + b3 as int) as u32
}

/// The object count that a pack's 12-byte header announces, or `None` when
/// it does not start with the signature. The version is not checked.
pub open spec fn spec_parse_pack_header(h: Seq<u8>) -> Option<u32> {
    if h.subrange(0, 4) != pack_signature() {
        None
    } else {
        Some(be32_value(h[8], h[9], h[10], h[11]))
    }
}

/// The message for a pack that does not start with "PACK".
pub open spec fn bad_signature_message(h: Seq<u8>) -> Seq<char> {
    "Invalid packfile signature: "@ + crate::external::spec_debug_lossy(h)
}

/// Reads a pack's header: checks the signature and gives the object count.
pub fn parse_pack_header(header: &[u8]) -> (r: Result<u32, GikError>)
    requires
        header@.len() == 12,
    ensures
        match spec_parse_pack_header(header@) {
            Some(n) => r == Ok::<u32, GikError>(n),
            None => r matches Err(GikError::Io(m)) && m@ == bad_signature_message(header@),
        },
{
    if !(header[0] == 0x50u8 && header[1] == 0x41u8 && header[2] == 0x43u8 && header[3] == 0x4bu8) {
        proof {
            if header@.subrange(0, 4) == pack_signature() {
                assert(header@[0] == header@.subrange(0, 4)[0]);
                assert(header@[1] == header@.subrange(0, 4)[1]);
                assert(header@[2] == header@.subrange(0, 4)[2]);
                assert(header@[3] == header@.subrange(0, 4)[3]);
            }
        }
        let mut msg = str_to_chars("Invalid packfile signature: ");
        crate::text::push_str(&mut msg, crate::external::debug_lossy(header).as_str());
        return Err(GikError::Io(chars_to_string(msg.as_slice())));
    }
    assert(header@.subrange(0, 4) =~= pack_signature());
    let n: u64 = header[8] as u64 * 0x100_0000 + header[9] as u64 * 0x1_0000 + header[10] as u64 * 0x100 + header[11] as u64;
    Ok(n as u32)
}

/// A pack's header reads back the count it was written with.
pub proof fn law_pack_header_roundtrip(count: u32)
    ensures
        spec_parse_pack_header(spec_pack_header(count)) == Some(count),
{
    let h = spec_pack_header(count);
    assert(h.subrange(0, 4) =~= pack_signature());
    let b0 = (count / 0x100_0000) as u8;
    let b1 = ((count / 0x1_0000) % 0x100) as u8;
    let b2 = ((count / 0x100) % 0x100) as u8;
    let b3 = (count % 0x100) as u8;
    assert(h[8] == b0 && h[9] == b1 && h[10] == b2 && h[11] == b3);
    assert(b0 as int * 0x100_0000 + b1 as int * 0x1_0000 + b2 as int * 0x100 + b3 as int == count) by (nonlinear_arith)
        requires
            b0 == (count / 0x100_0000) as u8,
            b1 == ((count / 0x1_0000) % 0x100) as u8,
            b2 == ((count / 0x100) % 0x100) as u8,
            b3 == (count % 0x100) as u8,
    ;
}

/// What a pack entry holds, by its type number.
#[derive(Debug, PartialEq, Eq)]
pub enum PackEntryKind {
    /// A whole object of this kind ("commit", "tree" or "blob").
    Object(String),
    /// A delta against a base named by its hash.
    RefDelta,
}

/// The message for a pack entry of an unsupported type.
pub open spec fn unsupported_type_message(t: u8) -> Seq<char> {
    "Unsupported pack object type: "@ + crate::text::ascii_chars(crate::text::decimal(t as nat))
}

/// What a pack entry of type `obj_type` holds: 1 a commit, 2 a tree, 3 a
/// blob, 7 a delta against a named base. Offset deltas (6) and unknown
/// types are refused.
pub fn pack_entry_kind(obj_type: u8) -> (r: Result<PackEntryKind, GikError>)
    ensures
        obj_type == 1 ==> (r matches Ok(PackEntryKind::Object(k)) && k@ == "commit"@),
        obj_type == 2 ==> (r matches Ok(PackEntryKind::Object(k)) && k@ == "tree"@),
        obj_type == 3 ==> (r matches Ok(PackEntryKind::Object(k)) && k@ == "blob"@),
        obj_type == 7 ==> r matches Ok(PackEntryKind::RefDelta),
        obj_type == 6 ==> (r matches Err(GikError::Io(m)) && m@ == "OBJ_OFS_DELTA not supported yet"@),
        !(1 <= obj_type <= 3 || obj_type == 6 || obj_type == 7) ==> (r matches Err(GikError::Io(m))
            && m@ == unsupported_type_message(obj_type)),
{
    if obj_type == 1 {
        Ok(PackEntryKind::Object("commit".to_string()))
    } else if obj_type == 2 {
        Ok(PackEntryKind::Object("tree".to_string()))
    } else if obj_type == 3 {
        Ok(PackEntryKind::Object("blob".to_string()))
    } else if obj_type == 7 {
        Ok(PackEntryKind::RefDelta)
    } else if obj_type == 6 {
        Err(GikError::Io("OBJ_OFS_DELTA not supported yet".to_string()))
    } else {
        let mut msg = str_to_chars("Unsupported pack object type: ");
        let mut digits: Vec<u8> = Vec::new();
        crate::text::push_digits(&mut digits, obj_type as u64, 10);
        proof {
            crate::text::lemma_radix_digits_ascii(obj_type as nat, 10);
        }
        crate::text::push_ascii(&mut msg, digits.as_slice());
        Err(GikError::Io(chars_to_string(msg.as_slice())))
    }
}

/// The pack type of a stored object's kind: 2 for a tree, 3 for a blob;
/// any other kind is refused.
pub fn pack_type_of(kind: &str) -> (r: Result<u8, GikError>)
    ensures
        kind@ == "tree"@ ==> r == Ok::<u8, GikError>(2),
        kind@ == "blob"@ ==> r == Ok::<u8, GikError>(3),
        kind@ != "tree"@ && kind@ != "blob"@ ==> (r matches Err(GikError::Validation(m))
            && m@ == "Unknown object type in storage"@),
{
    proof {
        reveal_strlit("tree");
        reveal_strlit("blob");
        assert("tree"@[0] != "blob"@[0]);
    }
    let k = str_to_chars(kind);
    let tree = str_to_chars("tree");
    let blob = str_to_chars("blob");
    if crate::text::text_equal(k.as_slice(), tree.as_slice()) {
        Ok(2)
    } else if crate::text::text_equal(k.as_slice(), blob.as_slice()) {
        Ok(3)
    } else {
        Err(GikError::Validation("Unknown object type in storage".to_string()))
    }
}

/// Whether the first '>' of an author does not come before its first '<'
/// (slicing the email out needs that).
pub open spec fn brackets_ordered(author: Seq<char>) -> bool {
    let open = crate::text::find_from(author, 0, '<');
    let close = crate::text::find_from(author, 0, '>');
    !(open < author.len() && close < author.len() && close < open)
}

/// Name and email of an author written "<name> <<email>>": the name is what
/// stands before the first '<', trimmed, and the email what stands between
/// it and the first '>'. Without both brackets the whole text is the name
/// and the email is empty.
pub open spec fn spec_split_author(author: Seq<char>) -> (Seq<char>, Seq<char>) {
    let open = crate::text::find_from(author, 0, '<');
    let close = crate::text::find_from(author, 0, '>');
    if open < author.len() && close < author.len() {
        (crate::text::trim_ws(author.subrange(0, open)), author.subrange(open + 1, close))
    } else {
        (author, Seq::empty())
    }
}

/// Checks `brackets_ordered`.
pub fn author_brackets_ordered(author: &str) -> (r: bool)
    ensures
        r == brackets_ordered(author@),
{
    let a = str_to_chars(author);
    proof {
        crate::text::lemma_find_from_bounds(a@, 0, '<');
        crate::text::lemma_find_from_bounds(a@, 0, '>');
    }
    let open = crate::text::find_char(a.as_slice(), 0, '<');
    let close = crate::text::find_char(a.as_slice(), 0, '>');
    !(open < a.len() && close < a.len() && close < open)
}

/// Splits an author into name and email.
pub fn split_author(author: &str) -> (r: (String, String))
    requires
        brackets_ordered(author@),
    ensures
        (r.0@, r.1@) == spec_split_author(author@),
{
    let a = str_to_chars(author);
    proof {
        crate::text::lemma_find_from_bounds(a@, 0, '<');
        crate::text::lemma_find_from_bounds(a@, 0, '>');
    }
    let open = crate::text::find_char(a.as_slice(), 0, '<');
    let close = crate::text::find_char(a.as_slice(), 0, '>');
    if open < a.len() && close < a.len() {
        proof {
            assert(a@[close as int] != a@[open as int]);
        }
        let name = crate::text::trim_range(a.as_slice(), 0, open);
        let email = crate::text::copy_chars(a.as_slice(), open + 1, close);
        (chars_to_string(name.as_slice()), chars_to_string(email.as_slice()))
    } else {
        (author.to_string(), String::new())
    }
}

/// The content a pack carries for a commit known by its metadata: the
/// commit rebuilt from tree, parents, the author split into name and email,
/// time and message.
pub fn commit_pack_payload(meta: &crate::models::CommitMeta) -> (r: Vec<u8>)
    requires
        brackets_ordered(meta.author@),
    ensures
        r@ == vstd::utf8::encode_utf8(crate::objects::commit_content(
            meta.tree_hash@,
            crate::objects::hash_views(meta.parent_hashes@),
            spec_split_author(meta.author@).0,
            spec_split_author(meta.author@).1,
            meta.timestamp as nat,
            meta.message@,
        )),
{
    let (name, email) = split_author(meta.author.as_str());
    let content = crate::objects::build_commit_content(
        meta.tree_hash,
        meta.parent_hashes.as_slice(),
        name.as_str(),
        email.as_str(),
        meta.timestamp,
        meta.message.as_str(),
    );
    vstd::slice::slice_to_vec(content.as_str().as_bytes())
}

} // verus!
