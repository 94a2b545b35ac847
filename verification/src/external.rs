//! Trusted bindings to outside crates. Every item here is believed by the
//! verifier without proof; each doc comment says which outside function is
//! called and what is claimed of it.

use vstd::prelude::*;
use base64::Engine;
use sha1::Digest;
use std::io::{Read, Write};
use vstd::string::StringSliceAdditionalSpecFns;

verus! {

/// The lowercase hexadecimal digit for a value below 16.
pub open spec fn hex_digit_lower(v: u8) -> u8 {
    if v < 10 { (48 + v) as u8 } else { (87 + v) as u8 }
}

/// Lowercase hex encoding: two digits per byte, high nibble first.
pub open spec fn spec_hex_encode(bytes: Seq<u8>) -> Seq<u8>
    decreases bytes.len(),
{
    if bytes.len() == 0 {
        Seq::empty()
    } else {
        seq![hex_digit_lower(bytes[0] / 16), hex_digit_lower(bytes[0] % 16)]
            + spec_hex_encode(bytes.drop_first())
    }
}

/// Whether a byte is an ASCII hex digit of either case.
pub open spec fn is_hex_digit(c: u8) -> bool {
    (48 <= c <= 57) || (65 <= c <= 70) || (97 <= c <= 102)
}

/// The value of an ASCII hex digit.
pub open spec fn hex_value(c: u8) -> u8 {
    if 48 <= c <= 57 {
        (c - 48) as u8
    } else if 65 <= c <= 70 {
        (c - 55) as u8
    } else {
        (c - 87) as u8
    }
}

/// Hex decoding: defined on an even number of hex digits of either case,
/// each pair giving one byte, high nibble first.
pub open spec fn spec_hex_decode(s: Seq<u8>) -> Option<Seq<u8>>
    decreases s.len(),
{
    if s.len() == 0 {
        Some(Seq::empty())
    } else if s.len() == 1 || !is_hex_digit(s[0]) || !is_hex_digit(s[1]) {
        None
    } else {
        match spec_hex_decode(s.skip(2)) {
            Some(rest) => Some(seq![(hex_value(s[0]) * 16 + hex_value(s[1])) as u8] + rest),
            None => None,
        }
    }
}

/// Calls `hex::encode`, which encodes the bytes as lowercase hex digits,
/// two per byte.
#[verifier::external_body]
pub(crate) fn hex_encode(bytes: &[u8]) -> (s: String)
    ensures
        s@ == spec_hex_encode(bytes@).map_values(|b: u8| b as char),
{
    hex::encode(bytes)
}

/// Calls `hex::decode`, which accepts an even number of hex digits of either
/// case and fails otherwise. The error's text (`to_string` of
/// `hex::FromHexError`) is handed back as it is; nothing is claimed of it.
#[verifier::external_body]
pub(crate) fn hex_decode(s: &str) -> (r: Result<Vec<u8>, String>)
    ensures
        r is Ok <==> spec_hex_decode(s.spec_bytes()) is Some,
        r matches Ok(v) ==> v@ == spec_hex_decode(s.spec_bytes()).unwrap(),
{
    hex::decode(s).map_err(|e| e.to_string())
}

} // verus!

verus! {

/// Calls `str::chars` and collects the characters.
#[verifier::external_body]
pub(crate) fn str_to_chars(s: &str) -> (v: Vec<char>)
    ensures
        v@ == s@,
{
    s.chars().collect()
}

/// Collects characters into a `String` (`FromIterator<char>`). A `String`
/// holds at most `isize::MAX` bytes, as every allocation does.
#[verifier::external_body]
pub(crate) fn chars_to_string(v: &[char]) -> (s: String)
    ensures
        s@ == v@,
        vstd::utf8::encode_utf8(s@).len() <= isize::MAX,
{
    v.iter().collect()
}

/// Calls `std::str::from_utf8`: the bytes as text when they are valid UTF-8.
#[verifier::external_body]
pub(crate) fn utf8_str(bytes: &[u8]) -> (r: Option<&str>)
    ensures
        r is Some <==> vstd::utf8::valid_utf8(bytes@),
        r matches Some(s) ==> s.spec_bytes() == bytes@ && s@ == vstd::utf8::decode_utf8(bytes@),
{
    std::str::from_utf8(bytes).ok()
}

/// The text that `String::from_utf8_lossy` makes of some bytes.
pub uninterp spec fn spec_utf8_lossy(bytes: Seq<u8>) -> Seq<char>;

/// Calls `String::from_utf8_lossy` and collects the characters. Valid UTF-8
/// is decoded unchanged; what replaces invalid sequences is left to the
/// name `spec_utf8_lossy`.
#[verifier::external_body]
pub(crate) fn utf8_lossy(bytes: &[u8]) -> (v: Vec<char>)
    ensures
        v@ == spec_utf8_lossy(bytes@),
        vstd::utf8::valid_utf8(bytes@) ==> v@ == vstd::utf8::decode_utf8(bytes@),
{
    String::from_utf8_lossy(bytes).chars().collect()
}

} // verus!

verus! {

/// The SHA-1 digest of some bytes.
pub uninterp spec fn sha1_digest(data: Seq<u8>) -> Seq<u8>;

/// Calls `sha1::Sha1::digest` on the bytes and returns the 20-byte digest.
#[verifier::external_body]
pub(crate) fn sha1(data: &[u8]) -> (h: [u8; 20])
    ensures
        h@ == sha1_digest(data@),
{
    sha1::Sha1::digest(data).into()
}

/// The zlib stream that `flate2`'s `ZlibEncoder` at the default level makes
/// of some bytes.
pub uninterp spec fn zlib_compress(data: Seq<u8>) -> Seq<u8>;

/// What `flate2`'s `ZlibDecoder` reads out of some bytes: the decompressed
/// data, or nothing when the stream is invalid or cut short.
pub uninterp spec fn zlib_decompress(data: Seq<u8>) -> Option<Seq<u8>>;

/// Compresses with `flate2::write::ZlibEncoder` at `Compression::default()`
/// into a `Vec`, which cannot fail to be written. Decompressing the result
/// gives the data back: the compression is lossless.
#[verifier::external_body]
pub(crate) fn zlib_compress_bytes(data: &[u8]) -> (out: Vec<u8>)
    ensures
        out@ == zlib_compress(data@),
        zlib_decompress(out@) == Some(data@),
{
    let mut encoder = flate2::write::ZlibEncoder::new(Vec::new(), flate2::Compression::default());
    encoder.write_all(data).expect("writing to a Vec");
    encoder.finish().expect("writing to a Vec")
}

/// What `flate2`'s `bufread::ZlibDecoder` reads out of the zlib stream at
/// the start of some bytes: the decompressed data and the number of bytes
/// the stream took, or nothing when the stream is invalid or cut short.
pub uninterp spec fn zlib_inflate_prefix(data: Seq<u8>) -> Option<(Seq<u8>, nat)>;

/// Reads `flate2::bufread::ZlibDecoder` over `data[from..]` to the end of
/// its zlib stream and gives the data with the decoder's `total_in`, the
/// bytes it consumed, which the decoder only counts as it consumes them
/// from its input (so never more than there are); an error of the decoder
/// is `None`.
#[verifier::external_body]
pub(crate) fn inflate_at(data: &[u8], from: usize) -> (r: Option<(Vec<u8>, usize)>)
    requires
        from <= data@.len(),
    ensures
        match zlib_inflate_prefix(data@.subrange(from as int, data@.len() as int)) {
            Some((out, n)) => r matches Some((o, m)) && o@ == out && m == n,
            None => r is None,
        },
        r matches Some((_, m)) ==> m <= data@.len() - from,
{
    let mut decoder = flate2::bufread::ZlibDecoder::new(&data[from..]);
    let mut content = Vec::new();
    match decoder.read_to_end(&mut content) {
        Ok(_) => Some((content, decoder.total_in() as usize)),
        Err(_) => None,
    }
}

/// Reads `flate2::read::ZlibDecoder` over the bytes to the end; an error of
/// the decoder is `None`.
#[verifier::external_body]
pub(crate) fn zlib_decompress_bytes(data: &[u8]) -> (out: Option<Vec<u8>>)
    ensures
        out is None <==> zlib_decompress(data@) is None,
        out matches Some(v) ==> zlib_decompress(data@) == Some(v@),
{
    let mut decoder = flate2::read::ZlibDecoder::new(data);
    let mut content = Vec::new();
    match decoder.read_to_end(&mut content) {
        Ok(_) => Some(content),
        Err(_) => None,
    }
}

} // verus!

verus! {

/// The edit script that `similar` computes between the lines of two texts,
/// one tuple per `DiffOp`: (tag, old_index, old_len, new_index, new_len),
/// tag 0 for `Equal`, 1 `Delete`, 2 `Insert`, 3 `Replace`.
pub uninterp spec fn spec_line_diff(old: Seq<char>, new: Seq<char>) -> Seq<(u8, usize, usize, usize, usize)>;

/// Calls `similar::TextDiff::from_lines(old, new).ops()` and turns each
/// `DiffOp` into a tuple, moving its fields: `Equal` gives its length as
/// both lengths, `Delete` a new length of 0, `Insert` an old length of 0.
#[verifier::external_body]
pub(crate) fn line_diff(old: &str, new: &str) -> (ops: Vec<(u8, usize, usize, usize, usize)>)
    ensures
        ops@ == spec_line_diff(old@, new@),
{
    similar::TextDiff::from_lines(old, new)
        .ops()
        .iter()
        .map(|op| match *op {
            similar::DiffOp::Equal { old_index, new_index, len } => (0u8, old_index, len, new_index, len),
            similar::DiffOp::Delete { old_index, old_len, new_index } => (1u8, old_index, old_len, new_index, 0),
            similar::DiffOp::Insert { old_index, new_index, new_len } => (2u8, old_index, 0, new_index, new_len),
            similar::DiffOp::Replace { old_index, old_len, new_index, new_len } => (3u8, old_index, old_len, new_index, new_len),
        })
        .collect()
}

} // verus!

verus! {

/// The standard base64 encoding (RFC 4648 alphabet, with padding) of some
/// bytes.
pub uninterp spec fn base64_standard(data: Seq<u8>) -> Seq<char>;

/// Calls `base64::engine::general_purpose::STANDARD.encode`.
#[verifier::external_body]
pub(crate) fn base64_encode(data: &[u8]) -> (s: String)
    ensures
        s@ == base64_standard(data@),
{
    base64::engine::general_purpose::STANDARD.encode(data)
}

} // verus!

verus! {

/// The path that `std::path::Path::join` makes of a base and a relative or
/// absolute path, as text.
pub uninterp spec fn spec_path_join(base: Seq<char>, rel: Seq<char>) -> Seq<char>;

/// What `std::path::Path::strip_prefix` leaves of a path after a base, as
/// text, or `None` when the base is not a prefix of its components.
pub uninterp spec fn spec_path_strip_prefix(path: Seq<char>, base: Seq<char>) -> Option<Seq<char>>;

/// The ancestors that `std::path::Path::ancestors` yields, the path itself
/// first, as text.
pub uninterp spec fn spec_path_ancestors(path: Seq<char>) -> Seq<Seq<char>>;

/// Calls `Path::join` and converts the result to text.
#[verifier::external_body]
pub(crate) fn path_join(base: &str, rel: &str) -> (r: String)
    ensures
        r@ == spec_path_join(base@, rel@),
{
    std::path::Path::new(base).join(rel).to_string_lossy().into_owned()
}

/// Calls `Path::strip_prefix` and converts the rest to text.
#[verifier::external_body]
pub(crate) fn path_strip_prefix(path: &str, base: &str) -> (r: Option<String>)
    ensures
        match r {
            Some(s) => spec_path_strip_prefix(path@, base@) == Some(s@),
            None => spec_path_strip_prefix(path@, base@) is None,
        },
{
    std::path::Path::new(path).strip_prefix(base).ok().map(|p| p.to_string_lossy().into_owned())
}

/// The parent that `std::path::Path::parent` gives of a path, as text, or
/// `None` for a root or an empty path.
pub uninterp spec fn spec_path_parent(path: Seq<char>) -> Option<Seq<char>>;

/// Calls `Path::ancestors` and converts each ancestor to text. As `std`
/// documents it, the ancestors are the path itself and then what `parent`
/// gives again and again, until it gives `None`; a path made from text
/// converts back to the same text.
#[verifier::external_body]
pub(crate) fn path_ancestors(path: &str) -> (r: Vec<String>)
    ensures
        r@.map_values(|s: String| s@) == spec_path_ancestors(path@),
        r@.len() >= 1,
        r@[0]@ == path@,
        forall|i: int| 0 <= i < r@.len() - 1 ==> spec_path_parent(#[trigger] r@[i]@) == Some(r@[i + 1]@),
        spec_path_parent(r@[r@.len() - 1]@) is None,
{
    std::path::Path::new(path).ancestors().map(|p| p.to_string_lossy().into_owned()).collect()
}

} // verus!

verus! {

/// Whether the gitignore that `ignore::gitignore::GitignoreBuilder` builds
/// from these lines (root "", each line given to `add_line`) ignores `path`
/// as a file.
pub uninterp spec fn spec_gitignore_ignores(lines: Seq<Seq<char>>, path: Seq<char>) -> bool;

/// Builds a `Gitignore` from the lines with `GitignoreBuilder::new("")` and
/// `add_line` (a line it rejects is left out, as `add_line` does), and asks
/// `matched(path, false).is_ignore()`. Should the builder fail to compile
/// its globs into one set, the wrapper answers `false`; what the crate
/// would have made of such lines is left unsaid.
#[verifier::external_body]
pub(crate) fn gitignore_ignores(lines: &[String], path: &str) -> (r: bool)
    ensures
        r == spec_gitignore_ignores(lines@.map_values(|s: String| s@), path@),
{
    let mut builder = ignore::gitignore::GitignoreBuilder::new("");
    for line in lines {
        let _ = builder.add_line(None, line);
    }
    match builder.build() {
        Ok(g) => g.matched(path, false).is_ignore(),
        Err(_) => false,
    }
}

} // verus!

verus! {

/// The text that `{:?}` gives of `String::from_utf8_lossy` of some bytes:
/// the text quoted, with escapes.
pub uninterp spec fn spec_debug_lossy(bytes: Seq<u8>) -> Seq<char>;

/// Formats `String::from_utf8_lossy(bytes)` with `{:?}`.
#[verifier::external_body]
pub(crate) fn debug_lossy(bytes: &[u8]) -> (r: String)
    ensures
        r@ == spec_debug_lossy(bytes@),
{
    format!("{:?}", String::from_utf8_lossy(bytes))
}

} // verus!
