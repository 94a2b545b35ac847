//! Object identifiers: 20-byte SHA-1 digests.

use vstd::prelude::*;
use vstd::string::StringSliceAdditionalSpecFns;
use crate::external::{hex_decode, hex_encode, spec_hex_decode, spec_hex_encode, hex_digit_lower, hex_value, is_hex_digit};

verus! {

/// A 20-byte object identifier.
#[derive(Clone, Copy, Debug, Eq, Hash, PartialOrd, Ord)]
pub struct Hash(pub [u8; 20]);

impl View for Hash {
    type V = Seq<u8>;

    open spec fn view(&self) -> Seq<u8> {
        self.0@
    }
}

impl PartialEq for Hash {
    fn eq(&self, other: &Hash) -> (r: bool) {
        let mut i: usize = 0;
        while i < 20
            invariant
                i <= 20,
                forall|j: int| 0 <= j < i ==> self.0@[j] == other.0@[j],
            decreases 20 - i,
        {
            if self.0[i] != other.0[i] {
                return false;
            }
            i += 1;
        }
        proof {
            assert(self.0@ =~= other.0@);
        }
        true
    }
}

impl vstd::std_specs::cmp::PartialEqSpecImpl for Hash {
    open spec fn obeys_eq_spec() -> bool {
        true
    }

    open spec fn eq_spec(&self, other: &Hash) -> bool {
        self@ == other@
    }
}

impl Hash {
    /// Parses 40 hex digits (either case) into a hash. The error is the
    /// decoder's message, or "Invalid hash length" when the digits decode to
    /// other than 20 bytes.
    pub fn from_hex(s: &str) -> (r: Result<Hash, String>)
        ensures
            r is Ok <==> (spec_hex_decode(s.spec_bytes()) matches Some(b) && b.len() == 20),
            r matches Ok(h) ==> h@ == spec_hex_decode(s.spec_bytes()).unwrap(),
    {
        let bytes = hex_decode(s)?;
        if bytes.len() != 20 {
            return Err("Invalid hash length".to_string());
        }
        let mut array = [0u8; 20];
        let mut i: usize = 0;
        while i < 20
            invariant
                i <= 20,
                bytes@.len() == 20,
                forall|j: int| 0 <= j < i ==> array@[j] == bytes@[j],
            decreases 20 - i,
        {
            array[i] = bytes[i];
            i += 1;
        }
        proof {
            assert(array@ =~= bytes@);
        }
        Ok(Hash(array))
    }

    /// The lowercase hex form of the hash, 40 digits.
    pub fn to_string(&self) -> (s: String)
        ensures
            s@ == spec_hex_encode(self@).map_values(|b: u8| b as char),
    {
        hex_encode(self.0.as_slice())
    }

    /// Wraps raw digest bytes.
    pub fn from(bytes: [u8; 20]) -> (h: Hash)
        ensures
            h.0 == bytes,
    {
        Hash(bytes)
    }
}

/// A hex digit reads back as the value it was written for.
proof fn lemma_hex_digit_value(v: u8)
    requires
        v < 16,
    ensures
        is_hex_digit(hex_digit_lower(v)),
        hex_value(hex_digit_lower(v)) == v,
{
}

/// Decoding the hex form of some bytes gives them back: the form that
/// `Hash::to_string` prints is the one `Hash::from_hex` reads.
pub proof fn law_hex_roundtrip(bytes: Seq<u8>)
    ensures
        spec_hex_decode(spec_hex_encode(bytes)) == Some(bytes),
    decreases bytes.len(),
{
    if bytes.len() > 0 {
        let b = bytes[0];
        let hi = b / 16;
        let lo = b % 16;
        lemma_hex_digit_value(hi);
        lemma_hex_digit_value(lo);
        law_hex_roundtrip(bytes.drop_first());
        let enc = spec_hex_encode(bytes);
        assert(enc.skip(2) =~= spec_hex_encode(bytes.drop_first()));
        assert((hi * 16 + lo) as u8 == b) by (nonlinear_arith)
            requires
                hi == b / 16,
                lo == b % 16,
        ;
        assert(seq![b] + bytes.drop_first() =~= bytes);
    }
}

} // verus!
