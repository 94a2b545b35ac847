//! Reading the entries of a received pack: the header, then for each entry
//! its type, the base of a delta, and its inflated data.

use vstd::prelude::*;
use crate::error::GikError;
use crate::external::{inflate_at, zlib_inflate_prefix};
use crate::pack::{header_is_overlong, header_overlong, read_object_header, spec_object_header};
use crate::packfile::{pack_entry_kind, parse_pack_header, spec_parse_pack_header};
use crate::unpack::{parse_commit_meta, spec_commit_meta};

verus! {

/// One pack entry as plain values: its offset, its type number, the base
/// of a delta (for type 7), and its inflated data.
pub type ScanItem = (u64, u8, Option<Seq<u8>>, Seq<u8>);

/// How reading a pack ends.
pub enum ScanOutcome {
    /// The entries, in order.
    Done(Seq<ScanItem>),
    /// The pack is malformed: a bad signature, a cut-short entry, an
    /// unsupported type, a broken zlib stream, or a commit whose tree or
    /// parent line holds no hash.
    Failed,
    /// An entry header with more continuation bytes than the size's shift
    /// can take.
    Overrun,
}

/// The entry types a pack may hold here: commit 1, tree 2, blob 3, and a
/// delta against a named base 7.
pub open spec fn entry_type_ok(t: u8) -> bool {
    t == 1 || t == 2 || t == 3 || t == 7
}

/// Reads `left` entries from `pos` on.
pub open spec fn scan_from(pack: Seq<u8>, pos: int, left: nat) -> ScanOutcome
    decreases left,
{
    if left == 0 {
        ScanOutcome::Done(seq![])
    } else if header_overlong(pack, pos) {
        ScanOutcome::Overrun
    } else {
        match spec_object_header(pack, pos) {
            None => ScanOutcome::Failed,
            Some((t, _size, end)) => {
                let start = if t == 7 { end + 20 } else { end };
                if !entry_type_ok(t) || start > pack.len() {
                    ScanOutcome::Failed
                } else {
                    match zlib_inflate_prefix(pack.subrange(start, pack.len() as int)) {
                        None => ScanOutcome::Failed,
                        Some((out, n)) => {
                            if t == 1 && spec_commit_meta(out) is None {
                                ScanOutcome::Failed
                            } else {
                                let base = if t == 7 { Some(pack.subrange(end, end + 20)) } else { None };
                                match scan_from(pack, start + n, (left - 1) as nat) {
                                    ScanOutcome::Done(rest) => ScanOutcome::Done(seq![(pos as u64, t, base, out)] + rest),
                                    other => other,
                                }
                            }
                        },
                    }
                }
            },
        }
    }
}

/// Reads a whole pack: the 12-byte header, then as many entries as it
/// announces.
pub open spec fn spec_scan_pack(pack: Seq<u8>) -> ScanOutcome {
    if pack.len() < 12 {
        ScanOutcome::Failed
    } else {
        match spec_parse_pack_header(pack.subrange(0, 12)) {
            None => ScanOutcome::Failed,
            Some(n) => scan_from(pack, 12, n as nat),
        }
    }
}

/// The entries read so far, in front of how the rest ends.
pub open spec fn prepend(done: Seq<ScanItem>, o: ScanOutcome) -> ScanOutcome {
    match o {
        ScanOutcome::Done(rest) => ScanOutcome::Done(done + rest),
        other => other,
    }
}

/// A pack entry: where it starts, its type number, the base a delta
/// applies to, and the inflated data.
pub struct PackItem {
    pub offset: u64,
    pub obj_type: u8,
    pub base: Option<crate::hash::Hash>,
    pub data: Vec<u8>,
}

pub open spec fn item_view(i: PackItem) -> ScanItem {
    (i.offset, i.obj_type, crate::merge::opt_view(i.base), i.data@)
}

pub open spec fn items_view(v: Seq<PackItem>) -> Seq<ScanItem> {
    v.map_values(|i: PackItem| item_view(i))
}

/// The hash held in `data[from..from + 20]`.
fn hash_at(data: &[u8], from: usize) -> (h: crate::hash::Hash)
    requires
        from + 20 <= data@.len(),
    ensures
        h@ == data@.subrange(from as int, from + 20),
{
    let mut array = [0u8; 20];
    let mut i: usize = 0;
    let len = data.len();
    while i < 20
        invariant
            i <= 20,
            len == data@.len(),
            from + 20 <= data@.len(),
            forall|j: int| 0 <= j < i ==> array@[j] == data@[from + j],
        decreases 20 - i,
    {
        array[i] = data[from + i];
        i += 1;
    }
    let h = crate::hash::Hash(array);
    assert(h@ =~= data@.subrange(from as int, from + 20));
    h
}

/// Reads the entries of a pack, or gives `None` for a pack on which the
/// reader's size arithmetic would overflow.
pub fn try_scan_pack(pack: &[u8]) -> (r: Option<Result<Vec<PackItem>, GikError>>)
    ensures
        match spec_scan_pack(pack@) {
            ScanOutcome::Done(items) => r matches Some(Ok(v)) && items_view(v@) == items,
            ScanOutcome::Failed => r matches Some(Err(GikError::Io(_))),
            ScanOutcome::Overrun => r is None,
        },
{
    if pack.len() < 12 {
        return Some(Err(GikError::Io("failed to fill whole buffer".to_string())));
    }
    let header = crate::textmerge::copy_bytes(pack, 0, 12);
    let count = match parse_pack_header(header.as_slice()) {
        Ok(n) => n,
        Err(e) => return Some(Err(e)),
    };
    let mut items: Vec<PackItem> = Vec::new();
    let mut pos: usize = 12;
    let mut left: u32 = count;
    assert(items_view(items@) =~= Seq::<ScanItem>::empty());
    while left > 0
        invariant
            pos <= pack@.len(),
            spec_scan_pack(pack@) == prepend(items_view(items@), scan_from(pack@, pos as int, left as nat)),
        decreases left,
    {
        if header_is_overlong(pack, pos) {
            return None;
        }
        proof {
            crate::pack::lemma_object_header_end(pack@, pos as int);
        }
        let (t, _size, end) = match read_object_header(pack, pos) {
            Ok(h) => h,
            Err(e) => return Some(Err(e)),
        };
        match pack_entry_kind(t) {
            Ok(_) => {},
            Err(e) => return Some(Err(e)),
        }
        assert(entry_type_ok(t));
        if end > pack.len() || (t == 7 && pack.len() - end < 20) {
            assert(scan_from(pack@, pos as int, left as nat) is Failed);
            return Some(Err(GikError::Io("failed to fill whole buffer".to_string())));
        }
        let start = if t == 7 { end + 20 } else { end };
        let (out, n) = match inflate_at(pack, start) {
            Some(v) => v,
            None => {
                assert(scan_from(pack@, pos as int, left as nat) is Failed);
                return Some(Err(GikError::Io("corrupt deflate stream".to_string())));
            },
        };
        if t == 1 {
            match parse_commit_meta(out.as_slice()) {
                Ok(_) => {},
                Err(e) => return Some(Err(e)),
            }
        }
        let base = if t == 7 { Some(hash_at(pack, end)) } else { None };
        assert(entry_type_ok(t));
        let item = PackItem { offset: pos as u64, obj_type: t, base, data: out };
        let ghost before = items_view(items@);
        let ghost rest = scan_from(pack@, (start + n) as int, (left - 1) as nat);
        assert(item_view(item) == (pos as u64, t, if t == 7 { Some(pack@.subrange(end as int, end + 20)) } else { None::<Seq<u8>> }, out@));
        assert(scan_from(pack@, pos as int, left as nat) == prepend(seq![item_view(item)], rest));
        items.push(item);
        assert(items_view(items@) =~= before.push(item_view(item)));
        proof {
            match rest {
                ScanOutcome::Done(r) => {
                    assert(before.push(item_view(item)) + r =~= before + (seq![item_view(item)] + r));
                },
                _ => {},
            }
        }
        pos = start + n;
        left = left - 1;
    }
    assert(items_view(items@) + Seq::<ScanItem>::empty() =~= items_view(items@));
    Some(Ok(items))
}

} // verus!
