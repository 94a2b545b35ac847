//! The packfile wire format: object entry headers, pack headers and the
//! copy/insert delta instructions of `OBJ_REF_DELTA` entries.

use vstd::prelude::*;
use crate::error::GikError;

verus! {


/// Continues reading a pack entry's size after a byte whose high bit was set:
/// `data[i]` contributes its low seven bits at `shift`. Gives the size and
/// the position just past the header, or `None` when the data ends first.
pub open spec fn header_size_from(data: Seq<u8>, i: int, size: u64, shift: u64) -> Option<(u64, int)>
    decreases data.len() - i,
{
    if i < 0 || i >= data.len() {
        None
    } else {
        let b = data[i];
        let next = size | (((b & 0x7f) as u64) << shift);
        if b & 0x80 != 0 {
            header_size_from(data, i + 1, next, (shift + 7) as u64)
        } else {
            Some((next, i + 1))
        }
    }
}

/// The entry header at `pos`: type (bits 4..6 of the first byte), size (low
/// nibble of the first byte, then seven bits per continuation byte, little
/// end first) and the position after it.
pub open spec fn spec_object_header(data: Seq<u8>, pos: int) -> Option<(u8, u64, int)> {
    if pos < 0 || pos >= data.len() {
        None
    } else {
        let b = data[pos];
        let t = (b >> 4) & 7;
        let size = (b & 15) as u64;
        if b & 0x80 != 0 {
            match header_size_from(data, pos + 1, size, 4) {
                Some((s, end)) => Some((t, s, end)),
                None => None,
            }
        } else {
            Some((t, size, pos + 1))
        }
    }
}

/// A header read from `i` ends after `i` and within the data.
pub proof fn lemma_header_size_end(data: Seq<u8>, i: int, size: u64, shift: u64)
    ensures
        header_size_from(data, i, size, shift) matches Some((_, end)) ==> i < end <= data.len(),
    decreases data.len() - i,
{
    if 0 <= i < data.len() {
        let b = data[i];
        if b & 0x80 != 0 {
            lemma_header_size_end(data, i + 1, size | (((b & 0x7f) as u64) << shift), (shift + 7) as u64);
        }
    }
}

/// An entry header ends after its start and within the data.
pub proof fn lemma_object_header_end(data: Seq<u8>, pos: int)
    ensures
        spec_object_header(data, pos) matches Some((_, _, end)) ==> pos < end <= data.len(),
{
    if 0 <= pos < data.len() {
        let b = data[pos];
        lemma_header_size_end(data, pos + 1, (b & 15) as u64, 4);
    }
}

/// A header whose eleventh byte would be read at a shift of 67 bits: ten
/// bytes from `pos` with the continuation bit set and one more after them.
pub open spec fn header_overlong(data: Seq<u8>, pos: int) -> bool {
    &&& 0 <= pos
    &&& pos + 11 <= data.len()
    &&& forall|k: int| 0 <= k < 10 ==> #[trigger] data[pos + k] & 0x80 != 0
}

/// Checks `header_overlong`, on which the pack reader's shift would overflow.
pub fn header_is_overlong(data: &[u8], pos: usize) -> (r: bool)
    ensures
        r == header_overlong(data@, pos as int),
{
    if pos > data.len() || data.len() - pos < 11 {
        return false;
    }
    let mut k: usize = 0;
    while k < 10
        invariant
            k <= 10,
            pos + 11 <= data@.len(),
            data@.len() <= usize::MAX,
            forall|j: int| 0 <= j < k ==> #[trigger] data@[pos + j] & 0x80 != 0,
        decreases 10 - k,
    {
        if data[pos + k] & 0x80 == 0 {
            assert(!(data@[pos + k] & 0x80 != 0));
            return false;
        }
        k += 1;
    }
    true
}

/// Reads the header of the pack entry that starts at `pos`: its type, its
/// size, and the position of the first byte after the header.
pub fn read_object_header(data: &[u8], pos: usize) -> (r: Result<(u8, u64, usize), GikError>)
    requires
        !header_overlong(data@, pos as int),
    ensures
        match spec_object_header(data@, pos as int) {
            Some((t, s, end)) => r == Ok::<(u8, u64, usize), GikError>((t, s, end as usize)),
            None => r matches Err(GikError::Io(m)) && m@ == "failed to fill whole buffer"@,
        },
{
    if pos >= data.len() {
        return Err(GikError::Io("failed to fill whole buffer".to_string()));
    }
    let first = data[pos];
    let obj_type = (first >> 4) & 7;
    let mut size = (first & 15) as u64;
    let mut shift: u64 = 4;
    let mut current_byte = first;
    let mut i = pos + 1;
    let ghost mut k: int = 0;
    while (current_byte & 0x80) != 0
        invariant
            pos < data@.len(),
            !header_overlong(data@, pos as int),
            i == pos + 1 + k,
            i <= data@.len(),
            0 <= k,
            shift == 4 + 7 * k,
            current_byte == data@[i - 1],
            first == data@[pos as int],
            obj_type == (first >> 4) & 7,
            forall|j: int| 0 <= j < k ==> #[trigger] data@[pos + j] & 0x80 != 0,
            spec_object_header(data@, pos as int) == (if first & 0x80 != 0 {
                match header_size_from(data@, pos + 1, (first & 15) as u64, 4) {
                    Some((s, end)) => Some((obj_type, s, end)),
                    None => None,
                }
            } else {
                Some((obj_type, (first & 15) as u64, pos + 1))
            }),
            current_byte & 0x80 != 0 ==> header_size_from(data@, pos + 1, (first & 15) as u64, 4)
                == header_size_from(data@, i as int, size, shift),
            current_byte & 0x80 == 0 ==> spec_object_header(data@, pos as int) == Some(
                (obj_type, size, i as int),
            ),
        decreases data@.len() - i,
    {
        proof {
            if k > 0 {
                assert(data@[pos + 0] & 0x80 != 0);
            }
        }
        assert(first & 0x80 != 0);
        if i >= data.len() {
            return Err(GikError::Io("failed to fill whole buffer".to_string()));
        }
        assert(data@[pos + k] & 0x80 != 0);
        if shift >= 64 {
            assert(k >= 9);
            assert forall|j: int| 0 <= j < 10 implies #[trigger] data@[pos + j] & 0x80 != 0 by {
                if j == k {
                } else {
                    assert(data@[pos + j] & 0x80 != 0);
                }
            }
            assert(false);
        }
        current_byte = data[i];
        size = size | (((current_byte & 0x7f) as u64) << shift);
        shift = shift + 7;
        i = i + 1;
        proof {
            k = k + 1;
        }
    }
    Ok((obj_type, size, i))
}

} // verus!

verus! {

/// The continuation bytes of an entry header: seven bits of `rest` per byte,
/// low bits first, the high bit set on every byte but the last.
pub open spec fn header_tail(rest: u64) -> Seq<u8>
    decreases rest,
{
    if rest == 0 {
        Seq::empty()
    } else {
        proof {
            lemma_shr7_decreases(rest);
        }
        let b = (rest & 0x7f) as u8;
        let more = rest >> 7;
        seq![if more > 0 { b | 0x80 } else { b }] + header_tail(more)
    }
}

/// The header that introduces a pack entry of type `obj_type` holding
/// `size` bytes.
pub open spec fn spec_encode_object_header(obj_type: u8, size: u64) -> Seq<u8> {
    let b = ((obj_type << 4u8) | ((size & 0x0f) as u8)) as u8;
    let rest = size >> 4;
    seq![if rest > 0 { b | 0x80 } else { b }] + header_tail(rest)
}

pub proof fn lemma_shr7_decreases(x: u64)
    requires
        x != 0,
    ensures
        x >> 7 < x,
{
    assert(x != 0 ==> x >> 7 < x) by (bit_vector);
}

/// Appends the header of a pack entry of type `obj_type` (commit 1, tree 2,
/// blob 3) and `size` bytes to `writer`.
pub fn write_object_header(writer: &mut Vec<u8>, obj_type: u8, size: usize)
    ensures
        final(writer)@ == old(writer)@ + spec_encode_object_header(obj_type, size as u64),
{
    let ghost start = writer@;
    let mut size = size as u64;
    let ghost total = size;
    let mut byte: u8 = (obj_type << 4) | ((size & 0x0F) as u8);
    size = size >> 4;
    if size > 0 {
        byte = byte | 0x80;
    }
    writer.push(byte);
    assert(writer@ + header_tail(size) =~= start + spec_encode_object_header(obj_type, total));
    while size > 0
        invariant
            writer@ + header_tail(size) == start + spec_encode_object_header(obj_type, total),
        decreases size,
    {
        let ghost before = writer@;
        let ghost cur = size;
        let mut b = (size & 0x7F) as u8;
        size = size >> 7;
        if size > 0 {
            b = b | 0x80;
        }
        writer.push(b);
        proof {
            lemma_shr7_decreases(cur);
            assert(header_tail(cur) == seq![b] + header_tail(size));
            assert(writer@ + header_tail(size) =~= before + header_tail(cur));
        }
    }
    assert(header_tail(0) =~= Seq::<u8>::empty());
    assert(writer@ =~= writer@ + header_tail(0));
}

} // verus!

verus! {

proof fn lemma_tail_decode(data: Seq<u8>, i: int, r: u64, acc: u64, sh: u64)
    requires
        r > 0,
        sh < 64,
        r <= (0xffff_ffff_ffff_ffffu64 >> sh),
        0 <= i,
        i + header_tail(r).len() <= data.len(),
        forall|j: int| 0 <= j < header_tail(r).len() ==> data[i + j] == #[trigger] header_tail(r)[j],
    ensures
        header_size_from(data, i, acc, sh) == Some((acc | (r << sh), i + header_tail(r).len())),
    decreases r,
{
    lemma_shr7_decreases(r);
    let b = (r & 0x7f) as u8;
    let more = r >> 7;
    let byte = if more > 0 { b | 0x80 } else { b };
    assert(header_tail(r) == seq![byte] + header_tail(more));
    assert(data[i + 0] == header_tail(r)[0]);
    let next = acc | (((byte & 0x7f) as u64) << sh);
    if more > 0 {
        assert(byte & 0x80 != 0 && (byte & 0x7f) as u64 == r & 0x7f) by (bit_vector)
            requires
                byte == ((r & 0x7f) as u8 | 0x80),
        ;
        assert(sh + 7 < 64 && more <= (0xffff_ffff_ffff_ffffu64 >> ((sh + 7) as u64))
            && (acc | ((r & 0x7f) << sh)) | (more << ((sh + 7) as u64)) == acc | (r << sh))
            by (bit_vector)
            requires
                r <= (0xffff_ffff_ffff_ffffu64 >> sh),
                sh < 64,
                more == r >> 7,
                more > 0,
        ;
        assert forall|j: int| 0 <= j < header_tail(more).len() implies data[i + 1 + j]
            == #[trigger] header_tail(more)[j] by {
            assert(header_tail(r)[j + 1] == header_tail(more)[j]);
            assert(data[i + (j + 1)] == header_tail(r)[j + 1]);
        }
        lemma_tail_decode(data, i + 1, more, next, (sh + 7) as u64);
    } else {
        assert(byte & 0x80 == 0 && (byte & 0x7f) as u64 == r) by (bit_vector)
            requires
                byte == (r & 0x7f) as u8,
                r >> 7 == 0,
        ;
        assert(header_tail(more) =~= Seq::<u8>::empty());
    }
}

proof fn lemma_tail_shape(r: u64, k: nat)
    requires
        k <= 9,
        r <= (0xffff_ffff_ffff_ffffu64 >> (64 - 7 * k) as u64) || k == 9 && r <= 0x0fff_ffff_ffff_ffffu64,
    ensures
        header_tail(r).len() <= k,
        r > 0 ==> header_tail(r)[header_tail(r).len() - 1] & 0x80 == 0,
    decreases k,
{
    if r > 0 {
        lemma_shr7_decreases(r);
        let b = (r & 0x7f) as u8;
        let more = r >> 7;
        let byte = if more > 0 { b | 0x80 } else { b };
        assert(header_tail(r) == seq![byte] + header_tail(more));
        if k == 0 {
            assert(r == 0) by (bit_vector)
                requires
                    r <= (0xffff_ffff_ffff_ffffu64 >> 64u64),
            ;
        } else {
            let k1 = (k - 1) as nat;
            assert(more <= (0xffff_ffff_ffff_ffffu64 >> (64 - 7 * k1) as u64) || k1 == 9
                && more <= 0x0fff_ffff_ffff_ffffu64) by {
                if k == 9 && r <= 0x0fff_ffff_ffff_ffffu64 {
                    assert(r <= 0x0fff_ffff_ffff_ffffu64 ==> (r >> 7) <= (0xffff_ffff_ffff_ffffu64 >> 8u64)) by (bit_vector);
                } else {
                    let s = (64 - 7 * k) as u64;
                    let s1 = (64 - 7 * k1) as u64;
                    assert(s1 == s + 7);
                    assert(r <= (0xffff_ffff_ffff_ffffu64 >> s) && s + 7 <= 64 ==> (r >> 7) <= (0xffff_ffff_ffff_ffffu64 >> ((s + 7) as u64))) by (bit_vector);
                }
            }
            lemma_tail_shape(more, k1);
            if more == 0 {
                assert(byte & 0x80 == 0) by (bit_vector)
                    requires
                        byte == (r & 0x7f) as u8,
                ;
                assert(header_tail(more) =~= Seq::<u8>::empty());
            } else {
                assert(header_tail(r)[header_tail(r).len() - 1] == header_tail(more)[header_tail(more).len() - 1]);
            }
        }
    }
}

/// A header written by `write_object_header` reads back as the same type and
/// size, whatever bytes follow it, for every type below 8.
pub proof fn law_object_header_roundtrip(obj_type: u8, size: u64, rest: Seq<u8>)
    requires
        obj_type < 8,
    ensures
        ({
            let data = spec_encode_object_header(obj_type, size) + rest;
            &&& !header_overlong(data, 0)
            &&& spec_object_header(data, 0) == Some(
                (obj_type, size, spec_encode_object_header(obj_type, size).len() as int),
            )
        }),
{
    let enc = spec_encode_object_header(obj_type, size);
    let data = enc + rest;
    let b = ((obj_type << 4u8) | ((size & 0x0f) as u8)) as u8;
    let r = size >> 4;
    let first = if r > 0 { b | 0x80 } else { b };
    assert(data[0] == first);
    assert((first >> 4) & 7 == obj_type && (first & 15) as u64 == size & 15 && (b & 0x80) == 0)
        by (bit_vector)
        requires
            obj_type < 8,
            b == ((obj_type << 4u8) | ((size & 0x0f) as u8)),
            first == b || first == (b | 0x80),
    ;
    assert(r <= 0x0fff_ffff_ffff_ffffu64 && r <= (0xffff_ffff_ffff_ffffu64 >> 4u64)) by (bit_vector)
        requires
            r == size >> 4,
    ;
    lemma_tail_shape(r, 9);
    if r > 0 {
        assert(first & 0x80 != 0) by (bit_vector)
            requires
                first == (b | 0x80),
        ;
        assert forall|j: int| 0 <= j < header_tail(r).len() implies data[1 + j]
            == #[trigger] header_tail(r)[j] by {
            assert(data[1 + j] == enc[1 + j]);
        }
        lemma_tail_decode(data, 1, r, (first & 15) as u64, 4);
        assert(((size & 15) | (r << 4u64)) == size) by (bit_vector)
            requires
                r == size >> 4,
        ;
        let last = enc.len() - 1;
        assert(data[last] == header_tail(r)[header_tail(r).len() - 1]);
        assert(!header_overlong(data, 0)) by {
            if header_overlong(data, 0) {
                assert(data[0 + last] & 0x80 != 0);
            }
        }
    } else {
        assert(first & 0x80 == 0);
        assert(!header_overlong(data, 0)) by {
            if header_overlong(data, 0) {
                assert(data[0int + 0int] & 0x80 != 0);
            }
        }
        assert((size & 15) as u64 == size) by (bit_vector)
            requires
                size >> 4 == 0,
        ;
    }
}

} // verus!

verus! {

/// How reading a delta's size prefix ends.
pub enum VarintRead {
    /// The value and the position after it.
    Value(usize, int),
    /// The delta ends inside the number.
    Truncated,
    /// A byte would be shifted by the full width of `usize`, which the
    /// arithmetic does not allow.
    Overshift,
}

/// Reads the rest of a little-endian base-128 number from `d[i..]`, seven
/// bits per byte at `shift`, the high bit marking that more bytes follow.
pub open spec fn delta_varint(d: Seq<u8>, i: int, acc: usize, shift: nat) -> VarintRead
    decreases d.len() - i,
{
    if i < 0 || i >= d.len() {
        VarintRead::Truncated
    } else if shift >= usize::BITS {
        VarintRead::Overshift
    } else {
        let b = d[i];
        let next = acc | (((b & 0x7f) as usize) << (shift as usize));
        if b & 0x80 == 0 {
            VarintRead::Value(next, i + 1)
        } else {
            delta_varint(d, i + 1, next, shift + 7)
        }
    }
}

/// How applying a delta ends.
pub enum DeltaOutcome {
    /// The rebuilt object.
    Done(Seq<u8>),
    /// The delta is malformed or does not fit the base.
    Failed,
    /// The delta asks for a read past its end inside a copy instruction, or
    /// for a shift by the full width of `usize`.
    Overrun,
}

/// One optional argument byte of a copy instruction: present when `flag`,
/// placed at `shift`.
pub open spec fn copy_arg(d: Seq<u8>, i: int, flag: bool, acc: usize, shift: usize) -> Option<(usize, int)> {
    if !flag {
        Some((acc, i))
    } else if i < 0 || i >= d.len() {
        None
    } else {
        Some((acc | ((d[i] as usize) << shift), i + 1))
    }
}

/// The offset and size of a copy instruction whose opcode is `cmd` and whose
/// argument bytes start at `i`, and the position after them. The size is
/// still the raw one: zero means 0x10000.
pub open spec fn copy_params(d: Seq<u8>, i: int, cmd: u8) -> Option<(usize, usize, int)> {
    match copy_arg(d, i, cmd & 0x01 != 0, 0, 0) {
        None => None,
        Some((o0, i0)) => match copy_arg(d, i0, cmd & 0x02 != 0, o0, 8) {
            None => None,
            Some((o1, i1)) => match copy_arg(d, i1, cmd & 0x04 != 0, o1, 16) {
                None => None,
                Some((o2, i2)) => match copy_arg(d, i2, cmd & 0x08 != 0, o2, 24) {
                    None => None,
                    Some((off, i3)) => match copy_arg(d, i3, cmd & 0x10 != 0, 0, 0) {
                        None => None,
                        Some((s0, i4)) => match copy_arg(d, i4, cmd & 0x20 != 0, s0, 8) {
                            None => None,
                            Some((s1, i5)) => match copy_arg(d, i5, cmd & 0x40 != 0, s1, 16) {
                                None => None,
                                Some((size, i6)) => Some((off, size, i6)),
                            },
                        },
                    },
                },
            },
        },
    }
}

/// The arguments of a copy instruction never end before they start.
pub proof fn lemma_copy_params_advance(d: Seq<u8>, i: int, cmd: u8)
    ensures
        copy_params(d, i, cmd) matches Some((_, _, j)) ==> j >= i,
{
}

/// Runs the delta instructions from `d[i..]`, having rebuilt `acc` so far. A
/// copy instruction (high bit set) appends a range of the base; an insert
/// instruction (1 to 127) appends that many literal bytes of the delta;
/// opcode 0 is invalid.
pub open spec fn delta_run(base: Seq<u8>, d: Seq<u8>, i: int, acc: Seq<u8>) -> DeltaOutcome
    decreases d.len() - i,
{
    if i < 0 || i >= d.len() {
        DeltaOutcome::Done(acc)
    } else {
        let cmd = d[i];
        if cmd & 0x80 != 0 {
            match copy_params(d, i + 1, cmd) {
                None => DeltaOutcome::Overrun,
                Some((off, raw, j)) => {
                    let size: int = if raw == 0 { 0x10000 } else { raw as int };
                    if off + size > base.len() {
                        DeltaOutcome::Failed
                    } else {
                        proof {
                            lemma_copy_params_advance(d, i + 1, cmd);
                        }
                        delta_run(base, d, j, acc + base.subrange(off as int, off + size))
                    }
                },
            }
        } else if cmd != 0 {
            let size = cmd as int;
            if i + 1 + size > d.len() {
                DeltaOutcome::Failed
            } else {
                delta_run(base, d, i + 1 + size, acc + d.subrange(i + 1, i + 1 + size))
            }
        } else {
            DeltaOutcome::Failed
        }
    }
}

/// Applying the delta `d` to `base`: two size prefixes (of the base, which
/// is not checked, and of the result), then the instructions; the result
/// must have the announced size.
pub open spec fn spec_apply_delta(base: Seq<u8>, d: Seq<u8>) -> DeltaOutcome {
    match delta_varint(d, 0, 0, 0) {
        VarintRead::Truncated => DeltaOutcome::Failed,
        VarintRead::Overshift => DeltaOutcome::Overrun,
        VarintRead::Value(_, i1) => match delta_varint(d, i1, 0, 0) {
            VarintRead::Truncated => DeltaOutcome::Failed,
            VarintRead::Overshift => DeltaOutcome::Overrun,
            VarintRead::Value(result_size, i2) => match delta_run(base, d, i2, Seq::empty()) {
                DeltaOutcome::Done(r) => if r.len() == result_size {
                    DeltaOutcome::Done(r)
                } else {
                    DeltaOutcome::Failed
                },
                other => other,
            },
        },
    }
}

/// Appends `src[from..to]` to `out`.
fn push_range(out: &mut Vec<u8>, src: &[u8], from: usize, to: usize)
    requires
        from <= to <= src@.len(),
    ensures
        final(out)@ == old(out)@ + src@.subrange(from as int, to as int),
{
    let ghost before = out@;
    let mut k = from;
    while k < to
        invariant
            from <= k <= to <= src@.len(),
            out@ == before + src@.subrange(from as int, k as int),
        decreases to - k,
    {
        out.push(src[k]);
        k += 1;
        assert(out@ =~= before + src@.subrange(from as int, k as int));
    }
}

/// Applies a Git copy/insert delta to `base` and returns the rebuilt object.
/// Fails, as the pack reader does, on a truncated size prefix, an invalid
/// opcode, a copy outside the base, an insert past the end of the delta, or
/// a result of another size than announced.
pub fn apply_delta(base: &[u8], delta: &[u8]) -> (r: Result<Vec<u8>, GikError>)
    requires
        !(spec_apply_delta(base@, delta@) is Overrun),
    ensures
        match spec_apply_delta(base@, delta@) {
            DeltaOutcome::Done(v) => r matches Ok(out) && out@ == v,
            _ => r is Err,
        },
{
    match try_apply_delta(base, delta) {
        Some(r) => r,
        None => {
            assert(false);
            Err(GikError::Io("Delta truncated".to_string()))
        },
    }
}

/// Reads a delta's size prefix, or `None` where the arithmetic would shift
/// by the full width of `usize`.
fn try_read_delta_varint(delta: &[u8], start: usize) -> (r: Option<Result<(usize, usize), GikError>>)
    ensures
        match delta_varint(delta@, start as int, 0, 0) {
            VarintRead::Value(v, end) => r matches Some(Ok((rv, re))) && rv == v && re as int == end && re <= delta@.len(),
            VarintRead::Truncated => r matches Some(Err(_)),
            VarintRead::Overshift => r is None,
        },
{
    let mut d_idx = start;
    let mut value: usize = 0;
    let mut shift: u32 = 0;
    loop
        invariant
            start <= d_idx,
            d_idx <= delta@.len() || d_idx == start,
            shift as nat <= usize::BITS + 7,
            delta_varint(delta@, start as int, 0, 0) == delta_varint(delta@, d_idx as int, value, shift as nat),
        decreases delta@.len() - d_idx,
    {
        if d_idx >= delta.len() {
            return Some(Err(GikError::Io("Delta truncated".to_string())));
        }
        if shift >= usize::BITS {
            return None;
        }
        let b = delta[d_idx];
        d_idx += 1;
        value = value | (((b & 0x7f) as usize) << shift);
        shift = shift + 7;
        if b & 0x80 == 0 {
            return Some(Ok((value, d_idx)));
        }
    }
}

/// Reads one optional argument byte of a copy instruction, or `None` when
/// the delta ends first.
fn try_read_copy_arg(delta: &[u8], i: usize, flag: bool, acc: usize, shift: usize) -> (r: Option<(usize, usize)>)
    requires
        shift < usize::BITS,
    ensures
        match copy_arg(delta@, i as int, flag, acc, shift) {
            Some((v, j)) => r matches Some((rv, rj)) && rv == v && rj as int == j,
            None => r is None,
        },
{
    if flag {
        if i >= delta.len() {
            return None;
        }
        Some((acc | ((delta[i] as usize) << shift), i + 1))
    } else {
        Some((acc, i))
    }
}

/// Reads the arguments of a copy instruction, or `None` when the delta ends
/// inside them.
#[verifier::rlimit(50)]
fn try_read_copy_params(delta: &[u8], i: usize, cmd: u8) -> (r: Option<(usize, usize, usize)>)
    ensures
        match copy_params(delta@, i as int, cmd) {
            Some((o, sz, j)) => r matches Some((ro, rs, rj)) && ro == o && rs == sz && rj as int == j,
            None => r is None,
        },
{
    let (offset, i0) = match try_read_copy_arg(delta, i, cmd & 0x01 != 0, 0, 0) {
        Some(x) => x,
        None => return None,
    };
    let (offset, i1) = match try_read_copy_arg(delta, i0, cmd & 0x02 != 0, offset, 8) {
        Some(x) => x,
        None => return None,
    };
    let (offset, i2) = match try_read_copy_arg(delta, i1, cmd & 0x04 != 0, offset, 16) {
        Some(x) => x,
        None => return None,
    };
    let (offset, i3) = match try_read_copy_arg(delta, i2, cmd & 0x08 != 0, offset, 24) {
        Some(x) => x,
        None => return None,
    };
    let (size, i4) = match try_read_copy_arg(delta, i3, cmd & 0x10 != 0, 0, 0) {
        Some(x) => x,
        None => return None,
    };
    let (size, i5) = match try_read_copy_arg(delta, i4, cmd & 0x20 != 0, size, 8) {
        Some(x) => x,
        None => return None,
    };
    let (size, i6) = match try_read_copy_arg(delta, i5, cmd & 0x40 != 0, size, 16) {
        Some(x) => x,
        None => return None,
    };
    Some((offset, size, i6))
}

/// Applies a delta as `apply_delta` does, giving `None` for the deltas on
/// which the pack reader's arithmetic or indexing would fail (a read past
/// the delta's end inside a copy instruction, or a size prefix shifted by
/// the full width of `usize`).
pub fn try_apply_delta(base: &[u8], delta: &[u8]) -> (r: Option<Result<Vec<u8>, GikError>>)
    ensures
        match spec_apply_delta(base@, delta@) {
            DeltaOutcome::Done(v) => r matches Some(Ok(out)) && out@ == v,
            DeltaOutcome::Failed => r matches Some(Err(_)),
            DeltaOutcome::Overrun => r is None,
        },
{
    let (_base_size, d_idx) = match try_read_delta_varint(delta, 0) {
        Some(Ok(v)) => v,
        Some(Err(e)) => return Some(Err(e)),
        None => return None,
    };
    let (result_size, start) = match try_read_delta_varint(delta, d_idx) {
        Some(Ok(v)) => v,
        Some(Err(e)) => return Some(Err(e)),
        None => return None,
    };
    let mut d_idx = start;
    let mut result: Vec<u8> = Vec::new();
    while d_idx < delta.len()
        invariant
            start <= d_idx <= delta@.len(),
            delta_run(base@, delta@, start as int, Seq::empty()) == delta_run(base@, delta@, d_idx as int, result@),
            spec_apply_delta(base@, delta@) == (match delta_run(base@, delta@, start as int, Seq::empty()) {
                DeltaOutcome::Done(r) => if r.len() == result_size {
                    DeltaOutcome::Done(r)
                } else {
                    DeltaOutcome::Failed
                },
                other => other,
            }),
        decreases delta@.len() - d_idx,
    {
        let cmd = delta[d_idx];
        let ghost at = d_idx;
        d_idx += 1;
        if cmd & 0x80 != 0 {
            let (offset, size, next) = match try_read_copy_params(delta, d_idx, cmd) {
                Some(x) => x,
                None => return None,
            };
            proof {
                lemma_copy_params_advance(delta@, d_idx as int, cmd);
            }
            let size = if size == 0 { 0x10000 } else { size };
            if size > base.len() || offset > base.len() - size {
                return Some(Err(GikError::Io("Delta copy out of bounds".to_string())));
            }
            push_range(&mut result, base, offset, offset + size);
            d_idx = next;
        } else if cmd != 0 {
            let size = cmd as usize;
            if size > delta.len() - d_idx {
                return Some(Err(GikError::Io("Delta insert out of bounds".to_string())));
            }
            push_range(&mut result, delta, d_idx, d_idx + size);
            d_idx += size;
        } else {
            return Some(Err(GikError::Io("Invalid delta opcode 0".to_string())));
        }
    }
    if result.len() != result_size {
        return Some(Err(GikError::Io("Delta result size mismatch".to_string())));
    }
    Some(Ok(result))
}

/// A copy instruction with one offset byte and one size byte copies the
/// base from that offset: for a base of fewer than 128 bytes, the delta
/// [base size, n, 0x91, b, n] rebuilds `base[b..b + n]`. The first offset
/// byte is the offset's low byte, taken as it is.
pub proof fn law_delta_copy_from_offset(base: Seq<u8>, b: u8, n: u8)
    requires
        base.len() < 128,
        0 < n < 128,
        b + n <= base.len(),
    ensures
        spec_apply_delta(base, seq![base.len() as u8, n, 0x91u8, b, n]) == DeltaOutcome::Done(base.subrange(b as int, b + n)),
{
    let d = seq![base.len() as u8, n, 0x91u8, b, n];
    let l = base.len() as u8;
    assert(l & 0x80 == 0 && ((0usize | (((l & 0x7f) as usize) << 0usize)) == l as usize)) by (bit_vector)
        requires
            l < 128,
    ;
    assert(n & 0x80 == 0 && ((0usize | (((n & 0x7f) as usize) << 0usize)) == n as usize)) by (bit_vector)
        requires
            n < 128,
    ;
    assert(((0usize | ((b as usize) << 0usize)) == b as usize) && ((0usize | ((n as usize) << 0usize)) == n as usize)) by (bit_vector);
    assert((0x91u8 & 0x80 != 0) && (0x91u8 & 0x01 != 0) && (0x91u8 & 0x02 == 0) && (0x91u8 & 0x04 == 0)
        && (0x91u8 & 0x08 == 0) && (0x91u8 & 0x10 != 0) && (0x91u8 & 0x20 == 0) && (0x91u8 & 0x40 == 0)) by (bit_vector);
    assert(delta_varint(d, 0, 0, 0) == VarintRead::Value(l as usize, 1));
    assert(delta_varint(d, 1, 0, 0) == VarintRead::Value(n as usize, 2));
    assert(copy_params(d, 3, 0x91u8) == Some((b as usize, n as usize, 5int)));
    assert(delta_run(base, d, 5, base.subrange(b as int, b + n)) == DeltaOutcome::Done(base.subrange(b as int, b + n)));
    assert(Seq::<u8>::empty() + base.subrange(b as int, b + n) =~= base.subrange(b as int, b + n));
    assert(delta_run(base, d, 2, Seq::empty()) == DeltaOutcome::Done(base.subrange(b as int, b + n)));
}

/// Offset bytes are little-endian: a copy instruction with the first two
/// offset flags (0x01, 0x02) and a size byte copies from offset
/// `b0 + 256 * b1`. The base's size prefix is not checked, so it is 0 here.
pub proof fn law_delta_copy_two_offset_bytes(base: Seq<u8>, b0: u8, b1: u8, n: u8)
    requires
        0 < n < 128,
        b0 + 256 * b1 + n <= base.len(),
    ensures
        spec_apply_delta(base, seq![0u8, n, 0x93u8, b0, b1, n])
            == DeltaOutcome::Done(base.subrange(b0 + 256 * b1, b0 + 256 * b1 + n)),
{
    let d = seq![0u8, n, 0x93u8, b0, b1, n];
    let off: int = b0 + 256 * b1;
    assert(0u8 & 0x80 == 0 && ((0usize | (((0u8 & 0x7f) as usize) << 0usize)) == 0usize)) by (bit_vector);
    assert(n & 0x80 == 0 && ((0usize | (((n & 0x7f) as usize) << 0usize)) == n as usize)) by (bit_vector)
        requires
            n < 128,
    ;
    assert(((0usize | ((b0 as usize) << 0usize)) | ((b1 as usize) << 8usize)) == b0 as usize + 256 * (b1 as usize))
        by (bit_vector);
    assert((0usize | ((n as usize) << 0usize)) == n as usize) by (bit_vector);
    assert((0x93u8 & 0x80 != 0) && (0x93u8 & 0x01 != 0) && (0x93u8 & 0x02 != 0) && (0x93u8 & 0x04 == 0)
        && (0x93u8 & 0x08 == 0) && (0x93u8 & 0x10 != 0) && (0x93u8 & 0x20 == 0) && (0x93u8 & 0x40 == 0)) by (bit_vector);
    assert(delta_varint(d, 0, 0, 0) == VarintRead::Value(0usize, 1));
    assert(delta_varint(d, 1, 0, 0) == VarintRead::Value(n as usize, 2));
    assert(copy_params(d, 3, 0x93u8) == Some(((b0 as usize + 256 * (b1 as usize)) as usize, n as usize, 6int)));
    assert(delta_run(base, d, 6, base.subrange(off, off + n)) == DeltaOutcome::Done(base.subrange(off, off + n)));
    assert(Seq::<u8>::empty() + base.subrange(off, off + n) =~= base.subrange(off, off + n));
    assert(delta_run(base, d, 2, Seq::empty()) == DeltaOutcome::Done(base.subrange(off, off + n)));
}

/// An insert instruction copies its literal bytes: the delta
/// [0, n, n, bytes...] rebuilds exactly those `n` bytes, whatever the base.
pub proof fn law_delta_insert(base: Seq<u8>, bytes: Seq<u8>)
    requires
        0 < bytes.len() < 128,
    ensures
        spec_apply_delta(base, seq![0u8, bytes.len() as u8, bytes.len() as u8] + bytes) == DeltaOutcome::Done(bytes),
{
    let n = bytes.len() as u8;
    let d = seq![0u8, n, n] + bytes;
    assert(0u8 & 0x80 == 0 && ((0usize | (((0u8 & 0x7f) as usize) << 0usize)) == 0usize)) by (bit_vector);
    assert(n & 0x80 == 0 && ((0usize | (((n & 0x7f) as usize) << 0usize)) == n as usize) && n != 0) by (bit_vector)
        requires
            0 < n < 128,
    ;
    assert(d[0] == 0u8 && d[1] == n && d[2] == n);
    assert(delta_varint(d, 0, 0, 0) == VarintRead::Value(0usize, 1));
    assert(delta_varint(d, 1, 0, 0) == VarintRead::Value(n as usize, 2));
    assert(d.subrange(3, 3 + n) =~= bytes);
    assert(Seq::<u8>::empty() + bytes =~= bytes);
    assert(delta_run(base, d, 3 + n, bytes) == DeltaOutcome::Done(bytes));
    assert(delta_run(base, d, 2, Seq::empty()) == DeltaOutcome::Done(bytes));
}

} // verus!
