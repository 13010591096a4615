//! Aligned big-endian reads with bounds checks. The readers are strict:
//! decoders surface malformed headers through the errors raised here.

use crate::Crunch64Error;
use vstd::prelude::*;

verus! {

/// The 16-bit big-endian integer stored at byte offset `i` of `b`.
pub open spec fn be16_at(b: Seq<u8>, i: int) -> int {
    b[i] * 0x100 + b[i + 1]
}

/// The 32-bit big-endian integer stored at byte offset `i` of `b`.
pub open spec fn be32_at(b: Seq<u8>, i: int) -> int {
    b[i] * 0x1000000 + b[i + 1] * 0x10000 + b[i + 2] * 0x100 + b[i + 3]
}

/// The four big-endian bytes of the 32-bit value `v`.
pub open spec fn be32_bytes(v: int) -> Seq<u8> {
    seq![
        (v / 0x1000000 % 0x100) as u8,
        (v / 0x10000 % 0x100) as u8,
        (v / 0x100 % 0x100) as u8,
        (v % 0x100) as u8,
    ]
}

/// Reading back the four bytes of `be32_bytes` yields the value again.
pub proof fn lemma_be32_bytes_at(b: Seq<u8>, i: int, v: int)
    requires
        0 <= v < 0x1_0000_0000,
        0 <= i,
        i + 4 <= b.len(),
        b.subrange(i, i + 4) == be32_bytes(v),
    ensures
        be32_at(b, i) == v,
{
    assert(b[i] == be32_bytes(v)[0]);
    assert(b[i + 1] == be32_bytes(v)[1]);
    assert(b[i + 2] == be32_bytes(v)[2]);
    assert(b[i + 3] == be32_bytes(v)[3]);
    assert(v / 0x1000000 % 0x100 == v / 0x1000000) by (nonlinear_arith)
        requires 0 <= v < 0x1_0000_0000,
    ;
    assert(v == (v / 0x1000000) * 0x1000000 + (v / 0x10000 % 0x100) * 0x10000 + (v / 0x100 % 0x100)
        * 0x100 + v % 0x100) by (nonlinear_arith)
        requires 0 <= v < 0x1_0000_0000,
    ;
}

/// The big-endian bytes of a sequence of 32-bit words, in order.
pub open spec fn be32_flat(ws: Seq<u32>) -> Seq<u8>
    decreases ws.len(),
{
    if ws.len() == 0 {
        Seq::empty()
    } else {
        be32_bytes(ws[0] as int) + be32_flat(ws.drop_first())
    }
}

pub proof fn lemma_be32_flat_snoc(ws: Seq<u32>, w: u32)
    ensures
        be32_flat(ws.push(w)) == be32_flat(ws) + be32_bytes(w as int),
    decreases ws.len(),
{
    if ws.len() == 0 {
        assert(ws.push(w).drop_first() =~= Seq::<u32>::empty());
        assert(be32_flat(Seq::<u32>::empty()) =~= Seq::<u8>::empty());
        assert(be32_flat(ws) + be32_bytes(w as int) =~= be32_bytes(w as int));
        assert(be32_flat(ws.push(w)) =~= be32_bytes(w as int) + be32_flat(Seq::<u32>::empty()));
        assert(be32_bytes(w as int) + Seq::<u8>::empty() =~= be32_bytes(w as int));
    } else {
        assert(ws.push(w).drop_first() =~= ws.drop_first().push(w));
        lemma_be32_flat_snoc(ws.drop_first(), w);
        assert(be32_flat(ws.push(w)) =~= be32_flat(ws) + be32_bytes(w as int));
    }
}

/// Appends the big-endian encoding of `v` to `out`.
pub(crate) fn push_be32(out: &mut Vec<u8>, v: u32)
    ensures
        final(out)@ == old(out)@ + be32_bytes(v as int),
{
    out.push((v / 0x1000000) as u8);
    out.push((v / 0x10000 % 0x100) as u8);
    out.push((v / 0x100 % 0x100) as u8);
    out.push((v % 0x100) as u8);
    assert(out@ =~= old(out)@ + be32_bytes(v as int));
}

/// What `read_u16` returns: an error for an odd offset or a read extending
/// past the end, the stored big-endian value otherwise.
pub open spec fn read_u16_spec(b: Seq<u8>, offset: int) -> Result<u16, Crunch64Error> {
    if offset % 2 != 0 {
        Err(Crunch64Error::UnalignedRead)
    } else if offset + 2 > b.len() {
        Err(Crunch64Error::OutOfBounds)
    } else {
        Ok(be16_at(b, offset) as u16)
    }
}

/// What `read_u32` returns: an error for an unaligned offset or a read past
/// the end, the stored big-endian value otherwise.
pub open spec fn read_u32_spec(b: Seq<u8>, offset: int) -> Result<u32, Crunch64Error> {
    if offset % 4 != 0 {
        Err(Crunch64Error::UnalignedRead)
    } else if offset + 4 > b.len() {
        Err(Crunch64Error::OutOfBounds)
    } else {
        Ok(be32_at(b, offset) as u32)
    }
}

/// Reads a big-endian `u16` at `offset`. The offset must be 2-aligned and the
/// two bytes must lie inside the buffer.
pub fn read_u16(bytes: &[u8], offset: usize) -> (r: Result<u16, Crunch64Error>)
    ensures
        r == read_u16_spec(bytes@, offset as int),
{
    if offset % 2 != 0 {
        return Err(Crunch64Error::UnalignedRead);
    }

    if bytes.len() < 2 || offset > bytes.len() - 2 {
        return Err(Crunch64Error::OutOfBounds);
    }

    let hi = bytes[offset] as u16;
    let lo = bytes[offset + 1] as u16;
    Ok(hi * 0x100 + lo)
}

/// Reads a big-endian `u32` at `offset`. The offset must be 4-aligned and the
/// four bytes must lie inside the buffer.
pub fn read_u32(bytes: &[u8], offset: usize) -> (r: Result<u32, Crunch64Error>)
    ensures
        r == read_u32_spec(bytes@, offset as int),
{
    if offset % 4 != 0 {
        return Err(Crunch64Error::UnalignedRead);
    }

    if bytes.len() < 4 || offset > bytes.len() - 4 {
        return Err(Crunch64Error::OutOfBounds);
    }

    let b0 = bytes[offset] as u32;
    let b1 = bytes[offset + 1] as u32;
    let b2 = bytes[offset + 2] as u32;
    let b3 = bytes[offset + 3] as u32;
    Ok(b0 * 0x1000000 + b1 * 0x10000 + b2 * 0x100 + b3)
}

} // verus!
