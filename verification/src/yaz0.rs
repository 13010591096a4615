//! The Yaz0 container: a 0x10-byte header followed by interleaved control
//! bytes and tokens. Each control byte covers up to eight tokens, one bit per
//! token, the highest bit first; a set bit marks a literal byte and a clear
//! bit a back-reference of 2 or 3 bytes.

use crate::lz;
use crate::lz::{lemma_lz_extend_len, lemma_lz_extend_snoc, lz_extend, zero_seq, LzTok};
use crate::utils;
use crate::Crunch64Error;
use vstd::prelude::*;

verus! {

/// The ASCII magic "Yaz0".
pub open spec fn yaz0_magic() -> Seq<u8> {
    seq![0x59u8, 0x61u8, 0x7Au8, 0x30u8]
}

/// The 0x10-byte header: magic, big-endian uncompressed size, 8 zero bytes.
pub open spec fn yaz0_header(n: int) -> Seq<u8> {
    yaz0_magic() + utils::be32_bytes(n) + seq![0u8, 0u8, 0u8, 0u8, 0u8, 0u8, 0u8, 0u8]
}

/// What parsing a Yaz0 header yields: the declared uncompressed size, or
/// `InvalidYaz0Header` when the buffer is shorter than 0x10 bytes, the magic
/// differs, or the padding is not all zero.
pub open spec fn parse_header_spec(b: Seq<u8>) -> Result<int, Crunch64Error> {
    if b.len() < 0x10 {
        Err(Crunch64Error::InvalidYaz0Header)
    } else if b.subrange(0, 4) != yaz0_magic() {
        Err(Crunch64Error::InvalidYaz0Header)
    } else if exists|i: int| 8 <= i < 0x10 && b[i] != 0 {
        Err(Crunch64Error::InvalidYaz0Header)
    } else {
        Ok(utils::be32_at(b, 4))
    }
}

/// Parses and validates the header, returning the declared uncompressed size.
pub fn parse_header(bytes: &[u8]) -> (r: Result<usize, Crunch64Error>)
    ensures
        r matches Ok(v) ==> parse_header_spec(bytes@) == Ok::<int, Crunch64Error>(v as int),
        r matches Err(e) ==> parse_header_spec(bytes@) == Err::<int, Crunch64Error>(e),
{
    if bytes.len() < 0x10 {
        return Err(Crunch64Error::InvalidYaz0Header);
    }

    if bytes[0] != 0x59 || bytes[1] != 0x61 || bytes[2] != 0x7A || bytes[3] != 0x30 {
        assert(bytes@.subrange(0, 4) != yaz0_magic()) by {
            assert(bytes@.subrange(0, 4)[0] == bytes@[0]);
            assert(bytes@.subrange(0, 4)[1] == bytes@[1]);
            assert(bytes@.subrange(0, 4)[2] == bytes@[2]);
            assert(bytes@.subrange(0, 4)[3] == bytes@[3]);
        }
        return Err(Crunch64Error::InvalidYaz0Header);
    }
    assert(bytes@.subrange(0, 4) =~= yaz0_magic());

    let mut i: usize = 8;
    while i < 0x10
        invariant
            8 <= i <= 0x10,
            bytes@.len() >= 0x10,
            forall|j: int| 8 <= j < i ==> bytes@[j] == 0,
        decreases 0x10 - i,
    {
        if bytes[i] != 0 {
            return Err(Crunch64Error::InvalidYaz0Header);
        }
        i = i + 1;
    }

    match utils::read_u32(bytes, 4) {
        Ok(v) => Ok(v as usize),
        Err(e) => Err(e),
    }
}

/// Reports the uncompressed size a Yaz0 file declares, reading only its
/// header.
pub fn decompress_bound(bytes: &[u8]) -> (r: Result<usize, Crunch64Error>)
    ensures
        r matches Ok(v) ==> parse_header_spec(bytes@) == Ok::<int, Crunch64Error>(v as int),
        r matches Err(e) ==> parse_header_spec(bytes@) == Err::<int, Crunch64Error>(e),
{
    parse_header(bytes)
}

/// One state of the Yaz0 decoder, as a function of the remaining input: `src`
/// is the read cursor, `out` what has been produced, `size` the declared
/// output size, `bits` the current control byte with `nbit` of its bits
/// consumed. Each step consumes a token, or a fresh control byte once eight
/// bits are used, until the input ends; the output is zero-padded to `size`.
/// A read or copy that would leave the buffers is rejected with
/// `OutOfBounds`.
pub open spec fn yaz0_dec(b: Seq<u8>, src: int, out: Seq<u8>, size: int, bits: u8, nbit: int)
    -> Result<Seq<u8>, Crunch64Error>
    decreases b.len() - src,
{
    if nbit < 8 && 0 <= src < b.len() && out.len() < size {
        if bits & 0x80 != 0 {
            yaz0_dec(b, src + 1, out.push(b[src]), size, bits << 1, nbit + 1)
        } else if src + 1 >= b.len() {
            Err(Crunch64Error::OutOfBounds)
        } else {
            let pair = b[src] * 0x100 + b[src + 1];
            let dist = pair % 0x1000 + 1;
            if b[src] < 0x10 {
                if src + 2 >= b.len() {
                    Err(Crunch64Error::OutOfBounds)
                } else {
                    let n = b[src + 2] + 0x12;
                    if dist > out.len() || out.len() + n > size {
                        Err(Crunch64Error::OutOfBounds)
                    } else {
                        yaz0_dec(b, src + 3, lz_extend(out, dist, n), size, bits << 1, nbit + 1)
                    }
                }
            } else {
                let n = pair / 0x1000 + 2;
                if dist > out.len() || out.len() + n > size {
                    Err(Crunch64Error::OutOfBounds)
                } else {
                    yaz0_dec(b, src + 2, lz_extend(out, dist, n), size, bits << 1, nbit + 1)
                }
            }
        }
    } else if 0 <= src < b.len() {
        yaz0_dec(b, src + 1, out, size, b[src], 0)
    } else {
        Ok(out + zero_seq(size - out.len()))
    }
}

/// What decompression returns for any input.
pub open spec fn decompress_spec(b: Seq<u8>) -> Result<Seq<u8>, Crunch64Error> {
    match parse_header_spec(b) {
        Err(e) => Err(e),
        Ok(size) => yaz0_dec(b, 0x10, Seq::empty(), size, 0, 8),
    }
}

/// Decompresses a Yaz0 file: validates the header, then replays the control
/// bits over the token stream.
pub fn decompress(bytes: &[u8]) -> (r: Result<Vec<u8>, Crunch64Error>)
    ensures
        r matches Ok(v) ==> decompress_spec(bytes@) == Ok::<Seq<u8>, Crunch64Error>(v@),
        r matches Err(e) ==> decompress_spec(bytes@) == Err::<Seq<u8>, Crunch64Error>(e),
{
    let size = match parse_header(bytes) {
        Ok(v) => v,
        Err(e) => {
            return Err(e);
        },
    };

    let ghost full = yaz0_dec(bytes@, 0x10, Seq::empty(), size as int, 0, 8);
    let mut out: Vec<u8> = Vec::new();
    let mut src: usize = 0x10;

    while src < bytes.len()
        invariant
            0x10 <= src <= bytes@.len(),
            out@.len() <= size,
            size <= 0xFFFF_FFFF,
            yaz0_dec(bytes@, src as int, out@, size as int, 0, 8) == full,
            decompress_spec(bytes@) == full,
        decreases bytes@.len() - src,
    {
        let ghost src_o = src as int;
        let mut bits = bytes[src];
        src = src + 1;
        let mut nbit: usize = 0;

        while nbit < 8 && src < bytes.len() && out.len() < size
            invariant
                nbit <= 8,
                0x10 <= src <= bytes@.len(),
                src_o < src,
                out@.len() <= size,
                size <= 0xFFFF_FFFF,
                yaz0_dec(bytes@, src as int, out@, size as int, bits, nbit as int) == full,
                decompress_spec(bytes@) == full,
            decreases bytes@.len() - src,
        {
            if bits & 0x80 != 0 {
                let v = bytes[src];
                out.push(v);
                src = src + 1;
            } else {
                if src + 1 >= bytes.len() {
                    return Err(Crunch64Error::OutOfBounds);
                }
                let first = bytes[src];
                let second = bytes[src + 1];
                src = src + 2;
                let pair: u32 = first as u32 * 0x100 + second as u32;
                let dist: u32 = pair % 0x1000 + 1;
                let n: usize;
                if first < 0x10 {
                    if src >= bytes.len() {
                        return Err(Crunch64Error::OutOfBounds);
                    }
                    n = bytes[src] as usize + 0x12;
                    src = src + 1;
                } else {
                    n = (pair / 0x1000) as usize + 2;
                }
                if dist as usize > out.len() || n > size - out.len() {
                    return Err(Crunch64Error::OutOfBounds);
                }
                let ghost out0 = out@;
                let mut i: usize = 0;
                while i < n
                    invariant
                        i <= n,
                        0 < dist as int <= out0.len(),
                        out0.len() + n <= size <= 0xFFFF_FFFF,
                        out@ == lz_extend(out0, dist as int, i as int),
                        out@.len() == out0.len() + i,
                    decreases n - i,
                {
                    proof {
                        lemma_lz_extend_snoc(out0, dist as int, i as int);
                        lemma_lz_extend_len(out0, dist as int, i + 1);
                    }
                    let v = out[out.len() - dist as usize];
                    out.push(v);
                    i = i + 1;
                }
                assert(out@ == lz_extend(out0, dist as int, n as int));
            }
            bits = bits << 1;
            nbit = nbit + 1;
        }
    }

    while out.len() < size
        invariant
            out@.len() <= size,
            yaz0_dec(bytes@, src as int, out@, size as int, 0, 8) == full,
            src >= bytes@.len(),
        decreases size - out@.len(),
    {
        let ghost before = out@;
        out.push(0);
        assert(before + zero_seq(size - before.len()) =~= out@ + zero_seq(size - out@.len()));
    }
    assert(out@ + zero_seq(0) =~= out@);
    Ok(out)
}

/// The bytes a token occupies in the stream: a literal is its byte; a
/// back-reference of 0x12 bytes or more is `0RRR NN` (three bytes, length
/// stored minus 0x12), a shorter one `NRRR` (two bytes, length stored minus
/// 2); `R` is the distance minus one.
pub open spec fn tok_bytes(t: LzTok) -> Seq<u8> {
    match t {
        LzTok::Lit { val } => seq![val],
        LzTok::Ref { off, len } => {
            if len >= 0x12 {
                seq![(off / 0x100) as u8, (off % 0x100) as u8, ((len - 0x12) as u8)]
            } else {
                seq![((off / 0x100) + (len - 2) * 0x10) as u8, (off % 0x100) as u8]
            }
        },
    }
}

/// Advances the control-bit cursor by one token and appends the token's
/// bytes: when the cursor is exhausted a fresh zero control byte is appended
/// at `out.len()` first; a literal sets its bit in the current control byte.
pub open spec fn yaz0_step(out: Seq<u8>, icb: int, bit: u8, t: LzTok) -> (Seq<u8>, int, u8) {
    let bit1 = bit / 2;
    let (out1, icb1, bit2): (Seq<u8>, int, u8) = if bit1 == 0 {
        (out.push(0), out.len() as int, 0x80u8)
    } else {
        (out, icb, bit1)
    };
    match t {
        LzTok::Lit { .. } => ((out1.update(icb1, out1[icb1] | bit2) + tok_bytes(t)), icb1, bit2),
        LzTok::Ref { .. } => (out1 + tok_bytes(t), icb1, bit2),
    }
}

/// Frames a whole token stream, one `yaz0_step` per token.
pub open spec fn yaz0_frame(out: Seq<u8>, icb: int, bit: u8, ts: Seq<LzTok>) -> Seq<u8>
    decreases ts.len(),
{
    if ts.len() == 0 {
        out
    } else {
        let (o, i, b2) = yaz0_step(out, icb, bit, ts[0]);
        yaz0_frame(o, i, b2, ts.drop_first())
    }
}

/// What compression returns: the header followed by the framed greedy token
/// stream; inputs whose size cannot be stored in the 32-bit header field are
/// rejected.
pub open spec fn compress_spec(b: Seq<u8>) -> Result<Seq<u8>, Crunch64Error> {
    if b.len() > 0xFFFF_FFFF {
        Err(Crunch64Error::OutOfBounds)
    } else {
        Ok(yaz0_frame(yaz0_header(b.len() as int), 0x10, 1, lz::tokens_from(b, 0, 0x111)))
    }
}

/// Largest possible compressed size for an input of `n` bytes: the input, one
/// control byte for every 8 input bytes, and the header.
pub fn compress_bound(input_size: usize) -> (r: usize)
    requires
        input_size + input_size / 8 + 0x11 <= usize::MAX,
    ensures
        r == input_size + (input_size + 7) / 8 + 0x10,
{
    let ceil: usize = input_size / 8 + if input_size % 8 != 0 {
        1
    } else {
        0
    };
    assert(ceil == (input_size + 7) / 8);
    input_size + ceil + 0x10
}

/// Compresses `bytes` into the Yaz0 format, byte-exact with the historical
/// encoder: a greedy parse with single-position lookahead, matches of up to
/// 0x111 bytes found in the preceding 0x1000-byte window.
#[verifier::rlimit(100)]
pub fn compress(bytes: &[u8]) -> (r: Result<Vec<u8>, Crunch64Error>)
    ensures
        r matches Ok(v) ==> compress_spec(bytes@) == Ok::<Seq<u8>, Crunch64Error>(v@),
        r matches Err(e) ==> compress_spec(bytes@) == Err::<Seq<u8>, Crunch64Error>(e),
{
    if bytes.len() as u64 > 0xFFFF_FFFFu64 {
        return Err(Crunch64Error::OutOfBounds);
    }

    let ghost toks = lz::tokens_from(bytes@, 0, 0x111);
    let mut out: Vec<u8> = Vec::new();
    out.push(0x59);
    out.push(0x61);
    out.push(0x7A);
    out.push(0x30);
    utils::push_be32(&mut out, bytes.len() as u32);
    assert(out@ =~= yaz0_header(bytes@.len() as int).take(8));
    let mut i: usize = 0;
    while i < 8
        invariant
            i <= 8,
            out@ == yaz0_header(bytes@.len() as int).take(8 + i),
        decreases 8 - i,
    {
        out.push(0);
        assert(out@ =~= yaz0_header(bytes@.len() as int).take(8 + i + 1));
        i = i + 1;
    }
    assert(out@ =~= yaz0_header(bytes@.len() as int)) by {
        assert(out@.len() == 0x10);
    }

    let ghost full = yaz0_frame(yaz0_header(bytes@.len() as int), 0x10, 1, toks);
    let mut icb: usize = 0x10;
    let mut bit: u8 = 1;
    let mut p: usize = 0;

    while p < bytes.len()
        invariant
            p <= bytes@.len() <= 0xFFFF_FFFF,
            bit == 1 || icb < out@.len(),
            yaz0_frame(out@, icb as int, bit, lz::tokens_from(bytes@, p as int, 0x111)) == full,
        decreases bytes@.len() - p,
    {
        let ghost ts = lz::tokens_from(bytes@, p as int, 0x111);
        let ghost out_top = out@;
        let ghost icb_top = icb as int;
        let ghost bit_top = bit;
        proof {
            lz::lemma_search_spec_bounds(bytes@, p as int, 0x111);
            lz::lemma_search_spec_bounds(bytes@, p as int + 1, 0x111);
        }

        let (gp, gs) = lz::search(bytes, p, 0x111);

        // advance the control-bit cursor
        bit = bit / 2;
        if bit == 0 {
            bit = 0x80;
            icb = out.len();
            out.push(0);
        }

        if gs <= 2 {
            let cur = out[icb];
            out[icb] = cur | bit;
            out.push(bytes[p]);
            proof {
                let (o2, i2, b2) = yaz0_step(out_top, icb_top, bit_top, ts[0]);
                assert(out@ =~= o2);
                assert(ts.drop_first() =~= lz::tokens_from(bytes@, p + 1, 0x111));
            }
            p = p + 1;
        } else {
            let (np, ns) = lz::search(bytes, p + 1, 0x111);
            let mut fp = gp;
            let mut fs = gs;
            let deferred = ns >= gs + 2;
            if deferred {
                let cur = out[icb];
                out[icb] = cur | bit;
                out.push(bytes[p]);
                p = p + 1;
                proof {
                    let (o2, i2, b2) = yaz0_step(out_top, icb_top, bit_top, ts[0]);
                    assert(out@ =~= o2);
                    assert(icb as int == i2 && bit == b2);
                }
                fs = ns;
                fp = np;
            }
            // the match token's starting state: for a deferred match, the
            // state after the literal; otherwise the state at the loop top
            let ghost out_mid = if deferred { out@ } else { out_top };
            let ghost icb_mid = if deferred { icb as int } else { icb_top };
            let ghost bit_mid = if deferred { bit } else { bit_top };
            let ghost tref = if deferred { ts[1] } else { ts[0] };

            if deferred {
                bit = bit / 2;
                if bit == 0 {
                    bit = 0x80;
                    icb = out.len();
                    out.push(0);
                }
            }

            let go: u32 = p as u32 - fp - 1;
            if fs >= 0x12 {
                out.push((go / 0x100) as u8);
                out.push((go % 0x100) as u8);
                out.push((fs - 0x12) as u8);
            } else {
                out.push(((go / 0x100) + (fs - 2) * 0x10) as u8);
                out.push((go % 0x100) as u8);
            }
            proof {
                let (o3, i3, b3) = yaz0_step(out_mid, icb_mid, bit_mid, tref);
                assert(out@ =~= o3);
                assert(icb as int == i3 && bit == b3);
                if deferred {
                    let (o2, i2, b2) = yaz0_step(out_top, icb_top, bit_top, ts[0]);
                    assert(yaz0_frame(out_top, icb_top, bit_top, ts) == yaz0_frame(
                        o2,
                        i2,
                        b2,
                        ts.drop_first(),
                    ));
                    assert(ts.drop_first()[0] == ts[1]);
                    assert(ts.drop_first().drop_first() =~= lz::tokens_from(
                        bytes@,
                        p as int + fs as int,
                        0x111,
                    ));
                } else {
                    assert(ts.drop_first() =~= lz::tokens_from(
                        bytes@,
                        p as int + fs as int,
                        0x111,
                    ));
                }
            }
            p = p + fs as usize;
        }
    }

    assert(lz::tokens_from(bytes@, p as int, 0x111) =~= Seq::<LzTok>::empty());
    Ok(out)
}

/// The header of a compressed file declares exactly the input's length:
/// parsing the first 0x10 bytes of `compress`'s output yields `b.len()`.
pub proof fn lemma_yaz0_bound_of_compressed(b: Seq<u8>)
    requires
        b.len() <= 0xFFFF_FFFF,
    ensures
        compress_spec(b) matches Ok(c) && parse_header_spec(c.subrange(0, 0x10))
            == Ok::<int, Crunch64Error>(b.len() as int),
{
    let hdr = yaz0_header(b.len() as int);
    let c = compress_spec(b).unwrap();
    lemma_yaz0_frame_prefix(hdr, 0x10, 1, lz::tokens_from(b, 0, 0x111));
    assert(c.subrange(0, 0x10) =~= hdr);
    let h = c.subrange(0, 0x10);
    assert(h.subrange(0, 4) =~= yaz0_magic());
    assert(forall|i: int| 8 <= i < 0x10 ==> h[i] == 0);
    assert(h.subrange(4, 8) =~= utils::be32_bytes(b.len() as int));
    utils::lemma_be32_bytes_at(h, 4, b.len() as int);
}

/// Framing only appends bytes or patches control bytes at or past `icb`, so
/// the first 0x10 bytes (the header) never change.
proof fn lemma_yaz0_frame_prefix(out: Seq<u8>, icb: int, bit: u8, ts: Seq<LzTok>)
    requires
        out.len() >= 0x10,
        icb >= 0x10,
        bit == 1 || icb < out.len(),
    ensures
        yaz0_frame(out, icb, bit, ts).len() >= 0x10,
        yaz0_frame(out, icb, bit, ts).subrange(0, 0x10) == out.subrange(0, 0x10),
    decreases ts.len(),
{
    if ts.len() > 0 {
        let (o, i, b2) = yaz0_step(out, icb, bit, ts[0]);
        assert(o.len() >= 0x10 && 0x10 <= i < o.len());
        assert(o.subrange(0, 0x10) =~= out.subrange(0, 0x10));
        lemma_yaz0_frame_prefix(o, i, b2, ts.drop_first());
    }
}

} // verus!
