//! The MIO0 container: the same three-region layout as Yay0 — a 0x10-byte
//! header, 32-bit control words, a 16-bit link table, and a literal chunk —
//! but a link stores the whole length in its high nibble (`length - 3`, so
//! lengths span 3 to 18 bytes) and there is no extra-length escape.

use crate::lz;
use crate::lz::{lemma_lz_extend_len, lemma_lz_extend_snoc, lz_extend, LzTok, Regions};
use crate::utils;
use crate::Crunch64Error;
use vstd::prelude::*;

verus! {

/// The ASCII magic "MIO0".
pub open spec fn mio0_magic() -> Seq<u8> {
    seq![0x4Du8, 0x49u8, 0x4Fu8, 0x30u8]
}

/// The 0x10-byte header: magic, big-endian uncompressed size, link-table
/// offset, chunk offset.
pub open spec fn mio0_header(n: int, link_off: int, chunk_off: int) -> Seq<u8> {
    mio0_magic() + utils::be32_bytes(n) + utils::be32_bytes(link_off) + utils::be32_bytes(chunk_off)
}

/// What parsing a MIO0 header yields: the declared uncompressed size, the
/// link-table offset and the chunk offset, or `InvalidMio0Header` when the
/// buffer is shorter than 0x10 bytes or the magic differs.
pub open spec fn parse_header_spec(b: Seq<u8>) -> Result<(int, int, int), Crunch64Error> {
    if b.len() < 0x10 {
        Err(Crunch64Error::InvalidMio0Header)
    } else if b.subrange(0, 4) != mio0_magic() {
        Err(Crunch64Error::InvalidMio0Header)
    } else {
        Ok((utils::be32_at(b, 4), utils::be32_at(b, 8), utils::be32_at(b, 12)))
    }
}

/// Parses and validates the header.
pub fn parse_header(bytes: &[u8]) -> (r: Result<(usize, usize, usize), Crunch64Error>)
    ensures
        r matches Ok(v) ==> parse_header_spec(bytes@) == Ok::<(int, int, int), Crunch64Error>(
            (v.0 as int, v.1 as int, v.2 as int),
        ),
        r matches Err(e) ==> parse_header_spec(bytes@) == Err::<(int, int, int), Crunch64Error>(e),
{
    if bytes.len() < 0x10 {
        return Err(Crunch64Error::InvalidMio0Header);
    }

    if bytes[0] != 0x4D || bytes[1] != 0x49 || bytes[2] != 0x4F || bytes[3] != 0x30 {
        assert(bytes@.subrange(0, 4) != mio0_magic()) by {
            assert(bytes@.subrange(0, 4)[0] == bytes@[0]);
            assert(bytes@.subrange(0, 4)[1] == bytes@[1]);
            assert(bytes@.subrange(0, 4)[2] == bytes@[2]);
            assert(bytes@.subrange(0, 4)[3] == bytes@[3]);
        }
        return Err(Crunch64Error::InvalidMio0Header);
    }
    assert(bytes@.subrange(0, 4) =~= mio0_magic());

    let size = match utils::read_u32(bytes, 4) {
        Ok(v) => v,
        Err(e) => {
            return Err(e);
        },
    };
    let link_off = match utils::read_u32(bytes, 8) {
        Ok(v) => v,
        Err(e) => {
            return Err(e);
        },
    };
    let chunk_off = match utils::read_u32(bytes, 12) {
        Ok(v) => v,
        Err(e) => {
            return Err(e);
        },
    };
    Ok((size as usize, link_off as usize, chunk_off as usize))
}

/// Reports the uncompressed size a MIO0 file declares, reading only its
/// header.
pub fn decompress_bound(bytes: &[u8]) -> (r: Result<usize, Crunch64Error>)
    ensures
        r matches Ok(v) ==> parse_header_spec(bytes@) matches Ok(h) && h.0 == v as int,
        r matches Err(e) ==> parse_header_spec(bytes@) == Err::<(int, int, int), Crunch64Error>(e),
{
    match parse_header(bytes) {
        Ok((size, _, _)) => Ok(size),
        Err(e) => Err(e),
    }
}

/// One state of the MIO0 decoder: `other` is the control-word cursor, `link`
/// the link-table cursor, `chunk` the literal cursor, `mask` the current
/// control word with `nbits` of its bits left, `out` what has been produced
/// and `size` the declared output size. A read outside the input, a
/// back-reference reaching before the start of the output, or a copy past
/// `size` is rejected; link fields outside the permitted length and offset
/// ranges are rejected as corrupt.
pub open spec fn mio0_dec(
    b: Seq<u8>,
    other: int,
    link: int,
    chunk: int,
    mask: u32,
    nbits: int,
    out: Seq<u8>,
    size: int,
) -> Result<Seq<u8>, Crunch64Error>
    decreases
            size - out.len(),
            (if nbits <= 0 || nbits > 32 {
                33int
            } else {
                33 - nbits
            }),
    via mio0_dec_decreases
{
    if out.len() >= size {
        Ok(out)
    } else if nbits <= 0 || nbits > 32 {
        match utils::read_u32_spec(b, other) {
            Err(e) => Err(e),
            Ok(m) => mio0_dec(b, other + 4, link, chunk, m, 32, out, size),
        }
    } else if mask & 0x8000_0000 != 0 {
        if chunk >= b.len() || chunk < 0 {
            Err(Crunch64Error::OutOfBounds)
        } else {
            mio0_dec(b, other, link, chunk + 1, mask << 1, nbits - 1, out.push(b[chunk]), size)
        }
    } else {
        match utils::read_u16_spec(b, link) {
            Err(e) => Err(e),
            Ok(lk) => {
                let dist = lk % 0x1000 + 1;
                let n = lk / 0x1000 + 3;
                if dist > out.len() {
                    Err(Crunch64Error::OutOfBounds)
                } else if n < 3 || n > 18 {
                    Err(Crunch64Error::CorruptData)
                } else if dist < 1 || dist > 4096 {
                    Err(Crunch64Error::CorruptData)
                } else if out.len() + n > size {
                    Err(Crunch64Error::OutOfBounds)
                } else {
                    mio0_dec(
                        b,
                        other,
                        link + 2,
                        chunk,
                        mask << 1,
                        nbits - 1,
                        lz_extend(out, dist as int, n as int),
                        size,
                    )
                }
            },
        }
    }
}

#[via_fn]
proof fn mio0_dec_decreases(
    b: Seq<u8>,
    other: int,
    link: int,
    chunk: int,
    mask: u32,
    nbits: int,
    out: Seq<u8>,
    size: int,
) {
    if out.len() < size && 0 < nbits <= 32 && mask & 0x8000_0000 == 0 {
        match utils::read_u16_spec(b, link) {
            Ok(lk) => {
                let dist = lk % 0x1000 + 1;
                if 0 < dist <= out.len() {
                    lemma_lz_extend_len(out, dist as int, lk / 0x1000 + 3);
                }
            },
            Err(_) => {},
        }
    }
}

/// What decompression returns for any input.
pub open spec fn decompress_spec(b: Seq<u8>) -> Result<Seq<u8>, Crunch64Error> {
    match parse_header_spec(b) {
        Err(e) => Err(e),
        Ok(h) => mio0_dec(b, 0x10, h.1, h.2, 0, 0, Seq::empty(), h.0),
    }
}

/// Decompresses a MIO0 file: validates the header, then replays the control
/// words over the link table and chunk regions.
pub fn decompress(bytes: &[u8]) -> (r: Result<Vec<u8>, Crunch64Error>)
    ensures
        r matches Ok(v) ==> decompress_spec(bytes@) == Ok::<Seq<u8>, Crunch64Error>(v@),
        r matches Err(e) ==> decompress_spec(bytes@) == Err::<Seq<u8>, Crunch64Error>(e),
{
    let (size, mut link, mut chunk) = match parse_header(bytes) {
        Ok(v) => v,
        Err(e) => {
            return Err(e);
        },
    };

    // ties the view length to the machine word so index arithmetic stays in
    // bounds inside the loop
    let input_len: usize = bytes.len();
    assert(bytes@.len() <= usize::MAX);
    let ghost full = mio0_dec(bytes@, 0x10, link as int, chunk as int, 0, 0, Seq::empty(),
        size as int);
    let mut out: Vec<u8> = Vec::new();
    let mut other: usize = 0x10;
    let mut mask: u32 = 0;
    let mut nbits: usize = 0;

    while out.len() < size
        invariant
            out@.len() <= size <= 0xFFFF_FFFF,
            nbits <= 32,
            bytes@.len() <= usize::MAX,
            mio0_dec(
                bytes@,
                other as int,
                link as int,
                chunk as int,
                mask,
                nbits as int,
                out@,
                size as int,
            ) == full,
            decompress_spec(bytes@) == full,
        decreases size - out@.len(),
    {
        if nbits == 0 {
            let m = match utils::read_u32(bytes, other) {
                Ok(m) => m,
                Err(e) => {
                    return Err(e);
                },
            };
            mask = m;
            other = other + 4;
            nbits = 32;
            assert(mio0_dec(
                bytes@,
                other as int,
                link as int,
                chunk as int,
                mask,
                nbits as int,
                out@,
                size as int,
            ) == full);
        }

        if mask & 0x8000_0000 != 0 {
            if chunk >= bytes.len() {
                return Err(Crunch64Error::OutOfBounds);
            }
            let v = bytes[chunk];
            out.push(v);
            chunk = chunk + 1;
        } else {
            let lk = match utils::read_u16(bytes, link) {
                Ok(v) => v,
                Err(e) => {
                    return Err(e);
                },
            };
            link = link + 2;
            let dist: u16 = lk % 0x1000 + 1;
            let n: usize = (lk / 0x1000) as usize + 3;
            if dist as usize > out.len() {
                return Err(Crunch64Error::OutOfBounds);
            }
            if n < 3 || n > 18 {
                return Err(Crunch64Error::CorruptData);
            }
            if dist < 1 || dist > 4096 {
                return Err(Crunch64Error::CorruptData);
            }
            if n > size - out.len() {
                return Err(Crunch64Error::OutOfBounds);
            }
            let ghost out0 = out@;
            let mut i: usize = 0;
            while i < n
                invariant
                    i <= n,
                    0 < dist as int <= out0.len(),
                    out0.len() + n <= size <= 0xFFFF_FFFF,
                    out@ == lz_extend(out0, dist as int, i as int),
                    out@.len() == out0.len() + i,
                decreases n - i,
            {
                proof {
                    lemma_lz_extend_snoc(out0, dist as int, i as int);
                    lemma_lz_extend_len(out0, dist as int, i + 1);
                }
                let v = out[out.len() - dist as usize];
                out.push(v);
                i = i + 1;
            }
            assert(out@ == lz_extend(out0, dist as int, n as int));
        }
        mask = mask << 1;
        nbits = nbits - 1;
    }
    Ok(out)
}

/// Applies one token to the three regions, then advances the control-bit
/// cursor, starting a fresh control word when the 32 bits are used up. A
/// back-reference stores its length, minus 3, in the link's high nibble, so
/// all lengths fit without an escape.
pub open spec fn mio0_step(st: Regions, t: LzTok) -> Regions {
    let st1 = match t {
        LzTok::Lit { val } => Regions {
            cmds: st.cmds.update(st.icw, st.cmds[st.icw] | st.bit),
            icw: st.icw,
            bit: st.bit,
            links: st.links,
            chunk: st.chunk.push(val),
        },
        LzTok::Ref { off, len } => {
            let lk = off + (len - 3) * 0x1000;
            Regions {
                cmds: st.cmds,
                icw: st.icw,
                bit: st.bit,
                links: st.links + seq![(lk / 0x100) as u8, (lk % 0x100) as u8],
                chunk: st.chunk,
            }
        },
    };
    let b1 = st1.bit / 2;
    if b1 == 0 {
        Regions {
            cmds: st1.cmds.push(0),
            icw: st1.cmds.len() as int,
            bit: 0x8000_0000u32,
            links: st1.links,
            chunk: st1.chunk,
        }
    } else {
        Regions { cmds: st1.cmds, icw: st1.icw, bit: b1, links: st1.links, chunk: st1.chunk }
    }
}

/// Frames a whole token stream, one `mio0_step` per token.
pub open spec fn mio0_frame(st: Regions, ts: Seq<LzTok>) -> Regions
    decreases ts.len(),
{
    if ts.len() == 0 {
        st
    } else {
        mio0_frame(mio0_step(st, ts[0]), ts.drop_first())
    }
}

/// The regions before any token: one empty control word, the high bit next.
pub open spec fn mio0_init() -> Regions {
    Regions {
        cmds: seq![0u32],
        icw: 0,
        bit: 0x8000_0000u32,
        links: Seq::empty(),
        chunk: Seq::empty(),
    }
}

/// Concatenates header and regions; an untouched trailing control word is
/// dropped.
pub open spec fn mio0_assemble(n: int, st: Regions) -> Seq<u8> {
    let cmds = if st.bit == 0x8000_0000 {
        st.cmds.drop_last()
    } else {
        st.cmds
    };
    let link_off = (0x10 + 4 * cmds.len() as int) % 0x1_0000_0000;
    let chunk_off = (0x10 + 4 * cmds.len() as int + st.links.len() as int) % 0x1_0000_0000;
    mio0_header(n, link_off, chunk_off) + utils::be32_flat(cmds) + st.links
        + st.chunk
}

/// What compression returns: the assembled regions of the framed greedy token
/// stream; inputs whose size cannot be stored in the 32-bit header field are
/// rejected.
pub open spec fn compress_spec(b: Seq<u8>) -> Result<Seq<u8>, Crunch64Error> {
    if b.len() > 0xFFFF_FFFF {
        Err(Crunch64Error::OutOfBounds)
    } else {
        Ok(mio0_assemble(b.len() as int, mio0_frame(mio0_init(), lz::tokens_from(b, 0, 18))))
    }
}

/// Largest possible compressed size for an input of `n` bytes.
pub fn compress_bound(input_size: usize) -> (r: usize)
    requires
        input_size + input_size / 8 + 0x11 <= usize::MAX,
    ensures
        r == input_size + (input_size + 7) / 8 + 0x10,
{
    let ceil: usize = input_size / 8 + if input_size % 8 != 0 {
        1
    } else {
        0
    };
    assert(ceil == (input_size + 7) / 8);
    input_size + ceil + 0x10
}

/// Compresses `bytes` into the MIO0 format: the same greedy parse as Yaz0
/// and Yay0, with matches capped at 18 bytes, framed into the three MIO0
/// regions.
#[verifier::rlimit(100)]
pub fn compress(bytes: &[u8]) -> (r: Result<Vec<u8>, Crunch64Error>)
    ensures
        r matches Ok(v) ==> compress_spec(bytes@) == Ok::<Seq<u8>, Crunch64Error>(v@),
        r matches Err(e) ==> compress_spec(bytes@) == Err::<Seq<u8>, Crunch64Error>(e),
{
    if bytes.len() as u64 > 0xFFFF_FFFFu64 {
        return Err(Crunch64Error::OutOfBounds);
    }

    let ghost toks = lz::tokens_from(bytes@, 0, 18);
    let ghost fst = mio0_frame(mio0_init(), toks);

    let mut cmd: Vec<u32> = Vec::new();
    cmd.push(0);
    let mut icw: usize = 0;
    let mut bit: u32 = 0x8000_0000;
    let mut links: Vec<u8> = Vec::new();
    let mut chunk: Vec<u8> = Vec::new();
    let mut p: usize = 0;

    proof {
        assert(Regions {
            cmds: cmd@,
            icw: icw as int,
            bit: bit,
            links: links@,
            chunk: chunk@,
        } =~= mio0_init());
    }

    while p < bytes.len()
        invariant
            p <= bytes@.len() <= 0xFFFF_FFFF,
            1 <= cmd@.len() <= p + 1,
            icw == cmd@.len() - 1,
            links@.len() <= 2 * p,
            mio0_frame(
                Regions { cmds: cmd@, icw: icw as int, bit: bit, links: links@, chunk: chunk@ },
                lz::tokens_from(bytes@, p as int, 18),
            ) == fst,
        decreases bytes@.len() - p,
    {
        let ghost ts = lz::tokens_from(bytes@, p as int, 18);
        let ghost st_top = Regions {
            cmds: cmd@,
            icw: icw as int,
            bit: bit,
            links: links@,
            chunk: chunk@,
        };
        proof {
            lz::lemma_search_spec_bounds(bytes@, p as int, 18);
            lz::lemma_search_spec_bounds(bytes@, p as int + 1, 18);
        }

        let (gp, gs) = lz::search(bytes, p, 18);

        if gs <= 2 {
            let cur = cmd[icw];
            cmd[icw] = cur | bit;
            chunk.push(bytes[p]);
            bit = bit / 2;
            if bit == 0 {
                bit = 0x8000_0000;
                icw = cmd.len();
                cmd.push(0);
            }
            proof {
                let st2 = mio0_step(st_top, ts[0]);
                assert(Regions {
                    cmds: cmd@,
                    icw: icw as int,
                    bit: bit,
                    links: links@,
                    chunk: chunk@,
                } =~= st2);
                assert(ts.drop_first() =~= lz::tokens_from(bytes@, p + 1, 18));
            }
            p = p + 1;
        } else {
            let (np, ns) = lz::search(bytes, p + 1, 18);
            let mut fp = gp;
            let mut fs = gs;
            let deferred = ns >= gs + 2;
            if deferred {
                let cur = cmd[icw];
                cmd[icw] = cur | bit;
                chunk.push(bytes[p]);
                p = p + 1;
                bit = bit / 2;
                if bit == 0 {
                    bit = 0x8000_0000;
                    icw = cmd.len();
                    cmd.push(0);
                }
                proof {
                    let st2 = mio0_step(st_top, ts[0]);
                    assert(Regions {
                        cmds: cmd@,
                        icw: icw as int,
                        bit: bit,
                        links: links@,
                        chunk: chunk@,
                    } =~= st2);
                }
                fs = ns;
                fp = np;
            }
            let ghost st_mid = Regions {
                cmds: cmd@,
                icw: icw as int,
                bit: bit,
                links: links@,
                chunk: chunk@,
            };
            let ghost tref = if deferred { ts[1] } else { ts[0] };

            let go: u32 = p as u32 - fp - 1;
            let lk: u32 = go + (fs - 3) * 0x1000;
            links.push((lk / 0x100) as u8);
            links.push((lk % 0x100) as u8);
            bit = bit / 2;
            if bit == 0 {
                bit = 0x8000_0000;
                icw = cmd.len();
                cmd.push(0);
            }
            proof {
                let st3 = mio0_step(st_mid, tref);
                assert(Regions {
                    cmds: cmd@,
                    icw: icw as int,
                    bit: bit,
                    links: links@,
                    chunk: chunk@,
                } =~= st3);
                if deferred {
                    let st2 = mio0_step(st_top, ts[0]);
                    assert(mio0_frame(st_top, ts) == mio0_frame(st2, ts.drop_first()));
                    assert(ts.drop_first()[0] == ts[1]);
                    assert(ts.drop_first().drop_first() =~= lz::tokens_from(
                        bytes@,
                        p as int + fs as int,
                        18,
                    ));
                } else {
                    assert(ts.drop_first() =~= lz::tokens_from(
                        bytes@,
                        p as int + fs as int,
                        18,
                    ));
                }
            }
            p = p + fs as usize;
        }
    }

    assert(lz::tokens_from(bytes@, p as int, 18) =~= Seq::<LzTok>::empty());
    let ghost st_end = Regions {
        cmds: cmd@,
        icw: icw as int,
        bit: bit,
        links: links@,
        chunk: chunk@,
    };
    assert(st_end == fst);

    if bit == 0x8000_0000 {
        let ghost before = cmd@;
        // the trailing control word was never touched; drop it
        let _ = cmd.pop();
        assert(cmd@ =~= before.drop_last());
    }

    let out = assemble(bytes.len() as u32, cmd, links, chunk);
    assert(out@ =~= mio0_assemble(bytes@.len() as int, fst));
    Ok(out)
}


/// Concatenates the header and the three finished regions into one buffer.
#[verifier::rlimit(100)]
fn assemble(n: u32, cmd: Vec<u32>, links: Vec<u8>, chunk: Vec<u8>) -> (out: Vec<u8>)
    requires
        cmd@.len() <= 0x1_0000_0001,
        links@.len() <= 0x2_0000_0000,
    ensures
        out@ == mio0_header(
            n as int,
            (0x10 + 4 * cmd@.len() as int) % 0x1_0000_0000,
            (0x10 + 4 * cmd@.len() as int + links@.len() as int) % 0x1_0000_0000,
        ) + utils::be32_flat(cmd@) + links@ + chunk@,
{
    let mut links = links;
    let mut chunk = chunk;
    let link_off64: u64 = 4u64 * cmd.len() as u64 + 0x10;
    let chunk_off64: u64 = link_off64 + links.len() as u64;

    let mut out: Vec<u8> = Vec::new();
    out.push(0x4D);
    out.push(0x49);
    out.push(0x4F);
    out.push(0x30);
    utils::push_be32(&mut out, n);
    let l32: u32 = (link_off64 % 0x1_0000_0000) as u32;
    let c32: u32 = (chunk_off64 % 0x1_0000_0000) as u32;
    utils::push_be32(&mut out, l32);
    utils::push_be32(&mut out, c32);
    proof {
        assert(out@ =~= mio0_header(
            n as int,
            (0x10 + 4 * cmd@.len() as int) % 0x1_0000_0000,
            (0x10 + 4 * cmd@.len() as int + links@.len() as int) % 0x1_0000_0000,
        ));
    }
    let ghost hdr = out@;

    let mut i: usize = 0;
    while i < cmd.len()
        invariant
            i <= cmd@.len(),
            out@ == hdr + utils::be32_flat(cmd@.take(i as int)),
        decreases cmd@.len() - i,
    {
        let w = cmd[i];
        utils::push_be32(&mut out, w);
        proof {
            utils::lemma_be32_flat_snoc(cmd@.take(i as int), w);
            assert(cmd@.take(i + 1) =~= cmd@.take(i as int).push(w));
            assert(out@ =~= hdr + utils::be32_flat(cmd@.take(i + 1)));
        }
        i = i + 1;
    }
    assert(cmd@.take(cmd@.len() as int) =~= cmd@);

    out.append(&mut links);
    out.append(&mut chunk);
    out
}

/// The header of a compressed file declares exactly the input's length:
/// parsing the first 0x10 bytes of `compress`'s output yields `b.len()`.
pub proof fn lemma_mio0_bound_of_compressed(b: Seq<u8>)
    requires
        b.len() <= 0xFFFF_FFFF,
    ensures
        compress_spec(b) matches Ok(c) && parse_header_spec(c.subrange(0, 0x10)) matches Ok(h)
            && h.0 == b.len() as int,
{
    let st = mio0_frame(mio0_init(), lz::tokens_from(b, 0, 18));
    let c = compress_spec(b)->Ok_0;
    let cmds = if st.bit == 0x8000_0000 {
        st.cmds.drop_last()
    } else {
        st.cmds
    };
    let hdr = mio0_header(
        b.len() as int,
        (0x10 + 4 * cmds.len() as int) % 0x1_0000_0000,
        (0x10 + 4 * cmds.len() as int + st.links.len() as int) % 0x1_0000_0000,
    );
    assert(c.subrange(0, 0x10) =~= hdr);
    let h = c.subrange(0, 0x10);
    assert(h.subrange(0, 4) =~= mio0_magic());
    assert(h.subrange(4, 8) =~= utils::be32_bytes(b.len() as int));
    utils::lemma_be32_bytes_at(h, 4, b.len() as int);
}

} // verus!
