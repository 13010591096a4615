//! Sliding-window longest-match search shared by the Yaz0, Yay0 and MIO0
//! compressors, and the greedy tokenizer with single-position lookahead that
//! they all use.
//!
//! The search looks for the longest back-reference into the preceding
//! 0x1000-byte window, at least 3 bytes long, preferring the earliest
//! position on ties. Positions closer than 3 bytes to the end of the input
//! are never match sources. Both rules reproduce the historical encoders'
//! hash-chain traversal order, which is what makes the output byte-exact.

use vstd::prelude::*;

verus! {

/// Length of the longest common prefix of `b[q..]` and `b[p..]`, capped at
/// `cap`. The two ranges may overlap (`q < p`), which lets a match copy
/// bytes it produces itself.
pub open spec fn lcp(b: Seq<u8>, q: int, p: int, cap: int) -> int
    decreases cap,
{
    if cap <= 0 || q < 0 || p < 0 || p >= b.len() || q >= b.len() || b[q] != b[p] {
        0
    } else {
        1 + lcp(b, q + 1, p + 1, cap - 1)
    }
}

pub proof fn lemma_lcp_bounds(b: Seq<u8>, q: int, p: int, cap: int)
    ensures
        0 <= lcp(b, q, p, cap),
        lcp(b, q, p, cap) <= cap || cap < 0,
    decreases cap,
{
    if cap > 0 && 0 <= q < b.len() && 0 <= p < b.len() && b[q] == b[p] {
        lemma_lcp_bounds(b, q + 1, p + 1, cap - 1);
    }
}

/// Length of the match available at source position `q` for a query at `p`:
/// zero unless `q` leaves three bytes before the end of the input and the
/// three bytes at `q` equal those at `p` (the conditions under which the
/// historical hash chain holds `q`), the common-prefix length otherwise.
pub open spec fn cand_len(b: Seq<u8>, q: int, p: int, cap: int) -> int {
    if q + 3 < b.len() && b[q] == b[p] && b[q + 1] == b[p + 1] && b[q + 2] == b[p + 2] {
        lcp(b, q, p, cap)
    } else {
        0
    }
}

/// Fold over candidate positions `q, q+1, ..., p-1`, keeping the best match
/// seen so far; only a strictly longer candidate replaces the current best,
/// so the earliest position wins ties.
pub open spec fn best_from(b: Seq<u8>, p: int, cap: int, q: int, bp: int, bl: int) -> (int, int)
    decreases p - q,
{
    if q < 0 || q >= p {
        (bp, bl)
    } else {
        let l = cand_len(b, q, p, cap);
        if l > bl {
            best_from(b, p, cap, q + 1, q, l)
        } else {
            best_from(b, p, cap, q + 1, bp, bl)
        }
    }
}

/// Start of the window preceding position `p`.
pub open spec fn window_lo(p: int) -> int {
    if p > 0x1000 { p - 0x1000 } else { 0 }
}

/// The result of the window search at position `p` with match lengths capped
/// at `max_len`: `(position, length)` of the best match, or a length of at
/// most 2 when no viable match exists.
pub open spec fn search_spec(b: Seq<u8>, p: int, max_len: int) -> (int, int) {
    if p >= b.len() {
        (0, 0)
    } else {
        let cap = if max_len <= b.len() - p { max_len } else { b.len() - p };
        if cap < 3 {
            (0, 0)
        } else {
            best_from(b, p, cap, window_lo(p), 0, 2)
        }
    }
}

pub proof fn lemma_best_from_bounds(b: Seq<u8>, p: int, cap: int, q: int, bp: int, bl: int)
    requires
        2 <= bl <= cap,
        cap <= b.len() - p,
        window_lo(p) <= q,
        bl > 2 ==> window_lo(p) <= bp < p,
    ensures
        ({
            let (rp, rl) = best_from(b, p, cap, q, bp, bl);
            &&& bl <= rl <= cap
            &&& (rl > 2 ==> window_lo(p) <= rp < p)
        }),
    decreases p - q,
{
    if 0 <= q < p {
        let l = cand_len(b, q, p, cap);
        lemma_lcp_bounds(b, q, p, cap);
        if l > bl {
            lemma_best_from_bounds(b, p, cap, q + 1, q, l);
        } else {
            lemma_best_from_bounds(b, p, cap, q + 1, bp, bl);
        }
    }
}

pub proof fn lemma_search_spec_bounds(b: Seq<u8>, p: int, max_len: int)
    requires
        max_len >= 3,
    ensures
        ({
            let (rp, rl) = search_spec(b, p, max_len);
            &&& 0 <= rl
            &&& rl <= max_len
            &&& p < b.len() ==> rl <= b.len() - p
            &&& (rl > 2 ==> window_lo(p) <= rp < p && 3 <= rl)
        }),
{
    if p < b.len() {
        let cap = if max_len <= b.len() - p { max_len } else { b.len() - p };
        if cap >= 3 {
            lemma_best_from_bounds(b, p, cap, window_lo(p), 0, 2);
        }
    }
}

/// Computes the longest common prefix of `b[q..]` and `b[p..]`, capped.
fn common_prefix(b: &[u8], q: usize, p: usize, cap: usize) -> (r: usize)
    requires
        q < p,
        p + cap <= b@.len(),
        b@.len() <= 0xFFFF_FFFF,
    ensures
        r == lcp(b@, q as int, p as int, cap as int),
        r <= cap,
{
    let mut i: usize = 0;
    while i < cap && b[q + i] == b[p + i]
        invariant
            i <= cap,
            q < p,
            p + cap <= b@.len(),
            b@.len() <= 0xFFFF_FFFF,
            lcp(b@, q as int, p as int, cap as int) == i + lcp(
                b@,
                q + i as int,
                p + i as int,
                cap - i as int,
            ),
        decreases cap - i,
    {
        i = i + 1;
    }
    proof {
        lemma_lcp_bounds(b@, q + i as int, p + i as int, cap - i as int);
    }
    i
}

/// Searches the 0x1000-byte window before `p` for the longest match of at
/// most `max_len` bytes, returning `(position, length)` exactly as
/// `search_spec` describes.
pub(crate) fn search(b: &[u8], p: usize, max_len: usize) -> (r: (u32, u32))
    requires
        b@.len() <= 0xFFFF_FFFF,
    ensures
        ({
            let (sp, sl) = search_spec(b@, p as int, max_len as int);
            r.0 == sp && r.1 == sl
        }),
{
    if p >= b.len() {
        return (0, 0);
    }
    let cap = if max_len <= b.len() - p {
        max_len
    } else {
        b.len() - p
    };
    if cap < 3 {
        return (0, 0);
    }
    let lo = if p > 0x1000 { p - 0x1000 } else { 0 };
    let mut q = lo;
    let mut bp: usize = 0;
    let mut bl: usize = 2;
    while q < p
        invariant
            lo <= q <= p,
            p < b@.len(),
            b@.len() <= 0xFFFF_FFFF,
            3 <= cap <= b@.len() - p,
            2 <= bl <= cap,
            bp == 0 || bp < p,
            best_from(b@, p as int, cap as int, q as int, bp as int, bl as int) == best_from(
                b@,
                p as int,
                cap as int,
                lo as int,
                0,
                2,
            ),
        decreases p - q,
    {
        let mut l: usize = 0;
        if q + 3 < b.len() && b[q] == b[p] && b[q + 1] == b[p + 1] && b[q + 2] == b[p + 2] {
            l = common_prefix(b, q, p, cap);
        }
        assert(l == cand_len(b@, q as int, p as int, cap as int));
        if l > bl {
            bp = q;
            bl = l;
        }
        q = q + 1;
    }
    (bp as u32, bl as u32)
}

/// `out` extended by `n` bytes copied one at a time from `dist` bytes behind
/// the write cursor; a distance smaller than `n` repeats the copied bytes.
pub open spec fn lz_extend(out: Seq<u8>, dist: int, n: int) -> Seq<u8>
    decreases n,
{
    if n <= 0 || dist <= 0 || dist > out.len() {
        out
    } else {
        lz_extend(out.push(out[out.len() - dist]), dist, n - 1)
    }
}

pub proof fn lemma_lz_extend_len(out: Seq<u8>, dist: int, n: int)
    requires
        0 < dist <= out.len(),
        0 <= n,
    ensures
        lz_extend(out, dist, n).len() == out.len() + n,
    decreases n,
{
    if n > 0 {
        lemma_lz_extend_len(out.push(out[out.len() - dist]), dist, n - 1);
    }
}

/// Extending by one more byte appends the byte `dist` positions behind the
/// end of the extension so far.
pub proof fn lemma_lz_extend_snoc(out: Seq<u8>, dist: int, n: int)
    requires
        0 < dist <= out.len(),
        0 <= n,
    ensures
        lz_extend(out, dist, n + 1) == lz_extend(out, dist, n).push(
            lz_extend(out, dist, n)[out.len() + n - dist],
        ),
    decreases n,
{
    lemma_lz_extend_len(out, dist, n);
    let out1 = out.push(out[out.len() - dist]);
    if n > 0 {
        lemma_lz_extend_snoc(out1, dist, n - 1);
        assert(lz_extend(out, dist, n + 1) == lz_extend(out1, dist, n));
        assert(lz_extend(out, dist, n) == lz_extend(out1, dist, n - 1));
    } else {
        assert(lz_extend(out, dist, 1) == lz_extend(out1, dist, 0));
        assert(lz_extend(out, dist, 0) == out);
    }
}

/// A sequence of `n` zero bytes.
pub open spec fn zero_seq(n: int) -> Seq<u8> {
    Seq::new(if n >= 0 { n as nat } else { 0 }, |i: int| 0u8)
}

/// The three output regions of the Yay0 and MIO0 containers while they are
/// built: the 32-bit control words (`icw` indexes the word being filled,
/// `bit` is the next control bit), the 16-bit link table as bytes, and the
/// literal/extra-length chunk.
#[verifier::ext_equal]
pub struct Regions {
    pub cmds: Seq<u32>,
    pub icw: int,
    pub bit: u32,
    pub links: Seq<u8>,
    pub chunk: Seq<u8>,
}

/// A token of the LZ stream: either one literal byte or a back-reference,
/// whose `off` field is the distance minus one and whose `len` field is the
/// number of bytes copied.
pub enum LzTok {
    Lit { val: u8 },
    Ref { off: int, len: int },
}

/// The token stream the greedy compressor emits from position `p` on, with
/// match lengths capped at `cap`: take the best match at `p`; emit a literal
/// if it is at most 2 bytes; otherwise look one position ahead, and if that
/// match is better by at least 2 bytes, emit a literal and the deferred
/// match; otherwise emit the match at `p`.
pub open spec fn tokens_from(b: Seq<u8>, p: int, cap: int) -> Seq<LzTok>
    decreases b.len() - p,
    via tokens_from_decreases
{
    if p < 0 || p >= b.len() || cap < 3 {
        Seq::empty()
    } else {
        let (gp, gs) = search_spec(b, p, cap);
        if gs <= 2 {
            seq![LzTok::Lit { val: b[p] }] + tokens_from(b, p + 1, cap)
        } else {
            let (np, ns) = search_spec(b, p + 1, cap);
            if ns >= gs + 2 {
                seq![LzTok::Lit { val: b[p] }, LzTok::Ref { off: p - np, len: ns }] + tokens_from(
                    b,
                    p + 1 + ns,
                    cap,
                )
            } else {
                seq![LzTok::Ref { off: p - gp - 1, len: gs }] + tokens_from(b, p + gs, cap)
            }
        }
    }
}

#[via_fn]
proof fn tokens_from_decreases(b: Seq<u8>, p: int, cap: int) {
    if 0 <= p < b.len() && cap >= 3 {
        lemma_search_spec_bounds(b, p, cap);
        lemma_search_spec_bounds(b, p + 1, cap);
    }
}

/// The common prefix really is common: the two ranges agree on each of its
/// bytes.
pub proof fn lemma_lcp_is_match(b: Seq<u8>, q: int, p: int, cap: int, i: int)
    requires
        0 <= i < lcp(b, q, p, cap),
    ensures
        b[q + i] == b[p + i],
    decreases i,
{
    if i > 0 {
        lemma_lcp_is_match(b, q + 1, p + 1, cap - 1, i - 1);
    }
}

proof fn lemma_best_from_is_match(b: Seq<u8>, p: int, cap: int, q: int, bp: int, bl: int)
    requires
        bl > 2 ==> 0 <= bp < p && bl <= lcp(b, bp, p, cap),
    ensures
        ({
            let (rp, rl) = best_from(b, p, cap, q, bp, bl);
            rl > 2 ==> 0 <= rp < p && rl <= lcp(b, rp, p, cap)
        }),
    decreases p - q,
{
    if 0 <= q < p {
        let l = cand_len(b, q, p, cap);
        if l > bl {
            lemma_best_from_is_match(b, p, cap, q + 1, q, l);
        } else {
            lemma_best_from_is_match(b, p, cap, q + 1, bp, bl);
        }
    }
}

/// A viable search result is a true back-reference: the bytes at the found
/// position equal the bytes at the query position, for the whole match
/// length. This is the half of the round-trip property that concerns the
/// match finder; the framing itself is covered by the byte-exact contracts
/// of the codecs and by their tests.
pub proof fn lemma_search_spec_is_match(b: Seq<u8>, p: int, max_len: int)
    ensures
        ({
            let (sp, sl) = search_spec(b, p, max_len);
            sl > 2 ==> 0 <= sp < p && forall|i: int| 0 <= i < sl ==> b[sp + i] == #[trigger] b[p + i]
        }),
{
    let (sp, sl) = search_spec(b, p, max_len);
    if p < b.len() {
        let cap = if max_len <= b.len() - p {
            max_len
        } else {
            b.len() - p
        };
        if cap >= 3 {
            lemma_best_from_is_match(b, p, cap, window_lo(p), 0, 2);
            if sl > 2 {
                assert forall|i: int| 0 <= i < sl implies b[sp + i] == #[trigger] b[p + i] by {
                    lemma_lcp_is_match(b, sp, p, cap, i);
                }
            }
        }
    }
}

/// Replaying a true back-reference reproduces the source text: when the
/// output so far is a prefix of `b` and the `n` bytes at `p` equal the bytes
/// `d` positions earlier, the byte-by-byte copy extends the prefix by `n`.
/// Together with `lemma_search_spec_is_match` this is why a decoder replaying
/// the emitted tokens recovers the input.
pub proof fn lemma_lz_extend_of_match(b: Seq<u8>, p: int, d: int, n: int)
    requires
        0 < d <= p,
        0 <= n,
        p + n <= b.len(),
        forall|i: int| 0 <= i < n ==> b[p - d + i] == #[trigger] b[p + i],
    ensures
        lz_extend(b.take(p), d, n) == b.take(p + n),
    decreases n,
{
    if n == 0 {
    } else {
        let pre = b.take(p);
        assert(pre.push(pre[p - d]) =~= b.take(p + 1));
        assert forall|i: int| 0 <= i < n - 1 implies b[(p + 1) - d + i] == #[trigger] b[(p + 1)
            + i] by {
            assert(b[p - d + (i + 1)] == b[p + (i + 1)]);
        }
        lemma_lz_extend_of_match(b, p + 1, d, n - 1);
        assert(lz_extend(pre, d, n) == lz_extend(b.take(p + 1), d, n - 1));
    }
}

} // verus!
