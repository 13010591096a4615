//! DEFLATE compression matching the legacy gzip encoder used by some
//! Nintendo 64 and iQue titles. The output is a headerless DEFLATE stream
//! followed by a gzip trailer: the little-endian CRC-32 of the input and the
//! input size modulo 2^32. The compressor reproduces the historical encoder
//! byte for byte: its lazy match selection, its block-flush heuristics, and
//! even the garbage bytes past the window that the original read from
//! adjacent globals.

use crate::Crunch64Error;
use vstd::prelude::*;

verus! {

/// The IEEE CRC-32 checksum of a byte sequence, a function of the bytes
/// alone.
pub uninterp spec fn crc32_of(b: Seq<u8>) -> u32;

/// Relies on crc32fast::hash: computes the IEEE CRC-32 of the bytes, a pure
/// function of the bytes alone.
#[verifier::external_body]
fn crc32(bytes: &[u8]) -> (r: u32)
    ensures
        r == crc32_of(bytes@),
{
    crc32fast::hash(bytes)
}

/// The four little-endian bytes of a 32-bit value.
pub open spec fn le32_bytes(v: int) -> Seq<u8> {
    seq![
        (v % 0x100) as u8,
        (v / 0x100 % 0x100) as u8,
        (v / 0x10000 % 0x100) as u8,
        (v / 0x1000000 % 0x100) as u8,
    ]
}

/// The observable state of the bitstream writer: the flushed bytes, the
/// pending bit register, and how many bits of it are pending.
#[verifier::ext_equal]
pub struct OsView {
    pub bytes: Seq<u8>,
    pub buf: u32,
    pub cnt: u8,
}

/// Moves whole bytes out of the pending register, least significant byte
/// first, until fewer than 8 bits remain.
pub open spec fn os_drain(s: OsView) -> OsView
    decreases s.cnt,
{
    if s.cnt >= 8 {
        os_drain(
            OsView {
                bytes: s.bytes.push((s.buf % 0x100) as u8),
                buf: s.buf / 0x100,
                cnt: (s.cnt - 8) as u8,
            },
        )
    } else {
        s
    }
}

/// What `write_bits` does: or the value into the register above the pending
/// bits, then drain whole bytes.
pub open spec fn os_write_bits(s: OsView, value: u16, length: u8) -> OsView {
    os_drain(
        OsView {
            bytes: s.bytes,
            buf: s.buf | ((value as u32) << s.cnt),
            cnt: (s.cnt + length) as u8,
        },
    )
}

/// What `flush_bits` does: pad the pending bits with zeros to a byte
/// boundary.
pub open spec fn os_flush(s: OsView) -> OsView {
    if s.cnt > 0 {
        OsView { bytes: s.bytes.push((s.buf % 0x100) as u8), buf: 0, cnt: 0 }
    } else {
        s
    }
}

/// What `write_u16_le` does.
pub open spec fn os_write_u16_le(s: OsView, v: u16) -> OsView {
    let f = os_flush(s);
    OsView { bytes: f.bytes.push((v % 0x100) as u8).push((v / 0x100) as u8), buf: f.buf, cnt: 0 }
}

/// What `write_u32_le` does.
pub open spec fn os_write_u32_le(s: OsView, v: u32) -> OsView {
    let f = os_flush(s);
    OsView { bytes: f.bytes + le32_bytes(v as int), buf: f.buf, cnt: 0 }
}

/// What `write_window_range` does.
pub open spec fn os_write_range(s: OsView, w: Seq<u8>, start: int, end: int) -> OsView {
    let f = os_flush(s);
    OsView { bytes: f.bytes + w.subrange(start, end), buf: f.buf, cnt: 0 }
}

/// Accumulates bits into a 32-bit register and flushes whole bytes to the
/// output buffer, least significant bit first.
struct OutputStream {
    bytes: Vec<u8>,
    bit_buffer: u32,
    bit_count: u8,
}

impl OutputStream {
    /// The writer's observable state.
    pub closed spec fn os(&self) -> OsView {
        OsView { bytes: self.bytes@, buf: self.bit_buffer, cnt: self.bit_count }
    }

    /// Fewer than 8 bits are pending between calls.
    pub closed spec fn wf(&self) -> bool {
        self.bit_count < 8
    }

    pub closed spec fn flushed(&self) -> bool {
        self.bit_count == 0
    }

    pub closed spec fn view_bytes(&self) -> Seq<u8> {
        self.bytes@
    }

    /// The pending byte a flush would emit: empty when byte-aligned.
    pub closed spec fn pad(&self) -> Seq<u8> {
        if self.bit_count > 0 {
            seq![(self.bit_buffer % 0x100) as u8]
        } else {
            Seq::empty()
        }
    }

    fn new() -> (s: Self)
        ensures
            s.wf(),
            s.os() == (OsView { bytes: Seq::<u8>::empty(), buf: 0u32, cnt: 0u8 }),
            s.view_bytes() == Seq::<u8>::empty(),
            s.flushed(),
    {
        let s = OutputStream { bytes: Vec::new(), bit_buffer: 0, bit_count: 0 };
        proof {
            assert(s.os() =~= OsView { bytes: Seq::<u8>::empty(), buf: 0u32, cnt: 0u8 });
        }
        s
    }

    /// Pads the pending bits with zeros up to a byte boundary.
    fn flush_bits(&mut self)
        requires
            old(self).wf(),
        ensures
            final(self).wf(),
            final(self).flushed(),
            final(self).os() == os_flush(old(self).os()),
            final(self).view_bytes() == old(self).view_bytes() + old(self).pad(),
    {
        if self.bit_count > 0 {
            let b: u8 = (self.bit_buffer % 0x100) as u8;
            self.bytes.push(b);
            self.bit_buffer = 0;
            self.bit_count = 0;
        } else {
            assert(self.view_bytes() =~= self.view_bytes() + self.pad());
        }
    }

    /// Appends `length` bits of `value`, least significant bit first.
    fn write_bits(&mut self, value: u16, length: u8)
        requires
            old(self).wf(),
            length <= 16,
        ensures
            final(self).wf(),
            final(self).os() == os_write_bits(old(self).os(), value, length),
    {
        self.bit_buffer = self.bit_buffer | ((value as u32) << self.bit_count);
        self.bit_count = self.bit_count + length;
        assert(os_drain(self.os()) == os_write_bits(old(self).os(), value, length));
        while self.bit_count >= 8
            invariant
                self.bit_count <= 23,
                os_drain(self.os()) == os_write_bits(old(self).os(), value, length),
            decreases self.bit_count,
        {
            let b: u8 = (self.bit_buffer % 0x100) as u8;
            self.bytes.push(b);
            self.bit_buffer = self.bit_buffer / 0x100;
            self.bit_count = self.bit_count - 8;
        }
    }

    /// Aligns to a byte boundary and appends a 16-bit little-endian value.
    fn write_u16_le(&mut self, v: u16)
        requires
            old(self).wf(),
        ensures
            final(self).wf(),
            final(self).flushed(),
            final(self).os() == os_write_u16_le(old(self).os(), v),
    {
        self.flush_bits();
        self.bytes.push((v % 0x100) as u8);
        self.bytes.push((v / 0x100) as u8);
    }

    /// Aligns to a byte boundary and appends a 32-bit little-endian value.
    fn write_u32_le(&mut self, v: u32)
        requires
            old(self).wf(),
        ensures
            final(self).wf(),
            final(self).flushed(),
            final(self).os() == os_write_u32_le(old(self).os(), v),
            final(self).view_bytes() == old(self).view_bytes() + old(self).pad() + le32_bytes(
                v as int,
            ),
    {
        self.flush_bits();
        self.bytes.push((v % 0x100) as u8);
        self.bytes.push((v / 0x100 % 0x100) as u8);
        self.bytes.push((v / 0x10000 % 0x100) as u8);
        self.bytes.push((v / 0x1000000 % 0x100) as u8);
        assert(self.view_bytes() =~= old(self).view_bytes() + old(self).pad() + le32_bytes(
            v as int,
        ));
        assert(self.os() =~= os_write_u32_le(old(self).os(), v));
    }

    /// Aligns to a byte boundary and appends `window[start..end]`.
    fn write_window_range(&mut self, window: &Vec<u8>, start: usize, end: usize)
        requires
            old(self).wf(),
            start <= end <= window@.len(),
        ensures
            final(self).wf(),
            final(self).flushed(),
            final(self).os() == os_write_range(old(self).os(), window@, start as int, end as int),
    {
        self.flush_bits();
        let ghost f = os_flush(old(self).os());
        let mut i = start;
        while i < end
            invariant
                start <= i <= end <= window@.len(),
                self.flushed(),
                self.wf(),
                self.bit_buffer == f.buf,
                self.bytes@ == f.bytes + window@.subrange(start as int, i as int),
            decreases end - i,
        {
            let b = window[i];
            self.bytes.push(b);
            assert(self.bytes@ =~= f.bytes + window@.subrange(start as int, i + 1));
            i = i + 1;
        }
        assert(self.os() =~= os_write_range(old(self).os(), window@, start as int, end as int));
    }

    /// Flushes the pending bits and hands the buffer out.
    fn into_vec(self) -> (r: Vec<u8>)
        requires
            self.wf(),
        ensures
            r@ == os_flush(self.os()).bytes,
            r@ == self.view_bytes() + self.pad(),
    {
        let mut s = self;
        s.flush_bits();
        s.bytes
    }
}

/// A subtree being combined during Huffman construction: the index of its
/// root node, its total frequency, and its height. The height breaks
/// frequency ties so the tree shape is deterministic across runs.
#[derive(Clone, Copy)]
pub struct Tree {
    pub root: usize,
    pub freq: u64,
    pub depth: u64,
}

/// The heap order: by frequency, then by subtree height.
pub open spec fn tree_le_spec(a: Tree, b: Tree) -> bool {
    a.freq < b.freq || (a.freq == b.freq && a.depth <= b.depth)
}

/// Orders subtrees by `(freq, depth)`, the historical encoder's heap order.
fn tree_le(a: &Tree, b: &Tree) -> (r: bool)
    ensures
        r == tree_le_spec(*a, *b),
{
    a.freq < b.freq || (a.freq == b.freq && a.depth <= b.depth)
}

pub open spec fn sat_add_spec(a: u64, b: u64) -> u64 {
    if a + b <= u64::MAX {
        (a + b) as u64
    } else {
        u64::MAX
    }
}

fn sat_add_u64(a: u64, b: u64) -> (r: u64)
    ensures
        r == sat_add_spec(a, b),
{
    if a <= u64::MAX - b {
        a + b
    } else {
        u64::MAX
    }
}

/// What one sift step computes: `v` is the value being placed, `i` the hole
/// it would fill, `child` the first child below the hole. The smaller child
/// is chosen (ties keep the left one as the historical encoder did by its
/// `<=` test on the right child), and the walk stops as soon as `v` is no
/// larger.
pub open spec fn sift_rec(data: Seq<Tree>, v: Tree, i: int, child: int) -> Seq<Tree>
    decreases
            (if child < data.len() {
                data.len() - child
            } else {
                0int
            }),
{
    if 0 <= i < data.len() && 0 <= child < data.len() {
        let c0 = if child + 1 < data.len() && tree_le_spec(data[child + 1], data[child]) {
            child + 1
        } else {
            child
        };
        if tree_le_spec(v, data[c0]) {
            data.update(i, v)
        } else {
            sift_rec(data.update(i, data[c0]), v, c0, 2 * c0 + 1)
        }
    } else {
        data.update(i, v)
    }
}

/// Sifting the element at `s` down through the complete binary tree.
pub open spec fn sift_full(d: Seq<Tree>, s: int) -> Seq<Tree> {
    sift_rec(d, d[s], s, 2 * s + 1)
}

proof fn lemma_sift_rec_len(data: Seq<Tree>, v: Tree, i: int, child: int)
    requires
        0 <= i < data.len(),
    ensures
        sift_rec(data, v, i, child).len() == data.len(),
    decreases
            (if child < data.len() {
                data.len() - child
            } else {
                0int
            }),
{
    if 0 <= child < data.len() {
        let c0 = if child + 1 < data.len() && tree_le_spec(data[child + 1], data[child]) {
            child + 1
        } else {
            child
        };
        if !tree_le_spec(v, data[c0]) {
            lemma_sift_rec_len(data.update(i, data[c0]), v, c0, 2 * c0 + 1);
        }
    }
}

/// Heapifying a whole array: sift each internal node down, last first.
pub open spec fn heap_make(data: Seq<Tree>, k: int) -> Seq<Tree>
    decreases k,
{
    if k <= 0 {
        data
    } else {
        heap_make(sift_full(data, k - 1), k - 1)
    }
}

/// What removing the minimum leaves: the last element moves into the root
/// slot and sifts down.
pub open spec fn remove_min_spec(d: Seq<Tree>) -> Seq<Tree> {
    let d1 = d.drop_last();
    if d1.len() > 0 {
        sift_full(d1.update(0, d.last()), 0)
    } else {
        d1
    }
}

/// What replacing the minimum leaves.
pub open spec fn replace_min_spec(d: Seq<Tree>, value: Tree) -> Seq<Tree> {
    sift_full(d.update(0, value), 0)
}

/// A min-heap over `Tree` values stored as a complete binary tree in a flat
/// array, used instead of a library heap so that equal-priority elements
/// leave in a deterministic order.
struct Heap {
    data: Vec<Tree>,
}

impl Heap {
    /// Every element of the heap was one of the elements of `s`.
    pub closed spec fn from(&self, s: Seq<Tree>) -> bool {
        forall|j: int| 0 <= j < self.data@.len() ==> s.contains(#[trigger] self.data@[j])
    }

    pub closed spec fn size(&self) -> nat {
        self.data@.len()
    }

    fn sift_down(&mut self, start: usize)
        requires
            start < old(self).data@.len(),
            old(self).data@.len() <= 0x1000,
        ensures
            final(self).data@ == sift_rec(
                old(self).data@,
                old(self).data@[start as int],
                start as int,
                2 * start + 1,
            ),
            final(self).data@.len() == old(self).data@.len(),
            forall|j: int|
                0 <= j < final(self).data@.len() ==> old(self).data@.contains(
                    #[trigger] final(self).data@[j],
                ),
    {
        let ghost orig = self.data@;
        let mut i = start;
        let v = self.data[i];
        let mut child = 2 * i + 1;
        let mut done = false;
        while !done && child < self.data.len()
            invariant
                i < child,
                self.data@.len() == orig.len() <= 0x1000,
                i < self.data@.len(),
                orig.contains(v),
                forall|j: int|
                    0 <= j < self.data@.len() ==> orig.contains(#[trigger] self.data@[j])
                        || self.data@[j] == v,
                sift_rec(self.data@, v, i as int, child as int) == sift_rec(
                    orig,
                    v,
                    start as int,
                    2 * start + 1,
                ),
                done ==> sift_rec(self.data@, v, i as int, child as int) == self.data@.update(
                    i as int,
                    v,
                ),
            decreases
                    (if child < self.data@.len() {
                        self.data@.len() - child
                    } else {
                        0int
                    }),
                    (if done {
                        0int
                    } else {
                        1int
                    }),
        {
            let c0 = if child + 1 < self.data.len() && tree_le(&self.data[child + 1], &self.data[child]) {
                child + 1
            } else {
                child
            };
            let c = self.data[c0];
            if tree_le(&v, &c) {
                done = true;
            } else {
                self.data[i] = c;
                i = c0;
                child = 2 * c0 + 1;
            }
        }
        self.data[i] = v;
    }

    fn new(data: Vec<Tree>) -> (h: Heap)
        requires
            data@.len() <= 0x1000,
        ensures
            h.data@ == heap_make(data@, (data@.len() / 2) as int),
            h.size() == data@.len(),
            h.from(data@),
    {
        let ghost orig = data@;
        let mut heap = Heap { data };
        let n = heap.data.len() / 2;
        let mut i = n;
        while i > 0
            invariant
                i <= n,
                n <= orig.len() / 2,
                heap.data@.len() == orig.len() <= 0x1000,
                heap_make(heap.data@, i as int) == heap_make(orig, n as int),
                forall|j: int|
                    0 <= j < heap.data@.len() ==> orig.contains(#[trigger] heap.data@[j]),
            decreases i,
        {
            i = i - 1;
            heap.sift_down(i);
        }
        heap
    }

    fn len(&self) -> (n: usize)
        ensures
            n == self.size(),
    {
        self.data.len()
    }

    fn min(&self) -> (t: Tree)
        requires
            self.size() >= 1,
        ensures
            t == self.data@[0],
            self.data@.contains(t),
    {
        self.data[0]
    }

    fn remove_min(&mut self) -> (t: Tree)
        requires
            old(self).size() >= 1,
            old(self).size() <= 0x1000,
        ensures
            t == old(self).data@[0],
            final(self).data@ == remove_min_spec(old(self).data@),
            final(self).size() == old(self).size() - 1,
            old(self).data@.contains(t),
            forall|j: int|
                0 <= j < final(self).data@.len() ==> old(self).data@.contains(
                    #[trigger] final(self).data@[j],
                ),
    {
        let ghost orig = self.data@;
        let min = self.data[0];
        let last = match self.data.pop() {
            Some(v) => v,
            None => min,
        };
        if self.data.len() > 0 {
            self.data[0] = last;
            assert(self.data@ =~= orig.drop_last().update(0, orig.last()));
            assert(forall|j: int|
                0 <= j < self.data@.len() ==> orig.contains(#[trigger] self.data@[j]));
            self.sift_down(0);
        } else {
            assert(self.data@ =~= orig.drop_last());
        }
        min
    }

    fn replace_min(&mut self, value: Tree)
        requires
            old(self).size() >= 1,
            old(self).size() <= 0x1000,
        ensures
            final(self).data@ == replace_min_spec(old(self).data@, value),
            final(self).size() == old(self).size(),
            forall|j: int|
                0 <= j < final(self).data@.len() ==> old(self).data@.contains(
                    #[trigger] final(self).data@[j],
                ) || final(self).data@[j] == value,
    {
        self.data[0] = value;
        self.sift_down(0);
    }
}

/// One symbol's code word: its bit length and its already bit-reversed code.
#[derive(Clone, Copy)]
pub struct CodeWord {
    pub length: u8,
    pub code: u16,
}

/// A canonical Huffman code: a code word per symbol, `length == 0` marking an
/// absent symbol, and the index one past the last present symbol.
struct HuffmanCode {
    num_symbols: usize,
    table: Vec<CodeWord>,
}

impl HuffmanCode {
    pub closed spec fn wf(&self) -> bool {
        &&& 1 <= self.num_symbols <= self.table@.len()
        &&& forall|i: int| 0 <= i < self.table@.len() ==> (#[trigger] self.table@[i]).length <= 15
    }

    pub closed spec fn n_codes(&self) -> int {
        self.table@.len() as int
    }

    pub closed spec fn num_spec(&self) -> int {
        self.num_symbols as int
    }
}

/// One step of the bit reversal: shift the lowest bit of `v` into `r`.
pub open spec fn rev16_rec(v: u16, r: u16, i: int) -> u16
    decreases 16 - i,
{
    if i >= 16 {
        r
    } else {
        rev16_rec((v / 2) as u16, ((r % 0x8000) * 2 + v % 2) as u16, i + 1)
    }
}

/// The 16 bits of a value in reverse order.
pub open spec fn rev16_spec(x: u16) -> u16 {
    rev16_rec(x, 0, 0)
}

/// Reverses the 16 bits of a value, as the stream stores code words
/// most-significant Huffman bit first.
fn reverse16(x: u16) -> (r: u16)
    ensures
        r == rev16_spec(x),
{
    let mut v = x;
    let mut r: u16 = 0;
    let mut i: usize = 0;
    while i < 16
        invariant
            i <= 16,
            rev16_rec(v, r, i as int) == rev16_spec(x),
        decreases 16 - i,
    {
        r = (r % 0x8000) * 2 + v % 2;
        v = v / 2;
        i = i + 1;
    }
    r
}

/// The per-length starting codes: entry `l+1` doubles entry `l` plus the
/// count of codes of length `l`, with the 16-bit wrap of the historical
/// encoder.
pub open spec fn nc_build(counts: Seq<u16>, nc: Seq<u16>, i: int) -> Seq<u16>
    decreases counts.len() - i,
{
    if 0 <= i < counts.len() {
        nc_build(counts, nc.update(i + 1, (((nc[i] + counts[i]) * 2) % 0x10000) as u16), i + 1)
    } else {
        nc
    }
}

/// Assigns code words in symbol order: a coded symbol takes the next code of
/// its length, bit-reversed to its width; `ms` tracks the last coded symbol.
pub open spec fn huff_assign(lengths: Seq<u8>, nc: Seq<u16>, table: Seq<CodeWord>, ms: int, j: int) -> (
    Seq<CodeWord>,
    int,
)
    decreases lengths.len() - j,
{
    if 0 <= j < lengths.len() {
        let length = lengths[j];
        if length != 0 {
            let code = rev16_spec(nc[length as int]) >> (((16 - length) as u32));
            huff_assign(
                lengths,
                nc.update(length as int, (((nc[length as int] + 1) % 0x10000) as u16)),
                table.update(j, CodeWord { length, code }),
                j,
                j + 1,
            )
        } else {
            huff_assign(lengths, nc, table, ms, j + 1)
        }
    } else {
        (table, ms)
    }
}

/// The canonical code for the given lengths and length counts: the table of
/// code words, and the index of the last coded symbol.
pub open spec fn huff_new_spec(lengths: Seq<u8>, counts: Seq<u16>) -> (Seq<CodeWord>, int) {
    let nc = nc_build(counts, Seq::new(counts.len() + 1, |k: int| 0u16), 0);
    huff_assign(
        lengths,
        nc,
        Seq::new(lengths.len(), |k: int| CodeWord { length: 0, code: 0 }),
        0,
        0,
    )
}

/// Builds the canonical code for the given per-symbol bit lengths, given how
/// many symbols use each length: codes of equal length are numbered in symbol
/// order, starting where the shorter codes end.
fn huff_new(lengths: &Vec<u8>, length_counts: &Vec<u16>) -> (c: HuffmanCode)
    requires
        1 <= lengths@.len(),
        length_counts@.len() <= 16,
        forall|i: int|
            0 <= i < lengths@.len() ==> (#[trigger] lengths@[i]) <= 15 && (lengths@[i] as int)
                < length_counts@.len() + 1,
    ensures
        c.table@ == huff_new_spec(lengths@, length_counts@).0,
        c.num_symbols as int == huff_new_spec(lengths@, length_counts@).1 + 1,
        c.wf(),
        c.n_codes() == lengths@.len(),
        forall|i: int|
            0 <= i < lengths@.len() ==> (#[trigger] c.table@[i]).length == lengths@[i],
{
    let n = length_counts.len();
    let mut next_code: Vec<u16> = vec![0u16; n + 1];
    assert(next_code@ =~= Seq::new(length_counts@.len() + 1, |k: int| 0u16));
    let mut i: usize = 0;
    while i < n
        invariant
            i <= n,
            next_code@.len() == n + 1,
            length_counts@.len() == n,
            nc_build(length_counts@, next_code@, i as int) == nc_build(
                length_counts@,
                Seq::new(length_counts@.len() + 1, |k: int| 0u16),
                0,
            ),
        decreases n - i,
    {
        let s: u32 = next_code[i] as u32 + length_counts[i] as u32;
        next_code[i + 1] = ((s * 2) % 0x10000) as u16;
        i = i + 1;
    }
    let ghost nc0 = next_code@;

    let mut table: Vec<CodeWord> = vec![CodeWord { length: 0, code: 0 }; lengths.len()];
    assert(table@ =~= Seq::new(lengths@.len(), |k: int| CodeWord { length: 0, code: 0 }));
    let mut max_symbol: usize = 0;
    let mut j: usize = 0;
    while j < lengths.len()
        invariant
            j <= lengths@.len(),
            1 <= lengths@.len(),
            table@.len() == lengths@.len(),
            next_code@.len() == n + 1,
            length_counts@.len() == n,
            max_symbol < lengths@.len(),
            forall|k: int|
                0 <= k < lengths@.len() ==> (#[trigger] lengths@[k]) <= 15 && (lengths@[k] as int)
                    < n + 1,
            forall|k: int|
                0 <= k < j ==> (#[trigger] table@[k]).length == lengths@[k],
            forall|k: int| j <= k < lengths@.len() ==> (#[trigger] table@[k]).length == 0,
            huff_assign(lengths@, next_code@, table@, max_symbol as int, j as int) == huff_assign(
                lengths@,
                nc0,
                Seq::new(lengths@.len(), |k: int| CodeWord { length: 0, code: 0 }),
                0,
                0,
            ),
        decreases lengths@.len() - j,
    {
        let length = lengths[j];
        if length != 0 {
            let idx = length as usize;
            let code = reverse16(next_code[idx]) >> (16 - length as u32);
            table[j] = CodeWord { length, code };
            next_code[idx] = ((next_code[idx] as u32 + 1) % 0x10000) as u16;
            max_symbol = j;
        }
        j = j + 1;
    }

    HuffmanCode { num_symbols: max_symbol + 1, table }
}

/// A node of the Huffman tree under construction: its symbol (absent for
/// internal nodes) and its parent, filled in as subtrees are combined.
#[derive(Clone, Copy)]
pub struct Node {
    pub symbol: Option<u16>,
    pub parent: Option<usize>,
}

pub open spec fn bump16_spec(c: u16) -> u16 {
    if c < 0xFFFF {
        (c + 1) as u16
    } else {
        c
    }
}

fn bump16(c: u16) -> (r: u16)
    ensures
        r == bump16_spec(c),
{
    if c < 0xFFFF {
        c + 1
    } else {
        c
    }
}

/// One leaf node and subtree per symbol with a nonzero frequency, in symbol
/// order; `ms` is the last symbol seen.
pub open spec fn leaves(freqs: Seq<u16>, nodes: Seq<Node>, trees: Seq<Tree>, ms: u16, i: int) -> (
    Seq<Node>,
    Seq<Tree>,
    u16,
)
    decreases freqs.len() - i,
{
    if 0 <= i < freqs.len() {
        if freqs[i] != 0 {
            leaves(
                freqs,
                nodes.push(Node { symbol: Some(i as u16), parent: None }),
                trees.push(Tree { root: nodes.len() as usize, freq: freqs[i] as u64, depth: 0 }),
                i as u16,
                i + 1,
            )
        } else {
            leaves(freqs, nodes, trees, ms, i + 1)
        }
    } else {
        (nodes, trees, ms)
    }
}

/// Pads the leaves so that at least two symbols exist, as the historical
/// encoder did: the lowest unused symbols at frequency one.
pub open spec fn pad2(nodes: Seq<Node>, trees: Seq<Tree>, ms: u16) -> (Seq<Node>, Seq<Tree>, u16)
    decreases
            (if nodes.len() < 2 {
                2 - nodes.len()
            } else {
                0int
            }),
{
    if nodes.len() >= 2 {
        (nodes, trees, ms)
    } else {
        let ms2: u16 = if ms < 2 {
            (ms + 1) as u16
        } else {
            ms
        };
        let sym: u16 = if ms < 2 {
            (ms + 1) as u16
        } else {
            0u16
        };
        pad2(
            nodes.push(Node { symbol: Some(sym), parent: None }),
            trees.push(Tree { root: nodes.len() as usize, freq: 1, depth: 0 }),
            ms2,
        )
    }
}

/// The tree-combining rounds: remove the two least subtrees, record their
/// roots, and put the combined subtree back, until one remains.
pub open spec fn rounds(nodes: Seq<Node>, heap: Seq<Tree>, sorted: Seq<usize>) -> (
    Seq<Node>,
    Seq<Tree>,
    Seq<usize>,
)
    decreases heap.len(),
    via rounds_decreases
{
    if heap.len() <= 1 {
        (nodes, heap, sorted)
    } else {
        let node1 = heap[0];
        let h1 = remove_min_spec(heap);
        let node2 = h1[0];
        let new_node = nodes.len() as usize;
        let nodes1 = nodes.push(Node { symbol: None, parent: None });
        let n1r = node1.root as int;
        let nodes2 = nodes1.update(
            n1r,
            Node { symbol: nodes1[n1r].symbol, parent: Some(new_node) },
        );
        let n2r = node2.root as int;
        let nodes3 = nodes2.update(
            n2r,
            Node { symbol: nodes2[n2r].symbol, parent: Some(new_node) },
        );
        let depth = sat_add_spec(
            if node1.depth >= node2.depth {
                node1.depth
            } else {
                node2.depth
            },
            1,
        );
        let nt = Tree { root: new_node, freq: sat_add_spec(node1.freq, node2.freq), depth };
        rounds(nodes3, replace_min_spec(h1, nt), sorted.push(node1.root).push(node2.root))
    }
}

#[via_fn]
proof fn rounds_decreases(nodes: Seq<Node>, heap: Seq<Tree>, sorted: Seq<usize>) {
    if heap.len() > 1 {
        let node1 = heap[0];
        let h1 = remove_min_spec(heap);
        let d1 = heap.drop_last();
        lemma_sift_rec_len(d1.update(0, heap.last()), d1.update(0, heap.last())[0], 0, 1);
        let node2 = h1[0];
        let new_node = nodes.len() as usize;
        let nt_len = h1.len();
        assert(nt_len == heap.len() - 1);
        let nt = Tree {
            root: new_node,
            freq: sat_add_spec(node1.freq, node2.freq),
            depth: sat_add_spec(
                if node1.depth >= node2.depth {
                    node1.depth
                } else {
                    node2.depth
                },
                1,
            ),
        };
        lemma_sift_rec_len(h1.update(0, nt), h1.update(0, nt)[0], 0, 1);
    }
}

/// Walks the recorded roots newest first, giving each node one more bit than
/// its parent, capped at `maxl`, and counting the overflows; leaves record
/// their length per symbol and per length.
pub open spec fn assign_lens(
    nodes: Seq<Node>,
    sorted: Seq<usize>,
    nl: Seq<u8>,
    sl: Seq<u8>,
    counts: Seq<u16>,
    ovf: int,
    maxl: int,
    k: int,
) -> (Seq<u8>, Seq<u8>, Seq<u16>, int)
    decreases k,
{
    if k <= 0 {
        (nl, sl, counts, ovf)
    } else {
        let k1 = k - 1;
        let id = sorted[k1] as int;
        let nd = nodes[id];
        let length: u8 = match nd.parent {
            Some(par) => {
                if nl[par as int] + 1 > maxl {
                    maxl as u8
                } else {
                    (nl[par as int] + 1) as u8
                }
            },
            None => 0u8,
        };
        let ovf1: int = match nd.parent {
            Some(par) => {
                if nl[par as int] + 1 > maxl {
                    ovf + 1
                } else {
                    ovf
                }
            },
            None => ovf,
        };
        let nl1 = nl.update(id, length);
        match nd.symbol {
            Some(sym) => assign_lens(
                nodes,
                sorted,
                nl1,
                sl.update(sym as int, length),
                counts.update(length as int, bump16_spec(counts[length as int])),
                ovf1,
                maxl,
                k1,
            ),
            None => assign_lens(nodes, sorted, nl1, sl, counts, ovf1, maxl, k1),
        }
    }
}

/// One redistribution step: take a code from the deepest occupied level
/// below the cap, put two a level deeper, and drop one from the cap level.
pub open spec fn adjust_once(counts: Seq<u16>, maxl: int, l: int) -> Seq<u16>
    decreases l,
{
    if l <= 0 {
        counts
    } else {
        let l1 = l - 1;
        if counts[l1] > 0 {
            let c1 = counts.update(l1, (counts[l1] - 1) as u16);
            let c2 = c1.update(l1 + 1, bump16_spec(bump16_spec(c1[l1 + 1])));
            if c2[maxl] > 0 {
                c2.update(maxl, (c2[maxl] - 1) as u16)
            } else {
                c2
            }
        } else {
            adjust_once(counts, maxl, l1)
        }
    }
}

/// The redistribution, one step per overflowed pair.
pub open spec fn adjust(counts: Seq<u16>, maxl: int, iters: int) -> Seq<u16>
    decreases iters,
{
    if iters <= 0 {
        counts
    } else {
        adjust(adjust_once(counts, maxl, maxl), maxl, iters - 1)
    }
}

/// Regeneration, inner walk: assign length `l` to the next `cnt` leaves of
/// the recorded roots, skipping internal nodes.
pub open spec fn regen_inner(
    nodes: Seq<Node>,
    sorted: Seq<usize>,
    sl: Seq<u8>,
    l: int,
    cnt: int,
    idx: int,
) -> (Seq<u8>, int)
    decreases cnt, sorted.len() - idx,
{
    if cnt <= 0 || idx < 0 || idx >= sorted.len() {
        (sl, idx)
    } else {
        let id = sorted[idx] as int;
        match nodes[id].symbol {
            Some(sym) => regen_inner(
                nodes,
                sorted,
                sl.update(sym as int, l as u8),
                l,
                cnt - 1,
                idx + 1,
            ),
            None => regen_inner(nodes, sorted, sl, l, cnt, idx + 1),
        }
    }
}

/// Regeneration after redistribution: walk the lengths from deepest to
/// shallowest, handing each its adjusted count of leaves in frequency order.
pub open spec fn regen(
    nodes: Seq<Node>,
    sorted: Seq<usize>,
    sl: Seq<u8>,
    counts: Seq<u16>,
    l: int,
    idx: int,
) -> Seq<u8>
    decreases l,
{
    if l <= 0 {
        sl
    } else {
        let l1 = l - 1;
        let p = regen_inner(nodes, sorted, sl, l1, counts[l1] as int, idx);
        regen(nodes, sorted, p.0, counts, l1, p.1)
    }
}

/// The whole dynamic Huffman construction as a function of the frequencies
/// and the length cap: the table of code words and the symbol count.
pub open spec fn create_dynamic_spec(freqs: Seq<u16>, maxl: int) -> (Seq<CodeWord>, int) {
    let la = leaves(freqs, Seq::empty(), Seq::empty(), 0u16, 0);
    let pb = pad2(la.0, la.1, la.2);
    let h0 = heap_make(pb.1, (pb.1.len() / 2) as int);
    let rc = rounds(pb.0, h0, Seq::empty());
    let sorted = rc.2.push(rc.1[0].root);
    let ad = assign_lens(
        rc.0,
        sorted,
        Seq::new(rc.0.len(), |k: int| 0u8),
        Seq::new(freqs.len(), |k: int| 0u8),
        Seq::new((maxl + 1) as nat, |k: int| 0u16),
        0,
        maxl,
        sorted.len() as int,
    );
    let slf = if ad.3 > 0 {
        let ce = adjust(ad.2, maxl, (ad.3 + 1) / 2);
        (regen(rc.0, sorted, ad.1, ce, maxl + 1, 0), ce)
    } else {
        (ad.1, ad.2)
    };
    let h = huff_new_spec(slf.0, slf.1);
    (h.0, h.1 + 1)
}

/// Builds a Huffman code for the given symbol frequencies, with code lengths
/// capped at `max_length`: combine the two least-frequent subtrees until one
/// remains (padding to at least two symbols), assign depths, then redistribute
/// any lengths that overflowed the cap and renumber canonically.
fn create_dynamic(freqs: &Vec<u16>, max_length: usize) -> (c: HuffmanCode)
    requires
        3 <= freqs@.len() <= 286,
        1 <= max_length <= 15,
    ensures
        (c.table@, c.num_symbols as int) == create_dynamic_spec(freqs@, max_length as int),
        c.wf(),
        c.n_codes() == freqs@.len(),
        c.num_spec() <= freqs@.len(),
        forall|i: int|
            0 <= i < freqs@.len() ==> (#[trigger] c.table@[i]).length as int <= max_length,
{
    let num_symbols = freqs.len();
    let ghost la = leaves(freqs@, Seq::empty(), Seq::empty(), 0u16, 0);

    let mut nodes: Vec<Node> = Vec::new();
    let mut trees: Vec<Tree> = Vec::new();
    let mut max_symbol: u16 = 0;
    let mut i: usize = 0;
    while i < num_symbols
        invariant
            i <= num_symbols == freqs@.len() <= 286,
            nodes@.len() == trees@.len() <= i,
            (max_symbol as int) < num_symbols,
            forall|j: int| 0 <= j < trees@.len() ==> (#[trigger] trees@[j]).root == j,
            forall|j: int| 0 <= j < nodes@.len() ==> (#[trigger] nodes@[j]).parent is None,
            forall|j: int|
                0 <= j < nodes@.len() ==> ((#[trigger] nodes@[j]).symbol matches Some(s)
                    ==> (s as int) < num_symbols),
            leaves(freqs@, nodes@, trees@, max_symbol, i as int) == la,
        decreases num_symbols - i,
    {
        let f = freqs[i];
        if f != 0 {
            let id = nodes.len();
            nodes.push(Node { symbol: Some(i as u16), parent: None });
            trees.push(Tree { root: id, freq: f as u64, depth: 0 });
            max_symbol = i as u16;
        }
        i = i + 1;
    }

    proof {
        assert(nodes@ =~= la.0 && trees@ =~= la.1 && max_symbol == la.2);
    }
    let ghost pb = pad2(la.0, la.1, la.2);

    // pad so that at least two symbols exist
    while nodes.len() < 2
        invariant
            num_symbols == freqs@.len(),
            3 <= freqs@.len() <= 286,
            nodes@.len() == trees@.len() <= 286,
            (max_symbol as int) < num_symbols,
            forall|j: int| 0 <= j < trees@.len() ==> (#[trigger] trees@[j]).root == j,
            forall|j: int| 0 <= j < nodes@.len() ==> (#[trigger] nodes@[j]).parent is None,
            forall|j: int|
                0 <= j < nodes@.len() ==> ((#[trigger] nodes@[j]).symbol matches Some(s)
                    ==> (s as int) < num_symbols),
            pad2(nodes@, trees@, max_symbol) == pb,
        decreases 2 - nodes@.len(),
    {
        let new_symbol: u16 = if max_symbol < 2 {
            max_symbol = max_symbol + 1;
            max_symbol
        } else {
            0
        };
        let id = nodes.len();
        nodes.push(Node { symbol: Some(new_symbol), parent: None });
        trees.push(Tree { root: id, freq: 1, depth: 0 });
    }

    proof {
        assert(nodes@ =~= pb.0 && trees@ =~= pb.1 && max_symbol == pb.2);
    }
    let ghost n0 = nodes@.len() as int;
    let mut heap = Heap::new(trees);
    let ghost h0 = heap_make(pb.1, (pb.1.len() / 2) as int);
    let ghost rc = rounds(pb.0, h0, Seq::empty());
    let mut sorted: Vec<usize> = Vec::new();

    while heap.len() > 1
        invariant
            num_symbols == freqs@.len(),
            1 <= heap.size(),
            2 <= n0 <= 286,
            nodes@.len() + heap.size() == 2 * n0,
            sorted@.len() == 2 * (nodes@.len() - n0),
            n0 <= nodes@.len(),
            forall|j: int|
                0 <= j < heap.data@.len() ==> (#[trigger] heap.data@[j]).root < nodes@.len(),
            forall|j: int| 0 <= j < sorted@.len() ==> (#[trigger] sorted@[j]) < nodes@.len(),
            forall|j: int|
                0 <= j < nodes@.len() ==> ((#[trigger] nodes@[j]).parent matches Some(p)
                    ==> p < nodes@.len()),
            forall|j: int|
                0 <= j < nodes@.len() ==> ((#[trigger] nodes@[j]).symbol matches Some(s)
                    ==> (s as int) < num_symbols),
            rounds(nodes@, heap.data@, sorted@) == rc,
        decreases heap.size(),
    {
        let node1 = heap.remove_min();
        let node2 = heap.min();

        sorted.push(node1.root);
        sorted.push(node2.root);

        let new_node = nodes.len();
        nodes.push(Node { symbol: None, parent: None });
        let n1 = nodes[node1.root];
        nodes[node1.root] = Node { symbol: n1.symbol, parent: Some(new_node) };
        let n2 = nodes[node2.root];
        nodes[node2.root] = Node { symbol: n2.symbol, parent: Some(new_node) };

        let d1 = node1.depth;
        let d2 = node2.depth;
        let depth = sat_add_u64(if d1 >= d2 { d1 } else { d2 }, 1);
        let new_tree = Tree { root: new_node, freq: sat_add_u64(node1.freq, node2.freq), depth };
        heap.replace_min(new_tree);
    }
    proof {
        assert(nodes@ =~= rc.0 && heap.data@ =~= rc.1 && sorted@ =~= rc.2);
    }
    let top = heap.min();
    sorted.push(top.root);
    let ghost sorted_d = rc.2.push(rc.1[0].root);
    let ghost ad = assign_lens(
        rc.0,
        sorted_d,
        Seq::new(rc.0.len(), |k: int| 0u8),
        Seq::new(freqs@.len(), |k: int| 0u8),
        Seq::new((max_length + 1) as nat, |k: int| 0u16),
        0,
        max_length as int,
        sorted_d.len() as int,
    );

    // assign bit lengths, counting codes that overflow the cap
    let mut node_lengths: Vec<u8> = vec![0u8; nodes.len()];
    let mut symbol_lengths: Vec<u8> = vec![0u8; num_symbols];
    let mut length_counts: Vec<u16> = vec![0u16; max_length + 1];
    let mut overflow: usize = 0;

    proof {
        assert(node_lengths@ =~= Seq::new(rc.0.len(), |j: int| 0u8));
        assert(symbol_lengths@ =~= Seq::new(freqs@.len(), |j: int| 0u8));
        assert(length_counts@ =~= Seq::new((max_length + 1) as nat, |j: int| 0u16));
        assert(sorted@ =~= sorted_d);
    }
    let mut k = sorted.len();
    while k > 0
        invariant
            k <= sorted@.len(),
            node_lengths@.len() == nodes@.len(),
            symbol_lengths@.len() == num_symbols,
            length_counts@.len() == max_length + 1,
            1 <= max_length <= 15,
            overflow <= sorted@.len() - k,
            sorted@.len() <= usize::MAX,
            forall|j: int| 0 <= j < sorted@.len() ==> (#[trigger] sorted@[j]) < nodes@.len(),
            forall|j: int|
                0 <= j < nodes@.len() ==> ((#[trigger] nodes@[j]).parent matches Some(p)
                    ==> p < nodes@.len()),
            forall|j: int|
                0 <= j < nodes@.len() ==> ((#[trigger] nodes@[j]).symbol matches Some(s)
                    ==> (s as int) < num_symbols),
            forall|j: int|
                0 <= j < node_lengths@.len() ==> (#[trigger] node_lengths@[j]) as int
                    <= max_length,
            forall|j: int|
                0 <= j < symbol_lengths@.len() ==> (#[trigger] symbol_lengths@[j]) as int
                    <= max_length,
            nodes@ == rc.0,
            sorted@ == sorted_d,
            assign_lens(
                rc.0,
                sorted_d,
                node_lengths@,
                symbol_lengths@,
                length_counts@,
                overflow as int,
                max_length as int,
                k as int,
            ) == ad,
        decreases k,
    {
        k = k - 1;
        let id = sorted[k];
        let nd = nodes[id];
        let mut length: u8 = 0;
        match nd.parent {
            Some(par) => {
                let li = node_lengths[par] as usize + 1;
                if li > max_length {
                    length = max_length as u8;
                    overflow = overflow + 1;
                } else {
                    length = li as u8;
                }
            },
            None => {},
        }
        node_lengths[id] = length;
        match nd.symbol {
            Some(sym) => {
                symbol_lengths[sym as usize] = length;
                let c = length_counts[length as usize];
                length_counts[length as usize] = bump16(c);
            },
            None => {},
        }
    }

    proof {
        assert(symbol_lengths@ == ad.1 && length_counts@ == ad.2 && overflow as int == ad.3);
    }
    if overflow > 0 {
        // redistribute: move a code up from the deepest shorter level, twice
        // per overflowed pair
        let iters = (overflow + 1) / 2;
        let ghost ce = adjust(ad.2, max_length as int, iters as int);
        let mut it: usize = 0;
        while it < iters
            invariant
                it <= iters,
                length_counts@.len() == max_length + 1,
                1 <= max_length <= 15,
                adjust(length_counts@, max_length as int, (iters - it) as int) == ce,
            decreases iters - it,
        {
            let ghost centry = length_counts@;
            let mut l = max_length;
            let mut moved = false;
            while l > 0 && !moved
                invariant
                    l <= max_length <= 15,
                    length_counts@.len() == max_length + 1,
                    moved ==> length_counts@ == adjust_once(centry, max_length as int,
                    max_length as int),
                    !moved ==> length_counts@ == centry && adjust_once(
                        length_counts@,
                        max_length as int,
                        l as int,
                    ) == adjust_once(centry, max_length as int, max_length as int),
                decreases l,
            {
                l = l - 1;
                if length_counts[l] > 0 {
                    length_counts[l] = length_counts[l] - 1;
                    let c1 = length_counts[l + 1];
                    length_counts[l + 1] = bump16(bump16(c1));
                    if length_counts[max_length] > 0 {
                        length_counts[max_length] = length_counts[max_length] - 1;
                    }
                    moved = true;
                }
            }
            it = it + 1;
        }

        proof {
            assert(length_counts@ == ce);
        }
        let ghost fr = regen(rc.0, sorted_d, ad.1, ce, max_length + 1 as int, 0);

        // regenerate the per-symbol lengths in frequency order
        let mut idx: usize = 0;
        let mut l = max_length + 1;
        while l > 0
            invariant
                l <= max_length + 1,
                idx <= sorted@.len(),
                length_counts@.len() == max_length + 1,
                symbol_lengths@.len() == num_symbols,
                1 <= max_length <= 15,
                forall|j: int| 0 <= j < sorted@.len() ==> (#[trigger] sorted@[j]) < nodes@.len(),
                forall|j: int|
                    0 <= j < nodes@.len() ==> ((#[trigger] nodes@[j]).symbol matches Some(s)
                        ==> (s as int) < num_symbols),
                forall|j: int|
                    0 <= j < symbol_lengths@.len() ==> (#[trigger] symbol_lengths@[j]) as int
                        <= max_length,
                nodes@ == rc.0,
                sorted@ == sorted_d,
                length_counts@ == ce,
                regen(rc.0, sorted_d, symbol_lengths@, ce, l as int, idx as int) == fr,
            decreases l,
        {
            l = l - 1;
            let mut cnt = length_counts[l];
            let ghost slentry = symbol_lengths@;
            let ghost identry = idx as int;
            while cnt > 0 && idx < sorted.len()
                invariant
                    idx <= sorted@.len(),
                    l <= max_length,
                    symbol_lengths@.len() == num_symbols,
                    forall|j: int|
                        0 <= j < sorted@.len() ==> (#[trigger] sorted@[j]) < nodes@.len(),
                    forall|j: int|
                        0 <= j < nodes@.len() ==> ((#[trigger] nodes@[j]).symbol matches Some(s)
                            ==> (s as int) < num_symbols),
                    forall|j: int|
                        0 <= j < symbol_lengths@.len() ==> (#[trigger] symbol_lengths@[j]) as int
                            <= max_length,
                    nodes@ == rc.0,
                    sorted@ == sorted_d,
                    l <= max_length <= 15,
                    ce.len() == max_length + 1,
                    length_counts@ == ce,
                    regen_inner(
                        rc.0,
                        sorted_d,
                        symbol_lengths@,
                        l as int,
                        cnt as int,
                        idx as int,
                    ) == regen_inner(rc.0, sorted_d, slentry, l as int, ce[l as int] as int,
                    identry),
                decreases cnt, sorted@.len() - idx,
            {
                let id = sorted[idx];
                idx = idx + 1;
                match nodes[id].symbol {
                    Some(sym) => {
                        symbol_lengths[sym as usize] = l as u8;
                        cnt = cnt - 1;
                    },
                    None => {},
                }
            }
        }
    }

    proof {
        let slf = if ad.3 > 0 {
            (regen(rc.0, sorted_d, ad.1, adjust(ad.2, max_length as int, (ad.3 + 1) / 2),
            max_length + 1 as int, 0), adjust(ad.2, max_length as int, (ad.3 + 1) / 2))
        } else {
            (ad.1, ad.2)
        };
        assert(symbol_lengths@ == slf.0 && length_counts@ == slf.1);
    }
    huff_new(&symbol_lengths, &length_counts)
}

/// The literal/length symbol for a stored match length (the true length
/// minus 3), with the symbol's extra-bit count and base value.
pub open spec fn length_sym_parts_spec(length: u8) -> (usize, u8, u8) {
    if length < 8 {
        (((257 + length) as usize), 0, length)
    } else if length < 10 {
        (265, 1, 8)
    } else if length < 12 {
        (266, 1, 10)
    } else if length < 14 {
        (267, 1, 12)
    } else if length < 16 {
        (268, 1, 14)
    } else if length < 20 {
        (269, 2, 16)
    } else if length < 24 {
        (270, 2, 20)
    } else if length < 28 {
        (271, 2, 24)
    } else if length < 32 {
        (272, 2, 28)
    } else if length < 40 {
        (273, 3, 32)
    } else if length < 48 {
        (274, 3, 40)
    } else if length < 56 {
        (275, 3, 48)
    } else if length < 64 {
        (276, 3, 56)
    } else if length < 80 {
        (277, 4, 64)
    } else if length < 96 {
        (278, 4, 80)
    } else if length < 112 {
        (279, 4, 96)
    } else if length < 128 {
        (280, 4, 112)
    } else if length < 160 {
        (281, 5, 128)
    } else if length < 192 {
        (282, 5, 160)
    } else if length < 224 {
        (283, 5, 192)
    } else if length < 255 {
        (284, 5, 224)
    } else {
        (285, 0, 255)
    }
}


/// The literal/length symbol for a stored match length (the true length
/// minus 3), with the symbol's extra-bit count and base value.
fn length_sym_parts(length: u8) -> (r: (usize, u8, u8))
    ensures
        r == length_sym_parts_spec(length),
        257 <= r.0 <= 285,
        r.1 <= 5,
        r.2 <= length,
{
    if length < 8 {
        (257 + length as usize, 0, length)
    } else if length < 10 {
        (265, 1, 8)
    } else if length < 12 {
        (266, 1, 10)
    } else if length < 14 {
        (267, 1, 12)
    } else if length < 16 {
        (268, 1, 14)
    } else if length < 20 {
        (269, 2, 16)
    } else if length < 24 {
        (270, 2, 20)
    } else if length < 28 {
        (271, 2, 24)
    } else if length < 32 {
        (272, 2, 28)
    } else if length < 40 {
        (273, 3, 32)
    } else if length < 48 {
        (274, 3, 40)
    } else if length < 56 {
        (275, 3, 48)
    } else if length < 64 {
        (276, 3, 56)
    } else if length < 80 {
        (277, 4, 64)
    } else if length < 96 {
        (278, 4, 80)
    } else if length < 112 {
        (279, 4, 96)
    } else if length < 128 {
        (280, 4, 112)
    } else if length < 160 {
        (281, 5, 128)
    } else if length < 192 {
        (282, 5, 160)
    } else if length < 224 {
        (283, 5, 192)
    } else if length < 255 {
        (284, 5, 224)
    } else {
        (285, 0, 255)
    }
}

/// The distance symbol for a stored match distance (the true distance minus
/// 1), with the symbol's extra-bit count and base value.
pub open spec fn dist_sym_parts_spec(distance: u16) -> (usize, u8, u16) {
    if distance < 4 {
        (distance as usize, 0, distance)
    } else if distance < 6 {
        (4, 1, 4)
    } else if distance < 8 {
        (5, 1, 6)
    } else if distance < 12 {
        (6, 2, 8)
    } else if distance < 16 {
        (7, 2, 12)
    } else if distance < 24 {
        (8, 3, 16)
    } else if distance < 32 {
        (9, 3, 24)
    } else if distance < 48 {
        (10, 4, 32)
    } else if distance < 64 {
        (11, 4, 48)
    } else if distance < 96 {
        (12, 5, 64)
    } else if distance < 128 {
        (13, 5, 96)
    } else if distance < 192 {
        (14, 6, 128)
    } else if distance < 256 {
        (15, 6, 192)
    } else if distance < 384 {
        (16, 7, 256)
    } else if distance < 512 {
        (17, 7, 384)
    } else if distance < 768 {
        (18, 8, 512)
    } else if distance < 1024 {
        (19, 8, 768)
    } else if distance < 1536 {
        (20, 9, 1024)
    } else if distance < 2048 {
        (21, 9, 1536)
    } else if distance < 3072 {
        (22, 10, 2048)
    } else if distance < 4096 {
        (23, 10, 3072)
    } else if distance < 6144 {
        (24, 11, 4096)
    } else if distance < 8192 {
        (25, 11, 6144)
    } else if distance < 12288 {
        (26, 12, 8192)
    } else if distance < 16384 {
        (27, 12, 12288)
    } else if distance < 24576 {
        (28, 13, 16384)
    } else {
        (29, 13, 24576)
    }
}


/// The distance symbol for a stored match distance (the true distance minus
/// 1), with the symbol's extra-bit count and base value.
fn dist_sym_parts(distance: u16) -> (r: (usize, u8, u16))
    ensures
        r == dist_sym_parts_spec(distance),
        r.0 <= 29,
        r.1 <= 13,
        r.2 <= distance,
{
    if distance < 4 {
        (distance as usize, 0, distance)
    } else if distance < 6 {
        (4, 1, 4)
    } else if distance < 8 {
        (5, 1, 6)
    } else if distance < 12 {
        (6, 2, 8)
    } else if distance < 16 {
        (7, 2, 12)
    } else if distance < 24 {
        (8, 3, 16)
    } else if distance < 32 {
        (9, 3, 24)
    } else if distance < 48 {
        (10, 4, 32)
    } else if distance < 64 {
        (11, 4, 48)
    } else if distance < 96 {
        (12, 5, 64)
    } else if distance < 128 {
        (13, 5, 96)
    } else if distance < 192 {
        (14, 6, 128)
    } else if distance < 256 {
        (15, 6, 192)
    } else if distance < 384 {
        (16, 7, 256)
    } else if distance < 512 {
        (17, 7, 384)
    } else if distance < 768 {
        (18, 8, 512)
    } else if distance < 1024 {
        (19, 8, 768)
    } else if distance < 1536 {
        (20, 9, 1024)
    } else if distance < 2048 {
        (21, 9, 1536)
    } else if distance < 3072 {
        (22, 10, 2048)
    } else if distance < 4096 {
        (23, 10, 3072)
    } else if distance < 6144 {
        (24, 11, 4096)
    } else if distance < 8192 {
        (25, 11, 6144)
    } else if distance < 12288 {
        (26, 12, 8192)
    } else if distance < 16384 {
        (27, 12, 12288)
    } else if distance < 24576 {
        (28, 13, 16384)
    } else {
        (29, 13, 24576)
    }
}

/// The extra-bit count of a literal/length symbol.
pub open spec fn l_extra_of_spec(sym: usize) -> u8 {
    if sym < 265 {
        0
    } else if sym < 269 {
        1
    } else if sym < 273 {
        2
    } else if sym < 277 {
        3
    } else if sym < 281 {
        4
    } else if sym < 285 {
        5
    } else {
        0
    }
}


fn l_extra_of(sym: usize) -> (e: u8)
    ensures
        e == l_extra_of_spec(sym),
        e <= 5,
{
    if sym < 265 {
        0
    } else if sym < 269 {
        1
    } else if sym < 273 {
        2
    } else if sym < 277 {
        3
    } else if sym < 281 {
        4
    } else if sym < 285 {
        5
    } else {
        0
    }
}

/// The extra-bit count of a distance symbol.
pub open spec fn d_extra_of_spec(sym: usize) -> u8 {
    if sym < 4 {
        0
    } else if sym < 30 {
        ((sym - 2) / 2) as u8
    } else {
        0
    }
}


fn d_extra_of(sym: usize) -> (e: u8)
    ensures
        e == d_extra_of_spec(sym),
        e <= 13,
{
    if sym < 4 {
        0
    } else if sym < 30 {
        ((sym - 2) / 2) as u8
    } else {
        0
    }
}

/// The extra-bit count of a code-length symbol: 2, 3 and 7 for the three
/// repeat symbols, none otherwise.
pub open spec fn b_extra_of_spec(sym: usize) -> u8 {
    if sym == 16 {
        2
    } else if sym == 17 {
        3
    } else if sym == 18 {
        7
    } else {
        0
    }
}

/// The extra-bit count of a code-length symbol: 2, 3 and 7 for the three
/// repeat symbols, none otherwise.
fn b_extra_of(sym: usize) -> (e: u8)
    ensures
        e == b_extra_of_spec(sym),
        e <= 7,
{
    if sym == 16 {
        2
    } else if sym == 17 {
        3
    } else if sym == 18 {
        7
    } else {
        0
    }
}

/// A run-length element of the code-length metadata stream: a plain length,
/// a repeat of the previous length (3 to 6 times), or a run of zeros (3 to 10
/// or 11 to 138 times).
#[derive(Clone, Copy)]
pub enum CodeElement {
    Length { length: u8 },
    RepeatPrev { repeat: u8 },
    RepeatZero3Bits { repeat: u8 },
    RepeatZero7Bits { repeat: u8 },
}

/// A token of the block body: a literal byte, the end-of-block marker, or a
/// back-reference storing its length minus 3 and its distance minus 1.
#[derive(Clone, Copy)]
pub enum DataElement {
    Literal { value: u8 },
    End,
    Match { length: u8, distance: u16 },
}

/// The fields a code element must satisfy so that its bits can be written.
spec fn ce_wf(e: CodeElement) -> bool {
    match e {
        CodeElement::Length { length } => length < 19,
        CodeElement::RepeatPrev { repeat } => 3 <= repeat,
        CodeElement::RepeatZero3Bits { repeat } => 3 <= repeat,
        CodeElement::RepeatZero7Bits { repeat } => 11 <= repeat,
    }
}

/// What writing one symbol appends: its code word's bits.
pub open spec fn sym_bits(s: OsView, table: Seq<CodeWord>, symbol: int) -> OsView {
    os_write_bits(s, table[symbol].code, table[symbol].length)
}

/// Writes one symbol's code word.
fn write_symbol(output: &mut OutputStream, code: &HuffmanCode, symbol: usize)
    requires
        old(output).wf(),
        code.wf(),
        (symbol as int) < code.n_codes(),
    ensures
        final(output).wf(),
        final(output).os() == sym_bits(old(output).os(), code.table@, symbol as int),
{
    let w = code.table[symbol];
    output.write_bits(w.code, w.length);
}

/// What one code-length metadata element appends: its symbol's code word and
/// the repeat count's extra bits.
pub open spec fn ce_bits(s: OsView, e: CodeElement, bt: Seq<CodeWord>) -> OsView {
    match e {
        CodeElement::Length { length } => sym_bits(s, bt, length as int),
        CodeElement::RepeatPrev { repeat } => os_write_bits(
            sym_bits(s, bt, 16),
            (repeat - 3) as u16,
            2,
        ),
        CodeElement::RepeatZero3Bits { repeat } => os_write_bits(
            sym_bits(s, bt, 17),
            (repeat - 3) as u16,
            3,
        ),
        CodeElement::RepeatZero7Bits { repeat } => os_write_bits(
            sym_bits(s, bt, 18),
            (repeat - 11) as u16,
            7,
        ),
    }
}

/// The code-length metadata stream from element `i` on.
pub open spec fn wbl_spec(s: OsView, elems: Seq<CodeElement>, bt: Seq<CodeWord>, i: int) -> OsView
    decreases elems.len() - i,
{
    if 0 <= i < elems.len() {
        wbl_spec(ce_bits(s, elems[i], bt), elems, bt, i + 1)
    } else {
        s
    }
}

/// What one block token appends: the literal or length symbol, the length's
/// extra bits, and for a match the distance symbol and its extra bits.
pub open spec fn de_bits(s: OsView, e: DataElement, lt: Seq<CodeWord>, dt: Seq<CodeWord>) -> OsView {
    match e {
        DataElement::Literal { value } => sym_bits(s, lt, value as int),
        DataElement::End => sym_bits(s, lt, 256),
        DataElement::Match { length, distance } => {
            let lp = length_sym_parts_spec(length);
            let s1 = sym_bits(s, lt, lp.0 as int);
            let s2 = if lp.1 > 0 {
                os_write_bits(s1, (length - lp.2) as u16, lp.1)
            } else {
                s1
            };
            let dp = dist_sym_parts_spec(distance);
            let s3 = sym_bits(s2, dt, dp.0 as int);
            if dp.1 > 0 {
                os_write_bits(s3, (distance - dp.2) as u16, dp.1)
            } else {
                s3
            }
        },
    }
}

/// The block body stream from token `i` on.
pub open spec fn wcd_spec(s: OsView, elems: Seq<DataElement>, lt: Seq<CodeWord>, dt: Seq<CodeWord>, i: int)
    -> OsView
    decreases elems.len() - i,
{
    if 0 <= i < elems.len() {
        wcd_spec(de_bits(s, elems[i], lt, dt), elems, lt, dt, i + 1)
    } else {
        s
    }
}

/// The coded size in bits of a frequency distribution, extra bits included;
/// `extra_kind` selects the alphabet's extra-bit table.
pub open spec fn csb_spec(freqs: Seq<u16>, table: Seq<CodeWord>, extra_kind: u8, i: int) -> int
    decreases freqs.len() - i,
{
    if 0 <= i < freqs.len() {
        let extra = if extra_kind == 0 {
            l_extra_of_spec(i as usize)
        } else if extra_kind == 1 {
            d_extra_of_spec(i as usize)
        } else {
            b_extra_of_spec(i as usize)
        };
        freqs[i] * (table[i].length + extra) + csb_spec(freqs, table, extra_kind, i + 1)
    } else {
        0
    }
}

/// Writes the run-length-coded code-length metadata.
fn write_bit_lengths(output: &mut OutputStream, elems: &Vec<CodeElement>, bcode: &HuffmanCode)
    requires
        old(output).wf(),
        bcode.wf(),
        bcode.n_codes() == 19,
        forall|i: int| 0 <= i < elems@.len() ==> ce_wf(#[trigger] elems@[i]),
    ensures
        final(output).wf(),
        final(output).os() == wbl_spec(old(output).os(), elems@, bcode.table@, 0),
{
    let mut i: usize = 0;
    while i < elems.len()
        invariant
            i <= elems@.len(),
            output.wf(),
            bcode.wf(),
            bcode.n_codes() == 19,
            forall|k: int| 0 <= k < elems@.len() ==> ce_wf(#[trigger] elems@[k]),
            wbl_spec(output.os(), elems@, bcode.table@, i as int) == wbl_spec(
                old(output).os(),
                elems@,
                bcode.table@,
                0,
            ),
        decreases elems@.len() - i,
    {
        let e = elems[i];
        match e {
            CodeElement::Length { length } => {
                write_symbol(output, bcode, length as usize);
            },
            CodeElement::RepeatPrev { repeat } => {
                write_symbol(output, bcode, 16);
                output.write_bits((repeat - 3) as u16, 2);
            },
            CodeElement::RepeatZero3Bits { repeat } => {
                write_symbol(output, bcode, 17);
                output.write_bits((repeat - 3) as u16, 3);
            },
            CodeElement::RepeatZero7Bits { repeat } => {
                write_symbol(output, bcode, 18);
                output.write_bits((repeat - 11) as u16, 7);
            },
        }
        i = i + 1;
    }
}

/// Writes the block body: one literal/length symbol per element, plus the
/// extra bits of lengths and distances.
fn write_compressed_data(
    output: &mut OutputStream,
    elems: &Vec<DataElement>,
    lcode: &HuffmanCode,
    dcode: &HuffmanCode,
)
    requires
        old(output).wf(),
        lcode.wf(),
        dcode.wf(),
        lcode.n_codes() >= 286,
        dcode.n_codes() >= 30,
    ensures
        final(output).wf(),
        final(output).os() == wcd_spec(old(output).os(), elems@, lcode.table@, dcode.table@, 0),
{
    let mut i: usize = 0;
    while i < elems.len()
        invariant
            i <= elems@.len(),
            output.wf(),
            lcode.wf(),
            dcode.wf(),
            lcode.n_codes() >= 286,
            dcode.n_codes() >= 30,
            wcd_spec(output.os(), elems@, lcode.table@, dcode.table@, i as int) == wcd_spec(
                old(output).os(),
                elems@,
                lcode.table@,
                dcode.table@,
                0,
            ),
        decreases elems@.len() - i,
    {
        let e = elems[i];
        match e {
            DataElement::Literal { value } => {
                write_symbol(output, lcode, value as usize);
            },
            DataElement::End => {
                write_symbol(output, lcode, 256);
            },
            DataElement::Match { length, distance } => {
                let (lsym, lextra, lbase) = length_sym_parts(length);
                write_symbol(output, lcode, lsym);
                if lextra > 0 {
                    output.write_bits((length - lbase) as u16, lextra);
                }
                let (dsym, dextra, dbase) = dist_sym_parts(distance);
                write_symbol(output, dcode, dsym);
                if dextra > 0 {
                    output.write_bits(distance - dbase, dextra);
                }
            },
        }
        i = i + 1;
    }
}

/// The size in bits of the `freqs` distribution coded with `code`, extra bits
/// included; `extra_kind` selects the alphabet's extra-bit table.
fn compressed_size_bits(freqs: &Vec<u16>, code: &HuffmanCode, extra_kind: u8) -> (r: u64)
    requires
        code.wf(),
        freqs@.len() <= 286,
        freqs@.len() <= code.n_codes(),
    ensures
        r <= 0x4000_0000,
        r as int == csb_spec(freqs@, code.table@, extra_kind, 0),
{
    let mut size: u64 = 0;
    let mut i: usize = 0;
    while i < freqs.len()
        invariant
            i <= freqs@.len() <= 286,
            freqs@.len() <= code.n_codes(),
            code.wf(),
            size <= 0x20_0000 * i,
            size as int + csb_spec(freqs@, code.table@, extra_kind, i as int) == csb_spec(
                freqs@,
                code.table@,
                extra_kind,
                0,
            ),
        decreases freqs@.len() - i,
    {
        let extra: u8 = if extra_kind == 0 {
            l_extra_of(i)
        } else if extra_kind == 1 {
            d_extra_of(i)
        } else {
            b_extra_of(i)
        };
        let w = code.table[i];
        let f = freqs[i] as u64;
        let nb = (w.length as u64) + (extra as u64);
        assert(f * nb <= 0x20_0000) by (nonlinear_arith)
            requires f <= 0xFFFF, nb <= 28,
        ;
        size = size + f * nb;
        i = i + 1;
    }
    size
}

/// The observable state of the block writer.
#[verifier::ext_equal]
pub struct BwView {
    pub buffer_size: int,
    pub code_elements: Seq<CodeElement>,
    pub data_elements: Seq<DataElement>,
    pub num_matches: int,
    pub bfreqs: Seq<u16>,
    pub lfreqs: Seq<u16>,
    pub dfreqs: Seq<u16>,
    pub fixed_l: Seq<CodeWord>,
    pub fixed_lnum: int,
    pub fixed_d: Seq<CodeWord>,
    pub fixed_dnum: int,
}

/// What adding a literal does: buffer the token and count its symbol.
pub open spec fn add_literal_spec(w: BwView, value: u8) -> BwView {
    BwView {
        data_elements: w.data_elements.push(DataElement::Literal { value }),
        lfreqs: w.lfreqs.update(value as int, bump16_spec(w.lfreqs[value as int])),
        ..w
    }
}

/// What adding a match does: buffer the token, stored as length minus 3 and
/// distance minus 1, and count its length and distance symbols.
pub open spec fn add_match_spec(w: BwView, match_length: int, match_distance: int) -> BwView {
    let length = (match_length - 3) as u8;
    let distance = (match_distance - 1) as u16;
    let lp = length_sym_parts_spec(length);
    let dp = dist_sym_parts_spec(distance);
    BwView {
        data_elements: w.data_elements.push(DataElement::Match { length, distance }),
        num_matches: if w.num_matches < usize::MAX as int {
            w.num_matches + 1
        } else {
            w.num_matches
        },
        lfreqs: w.lfreqs.update(lp.0 as int, bump16_spec(w.lfreqs[lp.0 as int])),
        dfreqs: w.dfreqs.update(dp.0 as int, bump16_spec(w.dfreqs[dp.0 as int])),
        ..w
    }
}

/// `n` copies of one element appended.
pub open spec fn push_n(ce: Seq<CodeElement>, e: CodeElement, k: int) -> Seq<CodeElement>
    decreases k,
{
    if k <= 0 {
        ce
    } else {
        push_n(ce.push(e), e, k - 1)
    }
}

/// What flushing one run of the code-length metadata does: a repeat element
/// for runs of three or longer, the plain lengths otherwise.
pub open spec fn add_ce_spec(w: BwView, length: u8, repeat: u8) -> BwView {
    if repeat >= 3 {
        if length != 0 {
            BwView {
                code_elements: w.code_elements.push(CodeElement::RepeatPrev { repeat }),
                bfreqs: w.bfreqs.update(16, bump16_spec(w.bfreqs[16])),
                ..w
            }
        } else if repeat <= 10 {
            BwView {
                code_elements: w.code_elements.push(CodeElement::RepeatZero3Bits { repeat }),
                bfreqs: w.bfreqs.update(17, bump16_spec(w.bfreqs[17])),
                ..w
            }
        } else {
            BwView {
                code_elements: w.code_elements.push(CodeElement::RepeatZero7Bits { repeat }),
                bfreqs: w.bfreqs.update(18, bump16_spec(w.bfreqs[18])),
                ..w
            }
        }
    } else if repeat > 0 {
        let nv = if repeat + w.bfreqs[length as int] <= 0xFFFF {
            (w.bfreqs[length as int] + repeat) as u16
        } else {
            0xFFFFu16
        };
        BwView {
            code_elements: push_n(w.code_elements, CodeElement::Length { length }, repeat as int),
            bfreqs: w.bfreqs.update(length as int, nv),
            ..w
        }
    } else {
        w
    }
}

/// The run-length factoring of one alphabet's code lengths, from symbol `i`
/// on, carrying the current run.
pub open spec fn gce_rec(
    w: BwView,
    table: Seq<CodeWord>,
    num: int,
    prev: u8,
    length: u8,
    repeat: u8,
    max_repeat: u8,
    i: int,
) -> BwView
    decreases num - i,
{
    if 0 <= i < num {
        let next: u8 = if i + 1 < num {
            table[i + 1].length
        } else {
            0
        };
        let repeat1 = (repeat + 1) as u8;
        if i + 1 == num || (length != prev && length != 0) || length != next || repeat1
            == max_repeat {
            gce_rec(
                add_ce_spec(w, length, repeat1),
                table,
                num,
                length,
                next,
                0,
                if next == 0 {
                    138
                } else {
                    6
                },
                i + 1,
            )
        } else {
            gce_rec(w, table, num, length, next, repeat1, max_repeat, i + 1)
        }
    } else {
        w
    }
}

/// Factoring the code lengths touches only the metadata buffers: the
/// configuration and the fixed codes stay.
proof fn lemma_gce_keeps_config(
    w: BwView,
    table: Seq<CodeWord>,
    num: int,
    prev: u8,
    length: u8,
    repeat: u8,
    max_repeat: u8,
    i: int,
)
    ensures
        ({
            let r = gce_rec(w, table, num, prev, length, repeat, max_repeat, i);
            &&& r.buffer_size == w.buffer_size
            &&& r.data_elements == w.data_elements
            &&& r.num_matches == w.num_matches
            &&& r.lfreqs == w.lfreqs
            &&& r.dfreqs == w.dfreqs
            &&& r.fixed_l == w.fixed_l
            &&& r.fixed_lnum == w.fixed_lnum
            &&& r.fixed_d == w.fixed_d
            &&& r.fixed_dnum == w.fixed_dnum
        }),
    decreases num - i,
{
    if 0 <= i < num {
        let next: u8 = if i + 1 < num {
            table[i + 1].length
        } else {
            0
        };
        let repeat1 = (repeat + 1) as u8;
        if i + 1 == num || (length != prev && length != 0) || length != next || repeat1
            == max_repeat {
            lemma_gce_keeps_config(
                add_ce_spec(w, length, repeat1),
                table,
                num,
                length,
                next,
                0,
                if next == 0 {
                    138
                } else {
                    6
                },
                i + 1,
            );
        } else {
            lemma_gce_keeps_config(w, table, num, length, next, repeat1, max_repeat, i + 1);
        }
    }
}

/// The whole factoring of one code's lengths.
pub open spec fn gce_spec(w: BwView, table: Seq<CodeWord>, num: int) -> BwView {
    gce_rec(
        w,
        table,
        num,
        0,
        table[0].length,
        0,
        if table[0].length == 0 {
            138
        } else {
            6
        },
        0,
    )
}

/// The estimated match cost of the flush heuristic: five bits plus the extra
/// bits per distance symbol occurrence.
pub open spec fn est_bits(dfreqs: Seq<u16>, i: int) -> int
    decreases 30 - i,
{
    if 0 <= i < 30 {
        (5 + d_extra_of_spec(i as usize)) * dfreqs[i] + est_bits(dfreqs, i + 1)
    } else {
        0
    }
}

/// When the block is written out early: the buffer is one short of full, or
/// at a 0x1000-token mark a mostly-literal block estimates to less than half
/// its raw size.
pub open spec fn should_flush_spec(w: BwView, block_size: int) -> bool {
    let ne = w.data_elements.len() as int;
    if ne == w.buffer_size - 1 {
        true
    } else if ne % 0x1000 == 0 {
        let est = (ne * 8 + est_bits(w.dfreqs, 0)) / 8;
        w.num_matches < ne / 2 && est < block_size / 2
    } else {
        false
    }
}

/// How many of the 19 code-length code lengths are transmitted: up to the
/// last nonzero one in transmission order, but no fewer than four.
pub open spec fn nbl_spec(bt: Seq<CodeWord>, i: int) -> int
    decreases i,
{
    if i <= 4 {
        4
    } else if bt[b_order_spec((i - 1) as usize) as int].length != 0 {
        i
    } else {
        nbl_spec(bt, i - 1)
    }
}

/// The `nbl` 3-bit code-length code lengths, in transmission order, from
/// position `k` on.
pub open spec fn bl3_spec(s: OsView, bt: Seq<CodeWord>, nbl: int, k: int) -> OsView
    decreases nbl - k,
{
    if 0 <= k < nbl {
        bl3_spec(
            os_write_bits(s, bt[b_order_spec(k as usize) as int].length as u16, 3),
            bt,
            nbl,
            k + 1,
        )
    } else {
        s
    }
}

/// The fixed literal/length code lengths: 8 bits for 0-143, 9 for 144-255,
/// 7 for 256-279, 8 for 280-287.
pub open spec fn fixed_llen_spec() -> Seq<u8> {
    Seq::new(
        288,
        |i: int|
            if i < 144 {
                8u8
            } else if i < 256 {
                9u8
            } else if i < 280 {
                7u8
            } else {
                8u8
            },
    )
}

pub open spec fn fixed_lcounts_spec() -> Seq<u16> {
    seq![0u16, 0u16, 0u16, 0u16, 0u16, 0u16, 0u16, 24u16, 152u16, 112u16]
}

/// The fixed distance code lengths: 5 bits for all 32 symbols.
pub open spec fn fixed_dlen_spec() -> Seq<u8> {
    Seq::new(32, |i: int| 5u8)
}

pub open spec fn fixed_dcounts_spec() -> Seq<u16> {
    seq![0u16, 0u16, 0u16, 0u16, 0u16, 32u16]
}

/// The block writer before any token: empty buffers and the fixed codes.
pub open spec fn bw_init(bs: int) -> BwView {
    let fl = huff_new_spec(fixed_llen_spec(), fixed_lcounts_spec());
    let fd = huff_new_spec(fixed_dlen_spec(), fixed_dcounts_spec());
    BwView {
        buffer_size: bs,
        code_elements: Seq::empty(),
        data_elements: Seq::empty(),
        num_matches: 0,
        bfreqs: Seq::new(19, |k: int| 0u16),
        lfreqs: Seq::new(286, |k: int| 0u16),
        dfreqs: Seq::new(30, |k: int| 0u16),
        fixed_l: fl.0,
        fixed_lnum: fl.1 + 1,
        fixed_d: fd.0,
        fixed_dnum: fd.1 + 1,
    }
}

/// The buffers after a flush: everything cleared, the configuration kept.
pub open spec fn bw_reset(w: BwView) -> BwView {
    BwView {
        buffer_size: w.buffer_size,
        code_elements: Seq::empty(),
        data_elements: Seq::empty(),
        num_matches: 0,
        bfreqs: Seq::new(19, |k: int| 0u16),
        lfreqs: Seq::new(286, |k: int| 0u16),
        dfreqs: Seq::new(30, |k: int| 0u16),
        fixed_l: w.fixed_l,
        fixed_lnum: w.fixed_lnum,
        fixed_d: w.fixed_d,
        fixed_dnum: w.fixed_dnum,
    }
}

/// Everything `flush_block` appends to the stream: the end-of-block symbol
/// joins the buffered tokens, the dynamic codes are built, and whichever of
/// the stored, fixed and dynamic encodings is smallest in bytes is written,
/// stored winning ties against both and fixed against dynamic.
pub open spec fn flush_spec(
    w0: BwView,
    os: OsView,
    window: Seq<u8>,
    start: int,
    end: int,
    have_input: bool,
    eof: bool,
) -> OsView {
    let w1 = BwView {
        data_elements: w0.data_elements.push(DataElement::End),
        lfreqs: w0.lfreqs.update(256, bump16_spec(w0.lfreqs[256])),
        ..w0
    };
    let lc = create_dynamic_spec(w1.lfreqs, 15);
    let dc = create_dynamic_spec(w1.dfreqs, 15);
    let w2 = gce_spec(w1, lc.0, lc.1);
    let w3 = gce_spec(w2, dc.0, dc.1);
    let bc = create_dynamic_spec(w3.bfreqs, 7);
    let nbl = nbl_spec(bc.0, 19);
    let fixed_bits = 3 + csb_spec(w3.lfreqs, w3.fixed_l, 0, 0) + csb_spec(
        w3.dfreqs,
        w3.fixed_d,
        1,
        0,
    );
    let dyn_bits = 3 + 5 + 5 + 4 + 3 * nbl + csb_spec(w3.bfreqs, bc.0, 2, 0) + csb_spec(
        w3.lfreqs,
        lc.0,
        0,
        0,
    ) + csb_spec(w3.dfreqs, dc.0, 1, 0);
    let fixed_bytes = (fixed_bits + 7) / 8;
    let dyn_bytes = (dyn_bits + 7) / 8;
    let unc_bytes = if have_input {
        4 + end - start
    } else {
        u64::MAX as int
    };
    let comp_bytes = if fixed_bytes <= dyn_bytes {
        fixed_bytes
    } else {
        dyn_bytes
    };
    let os1 = os_write_bits(
        os,
        if eof {
            1
        } else {
            0
        },
        1,
    );
    if unc_bytes <= comp_bytes {
        let len16 = (((end - start) % 0x10000) as u16);
        os_write_range(
            os_write_u16_le(os_write_u16_le(os_write_bits(os1, 0, 2), len16), (0xFFFF - len16) as u16),
            window,
            start,
            end,
        )
    } else if fixed_bytes <= dyn_bytes {
        wcd_spec(os_write_bits(os1, 1, 2), w3.data_elements, w3.fixed_l, w3.fixed_d, 0)
    } else {
        let hlit: u16 = if lc.1 >= 257 {
            (lc.1 - 257) as u16
        } else {
            0u16
        };
        let hdist: u16 = (dc.1 - 1) as u16;
        let os2 = os_write_bits(
            os_write_bits(os_write_bits(os_write_bits(os1, 2, 2), hlit, 5), hdist, 5),
            (nbl - 4) as u16,
            4,
        );
        let os3 = bl3_spec(os2, bc.0, nbl, 0);
        wcd_spec(wbl_spec(os3, w3.code_elements, bc.0, 0), w3.data_elements, lc.0, dc.0, 0)
    }
}

/// Buffers one block's tokens and symbol frequencies, and writes the block
/// out in whichever of the three encodings — stored, fixed, dynamic — is
/// smallest.
struct BlockWriter {
    buffer_size: usize,
    code_elements: Vec<CodeElement>,
    data_elements: Vec<DataElement>,
    num_matches: usize,
    bfreqs: Vec<u16>,
    lfreqs: Vec<u16>,
    dfreqs: Vec<u16>,
    fixed_lcode: HuffmanCode,
    fixed_dcode: HuffmanCode,
}

impl BlockWriter {
    /// The writer's observable state.
    spec fn bw(&self) -> BwView {
        BwView {
            buffer_size: self.buffer_size as int,
            code_elements: self.code_elements@,
            data_elements: self.data_elements@,
            num_matches: self.num_matches as int,
            bfreqs: self.bfreqs@,
            lfreqs: self.lfreqs@,
            dfreqs: self.dfreqs@,
            fixed_l: self.fixed_lcode.table@,
            fixed_lnum: self.fixed_lcode.num_symbols as int,
            fixed_d: self.fixed_dcode.table@,
            fixed_dnum: self.fixed_dcode.num_symbols as int,
        }
    }

    pub closed spec fn wf(&self) -> bool {
        &&& 0x10 <= self.buffer_size <= 0x8000
        &&& self.data_elements@.len() <= 0x10000
        &&& self.bfreqs@.len() == 19
        &&& self.lfreqs@.len() == 286
        &&& self.dfreqs@.len() == 30
        &&& self.fixed_lcode.wf()
        &&& self.fixed_lcode.n_codes() == 288
        &&& self.fixed_dcode.wf()
        &&& self.fixed_dcode.n_codes() == 32
        &&& forall|i: int| 0 <= i < self.code_elements@.len() ==> ce_wf(
            #[trigger] self.code_elements@[i],
        )
    }

    pub closed spec fn n_data(&self) -> int {
        self.data_elements@.len() as int
    }

    pub closed spec fn buf_size(&self) -> int {
        self.buffer_size as int
    }

    fn new(buffer_size: usize) -> (w: BlockWriter)
        requires
            0x10 <= buffer_size <= 0x8000,
        ensures
            w.wf(),
            w.bw() == bw_init(buffer_size as int),
            w.n_data() == 0,
            w.buf_size() == buffer_size,
    {
        // fixed literal/length code: 8 bits for 0-143, 9 for 144-255,
        // 7 for 256-279, 8 for 280-287
        let mut fixed_llen: Vec<u8> = Vec::new();
        let mut i: usize = 0;
        while i < 288
            invariant
                i <= 288,
                fixed_llen@.len() == i,
                forall|k: int| 0 <= k < i ==> (#[trigger] fixed_llen@[k]) <= 9,
                forall|k: int| 0 <= k < i ==> #[trigger] fixed_llen@[k] == fixed_llen_spec()[k],
            decreases 288 - i,
        {
            if i < 144 {
                fixed_llen.push(8);
            } else if i < 256 {
                fixed_llen.push(9);
            } else if i < 280 {
                fixed_llen.push(7);
            } else {
                fixed_llen.push(8);
            }
            i = i + 1;
        }
        assert(fixed_llen@ =~= fixed_llen_spec());
        let mut fixed_lcounts: Vec<u16> = vec![0u16; 10];
        fixed_lcounts[7] = 24;
        fixed_lcounts[8] = 152;
        fixed_lcounts[9] = 112;
        assert(fixed_lcounts@ =~= fixed_lcounts_spec());
        let fixed_lcode = huff_new(&fixed_llen, &fixed_lcounts);

        let fixed_dlen: Vec<u8> = vec![5u8; 32];
        assert(fixed_dlen@ =~= fixed_dlen_spec());
        let mut fixed_dcounts: Vec<u16> = vec![0u16; 6];
        fixed_dcounts[5] = 32;
        assert(fixed_dcounts@ =~= fixed_dcounts_spec());
        let fixed_dcode = huff_new(&fixed_dlen, &fixed_dcounts);

        let w = BlockWriter {
            buffer_size,
            code_elements: Vec::new(),
            data_elements: Vec::new(),
            num_matches: 0,
            bfreqs: vec![0u16; 19],
            lfreqs: vec![0u16; 286],
            dfreqs: vec![0u16; 30],
            fixed_lcode,
            fixed_dcode,
        };
        proof {
            assert(w.bfreqs@ =~= Seq::new(19, |k: int| 0u16));
            assert(w.lfreqs@ =~= Seq::new(286, |k: int| 0u16));
            assert(w.dfreqs@ =~= Seq::new(30, |k: int| 0u16));
            assert(w.code_elements@ =~= Seq::<CodeElement>::empty());
            assert(w.data_elements@ =~= Seq::<DataElement>::empty());
            assert(w.bw() =~~= bw_init(buffer_size as int));
        }
        w
    }

    fn add_literal(&mut self, value: u8)
        requires
            old(self).wf(),
            old(self).n_data() + 1 <= old(self).buf_size(),
        ensures
            final(self).wf(),
            final(self).bw() == add_literal_spec(old(self).bw(), value),
            final(self).n_data() == old(self).n_data() + 1,
            final(self).buf_size() == old(self).buf_size(),
    {
        self.data_elements.push(DataElement::Literal { value });
        let c = self.lfreqs[value as usize];
        self.lfreqs[value as usize] = bump16(c);
        assert(self.bw() =~= add_literal_spec(old(self).bw(), value));
    }

    fn add_match(&mut self, match_length: usize, match_distance: usize)
        requires
            old(self).wf(),
            old(self).n_data() + 1 <= old(self).buf_size(),
            3 <= match_length <= 258,
            1 <= match_distance <= 0x10000,
        ensures
            final(self).wf(),
            final(self).bw() == add_match_spec(
                old(self).bw(),
                match_length as int,
                match_distance as int,
            ),
            final(self).n_data() == old(self).n_data() + 1,
            final(self).buf_size() == old(self).buf_size(),
    {
        let length = (match_length - 3) as u8;
        let distance = (match_distance - 1) as u16;

        self.data_elements.push(DataElement::Match { length, distance });
        self.num_matches = if self.num_matches < usize::MAX {
            self.num_matches + 1
        } else {
            self.num_matches
        };
        let (lsym, _, _) = length_sym_parts(length);
        let cl = self.lfreqs[lsym];
        self.lfreqs[lsym] = bump16(cl);
        let (dsym, _, _) = dist_sym_parts(distance);
        let cd = self.dfreqs[dsym];
        self.dfreqs[dsym] = bump16(cd);
        assert(self.bw() =~= add_match_spec(
            old(self).bw(),
            match_length as int,
            match_distance as int,
        ));
    }

    /// Whether the block should be written out now: the buffer is nearly
    /// full, or the block is long and looks incompressible.
    fn should_flush_block(&self, block_size: usize) -> (r: bool)
        requires
            self.wf(),
        ensures
            r == should_flush_spec(self.bw(), block_size as int),
            self.n_data() == self.buf_size() - 1 ==> r,
    {
        let num_elements = self.data_elements.len();
        if num_elements == self.buffer_size - 1 {
            return true;
        }
        if num_elements % 0x1000 == 0 {
            let mut estimated_bits: u64 = (num_elements as u64) * 8;
            let mut i: usize = 0;
            while i < 30
                invariant
                    i <= 30,
                    self.wf(),
                    estimated_bits <= 0x10_0000 + 0x20_0000 * i,
                    estimated_bits as int + est_bits(self.dfreqs@, i as int) == (
                    num_elements as int) * 8 + est_bits(self.dfreqs@, 0),
                decreases 30 - i,
            {
                let e = d_extra_of(i);
                let f = self.dfreqs[i] as u64;
                let nb = 5 + e as u64;
                assert(nb * f <= 0x20_0000) by (nonlinear_arith)
                    requires f <= 0xFFFF, nb <= 18,
                ;
                estimated_bits = estimated_bits + nb * f;
                i = i + 1;
            }
            let estimated_size = estimated_bits / 8;
            if self.num_matches < num_elements / 2 && estimated_size < (block_size as u64) / 2 {
                return true;
            }
        }
        false
    }

    /// Emits the non-zero tail of a run: a repeat element when the run is
    /// three or longer, the plain lengths otherwise.
    fn add_code_elements(&mut self, length: u8, repeat: u8)
        requires
            old(self).wf(),
            length < 19,
            repeat <= 138,
        ensures
            final(self).wf(),
            final(self).bw() == add_ce_spec(old(self).bw(), length, repeat),
            final(self).n_data() == old(self).n_data(),
            final(self).buf_size() == old(self).buf_size(),
    {
        if repeat >= 3 {
            if length != 0 {
                self.code_elements.push(CodeElement::RepeatPrev { repeat });
                let c = self.bfreqs[16];
                self.bfreqs[16] = bump16(c);
            } else if repeat <= 10 {
                self.code_elements.push(CodeElement::RepeatZero3Bits { repeat });
                let c = self.bfreqs[17];
                self.bfreqs[17] = bump16(c);
            } else {
                self.code_elements.push(CodeElement::RepeatZero7Bits { repeat });
                let c = self.bfreqs[18];
                self.bfreqs[18] = bump16(c);
            }
            assert(self.bw() =~= add_ce_spec(old(self).bw(), length, repeat));
        } else if repeat > 0 {
            let mut k: u8 = 0;
            while k < repeat
                invariant
                    k <= repeat,
                    self.wf(),
                    length < 19,
                    self.n_data() == old(self).n_data(),
                    self.buf_size() == old(self).buf_size(),
                    self.bfreqs@ == old(self).bfreqs@,
                    self.data_elements@ == old(self).data_elements@,
                    self.lfreqs@ == old(self).lfreqs@,
                    self.dfreqs@ == old(self).dfreqs@,
                    self.num_matches == old(self).num_matches,
                    self.buffer_size == old(self).buffer_size,
                    self.fixed_lcode.table@ == old(self).fixed_lcode.table@,
                    self.fixed_lcode.num_symbols == old(self).fixed_lcode.num_symbols,
                    self.fixed_dcode.table@ == old(self).fixed_dcode.table@,
                    self.fixed_dcode.num_symbols == old(self).fixed_dcode.num_symbols,
                    push_n(
                        self.code_elements@,
                        CodeElement::Length { length },
                        (repeat - k) as int,
                    ) == push_n(
                        old(self).code_elements@,
                        CodeElement::Length { length },
                        repeat as int,
                    ),
                decreases repeat - k,
            {
                self.code_elements.push(CodeElement::Length { length });
                k = k + 1;
            }
            let c = self.bfreqs[length as usize];
            self.bfreqs[length as usize] = if (repeat as u32) + (c as u32) <= 0xFFFF {
                c + repeat as u16
            } else {
                0xFFFF
            };
            assert(self.bw() =~= add_ce_spec(old(self).bw(), length, repeat));
        }
    }

    /// Run-length-factors one alphabet's code lengths into the metadata
    /// stream, exactly as the reference encoder groups them.
    fn generate_code_elements(&mut self, code: &HuffmanCode)
        requires
            old(self).wf(),
            code.wf(),
        ensures
            final(self).wf(),
            final(self).bw() == gce_spec(old(self).bw(), code.table@, code.num_symbols as int),
            final(self).n_data() == old(self).n_data(),
            final(self).buf_size() == old(self).buf_size(),
    {
        let mut prev: u8 = 0;
        let mut length: u8 = code.table[0].length;
        let mut repeat: u8 = 0;
        let mut max_repeat: u8 = if length == 0 {
            138
        } else {
            6
        };

        let mut i: usize = 0;
        while i < code.num_symbols
            invariant
                i <= code.num_spec(),
                code.wf(),
                self.wf(),
                self.n_data() == old(self).n_data(),
                self.buf_size() == old(self).buf_size(),
                repeat < max_repeat,
                max_repeat == 6 || max_repeat == 138,
                length <= 15,
                gce_rec(
                    self.bw(),
                    code.table@,
                    code.num_symbols as int,
                    prev,
                    length,
                    repeat,
                    max_repeat,
                    i as int,
                ) == gce_spec(old(self).bw(), code.table@, code.num_symbols as int),
            decreases code.num_spec() - i,
        {
            let next: u8 = if i + 1 < code.num_symbols {
                code.table[i + 1].length
            } else {
                0
            };
            repeat = repeat + 1;
            if i + 1 == code.num_symbols || (length != prev && length != 0) || length != next
                || repeat == max_repeat {
                self.add_code_elements(length, repeat);
                repeat = 0;
                max_repeat = if next == 0 {
                    138
                } else {
                    6
                };
            }
            prev = length;
            length = next;
            i = i + 1;
        }
    }

    /// Writes the buffered block: builds the dynamic codes, compares the
    /// three encodings by size, writes the cheapest, and resets the buffers.
    /// `have_input` says whether `window[start..end]` still holds the block's
    /// raw bytes, which a stored block needs.
    #[verifier::rlimit(50)]
    fn flush_block(
        &mut self,
        output: &mut OutputStream,
        window: &Vec<u8>,
        start: usize,
        end: usize,
        have_input: bool,
        eof: bool,
    )
        requires
            old(self).wf(),
            old(output).wf(),
            old(self).n_data() + 1 <= 0x10000,
            have_input ==> start <= end <= window@.len() && end <= 0x2_0000,
        ensures
            final(self).wf(),
            final(output).wf(),
            final(output).os() == flush_spec(
                old(self).bw(),
                old(output).os(),
                window@,
                start as int,
                end as int,
                have_input,
                eof,
            ),
            final(self).bw() == bw_reset(old(self).bw()),
            final(self).n_data() == 0,
            final(self).buf_size() == old(self).buf_size(),
    {
        self.data_elements.push(DataElement::End);
        let ce = self.lfreqs[256];
        self.lfreqs[256] = bump16(ce);
        let ghost w1 = BwView {
            data_elements: old(self).bw().data_elements.push(DataElement::End),
            lfreqs: old(self).bw().lfreqs.update(256, bump16_spec(old(self).bw().lfreqs[256])),
            ..old(self).bw()
        };
        proof {
            assert(self.bw() =~= w1);
        }

        let lcode = create_dynamic(&self.lfreqs, 15);
        let dcode = create_dynamic(&self.dfreqs, 15);

        self.generate_code_elements(&lcode);
        self.generate_code_elements(&dcode);
        let bcode = create_dynamic(&self.bfreqs, 7);
        let ghost lc = create_dynamic_spec(w1.lfreqs, 15);
        let ghost dc = create_dynamic_spec(w1.dfreqs, 15);
        let ghost w3 = gce_spec(gce_spec(w1, lc.0, lc.1), dc.0, dc.1);
        let ghost bc = create_dynamic_spec(w3.bfreqs, 7);
        proof {
            assert(self.bw() == w3);
            assert((bcode.table@, bcode.num_symbols as int) == bc);
        }

        let mut num_bl_indices: usize = 4;
        let mut i: usize = 19;
        let mut found = false;
        while i > 4 && !found
            invariant
                4 <= i <= 19,
                bcode.wf(),
                bcode.n_codes() == 19,
                4 <= num_bl_indices <= 19,
                bcode.table@ == bc.0,
                found ==> num_bl_indices == nbl_spec(bc.0, 19),
                !found ==> num_bl_indices == 4 && nbl_spec(bc.0, i as int) == nbl_spec(bc.0, 19),
            decreases i,
        {
            i = i - 1;
            if bcode.table[b_order(i)].length != 0 {
                num_bl_indices = i + 1;
                found = true;
            }
        }
        proof {
            assert(num_bl_indices == nbl_spec(bc.0, 19));
        }

        // sizes of the three encodings, in bits
        let fixed_size_bits: u64 = 3 + compressed_size_bits(&self.lfreqs, &self.fixed_lcode, 0)
            + compressed_size_bits(&self.dfreqs, &self.fixed_dcode, 1);
        let dynamic_size_bits: u64 = 3 + 5 + 5 + 4 + 3 * (num_bl_indices as u64)
            + compressed_size_bits(&self.bfreqs, &bcode, 2) + compressed_size_bits(
            &self.lfreqs,
            &lcode,
            0,
        ) + compressed_size_bits(&self.dfreqs, &dcode, 1);

        let fixed_size_bytes = (fixed_size_bits + 7) / 8;
        let dynamic_size_bytes = (dynamic_size_bits + 7) / 8;

        let uncompressed_size_bytes: u64 = if have_input {
            4 + (end - start) as u64
        } else {
            u64::MAX
        };
        let compressed_size_bytes = if fixed_size_bytes <= dynamic_size_bytes {
            fixed_size_bytes
        } else {
            dynamic_size_bytes
        };

        output.write_bits(if eof { 1 } else { 0 }, 1);
        let ghost os1 = os_write_bits(
            old(output).os(),
            if eof {
                1
            } else {
                0
            },
            1,
        );
        if uncompressed_size_bytes <= compressed_size_bytes {
            let len: u16 = ((end - start) % 0x10000) as u16;
            let nlen: u16 = 0xFFFF - len;
            output.write_bits(0, 2);
            output.write_u16_le(len);
            output.write_u16_le(nlen);
            output.write_window_range(window, start, end);
        } else if fixed_size_bytes <= dynamic_size_bytes {
            output.write_bits(1, 2);
            write_compressed_data(output, &self.data_elements, &self.fixed_lcode, &self.fixed_dcode);
        } else {
            output.write_bits(2, 2);
            let hlit: u16 = if lcode.num_symbols >= 257 {
                (lcode.num_symbols - 257) as u16
            } else {
                0
            };
            let hdist: u16 = (dcode.num_symbols - 1) as u16;
            output.write_bits(hlit, 5);
            output.write_bits(hdist, 5);
            output.write_bits((num_bl_indices - 4) as u16, 4);
            let ghost os2 = output.os();
            let mut k: usize = 0;
            while k < num_bl_indices
                invariant
                    k <= num_bl_indices <= 19,
                    output.wf(),
                    bcode.wf(),
                    bcode.n_codes() == 19,
                    bcode.table@ == bc.0,
                    bl3_spec(output.os(), bc.0, num_bl_indices as int, k as int) == bl3_spec(
                        os2,
                        bc.0,
                        num_bl_indices as int,
                        0,
                    ),
                decreases num_bl_indices - k,
            {
                output.write_bits(bcode.table[b_order(k)].length as u16, 3);
                k = k + 1;
            }
            write_bit_lengths(output, &self.code_elements, &bcode);
            write_compressed_data(output, &self.data_elements, &lcode, &dcode);
        }
        proof {
            assert(output.os() == flush_spec(
                old(self).bw(),
                old(output).os(),
                window@,
                start as int,
                end as int,
                have_input,
                eof,
            ));
        }

        // reset for the next block
        self.code_elements = Vec::new();
        self.data_elements = Vec::new();
        self.num_matches = 0;
        self.bfreqs = vec![0u16; 19];
        self.lfreqs = vec![0u16; 286];
        self.dfreqs = vec![0u16; 30];
        proof {
            assert(self.code_elements@ =~= Seq::<CodeElement>::empty());
            assert(self.data_elements@ =~= Seq::<DataElement>::empty());
            assert(self.bfreqs@ =~= Seq::new(19, |k: int| 0u16));
            assert(self.lfreqs@ =~= Seq::new(286, |k: int| 0u16));
            assert(self.dfreqs@ =~= Seq::new(30, |k: int| 0u16));
            lemma_gce_keeps_config(
                w1,
                lc.0,
                lc.1,
                0,
                lc.0[0].length,
                0,
                if lc.0[0].length == 0 {
                    138
                } else {
                    6
                },
                0,
            );
            lemma_gce_keeps_config(
                gce_spec(w1, lc.0, lc.1),
                dc.0,
                dc.1,
                0,
                dc.0[0].length,
                0,
                if dc.0[0].length == 0 {
                    138
                } else {
                    6
                },
                0,
            );
            assert(self.bw() =~~= bw_reset(old(self).bw()));
        }
    }
}

/// The order in which the 19 code-length code lengths are transmitted.
pub open spec fn b_order_spec(i: usize) -> usize {
    if i == 0 {
        16
    } else if i == 1 {
        17
    } else if i == 2 {
        18
    } else if i == 3 {
        0
    } else if i == 4 {
        8
    } else if i == 5 {
        7
    } else if i == 6 {
        9
    } else if i == 7 {
        6
    } else if i == 8 {
        10
    } else if i == 9 {
        5
    } else if i == 10 {
        11
    } else if i == 11 {
        4
    } else if i == 12 {
        12
    } else if i == 13 {
        3
    } else if i == 14 {
        13
    } else if i == 15 {
        2
    } else if i == 16 {
        14
    } else if i == 17 {
        1
    } else {
        15
    }
}


fn b_order(i: usize) -> (r: usize)
    requires
        i < 19,
    ensures
        r == b_order_spec(i),
        r < 19,
{
    if i == 0 {
        16
    } else if i == 1 {
        17
    } else if i == 2 {
        18
    } else if i == 3 {
        0
    } else if i == 4 {
        8
    } else if i == 5 {
        7
    } else if i == 6 {
        9
    } else if i == 7 {
        6
    } else if i == 8 {
        10
    } else if i == 9 {
        5
    } else if i == 10 {
        11
    } else if i == 11 {
        4
    } else if i == 12 {
        12
    } else if i == 13 {
        3
    } else if i == 14 {
        13
    } else if i == 15 {
        2
    } else if i == 16 {
        14
    } else if i == 17 {
        1
    } else {
        15
    }
}

/// The rolling 3-byte hash of the historical encoder, as a pure function of
/// the three bytes at `q`: `((b0 << 10) ^ (b1 << 5) ^ b2) & mask`.
pub open spec fn hash3_spec(w: Seq<u8>, q: int, mask: u32) -> u32 {
    ((((w[q] as u32) * 0x400) as u32) ^ (((w[q + 1] as u32) * 0x20) as u32) ^ (w[q + 2] as u32))
        & mask
}

fn hash3(w: &Vec<u8>, q: usize, mask: u32) -> (h: u32)
    requires
        q + 2 < w@.len() <= 0x2_0000,
    ensures
        h == hash3_spec(w@, q as int, mask),
{
    (((w[q] as u32) * 0x400) ^ ((w[q + 1] as u32) * 0x20) ^ (w[q + 2] as u32)) & mask
}

/// The largest position in `[lo, q)` whose 3-byte hash equals `h`, or 0 when
/// none does — position 0 is never a candidate, as the historical encoder's
/// nil sentinel made it unreachable.
pub open spec fn head_scan(w: Seq<u8>, h: u32, mask: u32, lo: int, q: int) -> int
    decreases q,
{
    if q <= lo || q <= 0 {
        0
    } else if hash3_spec(w, q - 1, mask) == h {
        q - 1
    } else {
        head_scan(w, h, mask, lo, q - 1)
    }
}

proof fn lemma_head_scan_bound(w: Seq<u8>, h: u32, mask: u32, lo: int, q: int)
    ensures
        0 <= head_scan(w, h, mask, lo, q) < q || head_scan(w, h, mask, lo, q) == 0,
        head_scan(w, h, mask, lo, q) == 0 || head_scan(w, h, mask, lo, q) >= lo,
    decreases q,
{
    if q > lo && q > 0 && hash3_spec(w, q - 1, mask) != h {
        lemma_head_scan_bound(w, h, mask, lo, q - 1);
    }
}

/// The match extension beyond the three hashed bytes: how many of the next
/// 255 bytes at `mp+3` and `pos+3` agree, starting from offset `l`.
pub open spec fn scan255(w: Seq<u8>, mp: int, pos: int, l: int) -> int
    decreases 255 - l,
{
    if 0 <= l < 255 && w[mp + 3 + l] == w[pos + 3 + l] {
        scan255(w, mp, pos, l + 1)
    } else {
        l
    }
}

/// The chain walk from candidate `mp`: check the three-point filter, extend,
/// keep a strictly longer match, stop at `nice` or when the chain budget or
/// the distance limit runs out.
pub open spec fn walk(
    w: Seq<u8>,
    pos: int,
    h: u32,
    mask: u32,
    lo: int,
    limit: int,
    nice: int,
    mp: int,
    chain: int,
    bp: int,
    bl: int,
) -> (int, int)
    decreases mp,
    via walk_decreases
{
    let three = w[mp] == w[pos] && w[mp + 1] == w[pos + 1] && w[mp + bl] == w[pos + bl];
    let cand = 3 + scan255(w, mp, pos, 0);
    let better = three && cand > bl;
    let bp1 = if better {
        mp
    } else {
        bp
    };
    let bl1 = if better {
        cand
    } else {
        bl
    };
    if better && bl1 >= nice {
        (bp1, bl1)
    } else {
        let next = head_scan(w, h, mask, lo, mp);
        if next == 0 || next <= limit || chain - 1 == 0 || mp <= 0 {
            (bp1, bl1)
        } else {
            walk(w, pos, h, mask, lo, limit, nice, next, chain - 1, bp1, bl1)
        }
    }
}

#[via_fn]
proof fn walk_decreases(
    w: Seq<u8>,
    pos: int,
    h: u32,
    mask: u32,
    lo: int,
    limit: int,
    nice: int,
    mp: int,
    chain: int,
    bp: int,
    bl: int,
) {
    lemma_head_scan_bound(w, h, mask, lo, mp);
}

/// The whole search at `pos`: find the newest position with the same hash —
/// it alone may sit at the full distance limit — then walk the chain; with no
/// viable candidate the carried length comes back unchanged.
pub open spec fn gsearch_spec(w: Seq<u8>, pos: int, prev_len: int, chain: int, nice: int, mask: u32) -> (
    int,
    int,
) {
    let h = hash3_spec(w, pos, mask);
    let limit = if pos > 0x7EFA {
        pos - 0x7EFA
    } else {
        0
    };
    let lo = if limit > 1 {
        limit
    } else {
        1
    };
    if pos <= lo {
        (0, prev_len)
    } else {
        let head = head_scan(w, h, mask, lo, pos);
        if head == 0 {
            (0, prev_len)
        } else {
            walk(w, pos, h, mask, lo, limit, nice, head, chain, 0, prev_len)
        }
    }
}

/// Walks the hash chain at `pos` backwards, most recent position first, and
/// returns the best match found: the candidates are the positions before
/// `pos` whose 3-byte hash equals the one at `pos` (position 0 never counts),
/// at most `chain_length` of them, none farther back than `MAX_DIST` except
/// the most recent; a candidate wins only if strictly longer than the best so
/// far, which starts at `prev_len`, and the walk stops early at `nice_match`.
fn gzip_search(
    w: &Vec<u8>,
    pos: usize,
    prev_len: usize,
    chain_length: usize,
    nice_match: usize,
    mask: u32,
) -> (r: (usize, usize))
    requires
        w@.len() == 0x10000 + 258,
        pos < 0x10000,
        1 <= prev_len <= 258,
        chain_length >= 1,
    ensures
        (r.0 as int, r.1 as int) == gsearch_spec(
            w@,
            pos as int,
            prev_len as int,
            chain_length as int,
            nice_match as int,
            mask,
        ),
        prev_len <= r.1 <= 258,
        r.0 == 0 || r.0 < pos,
        r.1 > prev_len ==> r.0 + 1 <= pos && pos - r.0 <= 0x7EFA,
{
    let h = hash3(w, pos, mask);
    let limit = if pos > 0x7EFA {
        pos - 0x7EFA
    } else {
        0
    };

    // the most recent position with the same hash; distances up to MAX_DIST
    // are acceptable for it
    let lo = if limit > 1 {
        limit
    } else {
        1
    };
    if pos <= lo {
        return (0, prev_len);
    }
    let mut head: usize = 0;
    let mut q = pos;
    while q > lo && head == 0
        invariant
            lo <= q <= pos,
            pos < 0x10000,
            1 <= lo,
            w@.len() == 0x10000 + 258,
            head == 0 || lo <= head < pos,
            head == 0 ==> head_scan(w@, h, mask, lo as int, q as int) == head_scan(
                w@,
                h,
                mask,
                lo as int,
                pos as int,
            ),
            head != 0 ==> head as int == head_scan(w@, h, mask, lo as int, pos as int),
        decreases q,
    {
        q = q - 1;
        if hash3(w, q, mask) == h {
            head = q;
        }
    }
    if head == 0 {
        return (0, prev_len);
    }
    assert(head as int == head_scan(w@, h, mask, lo as int, pos as int));

    let mut best_pos: usize = 0;
    let mut best_len = prev_len;
    let mut mp = head;
    let mut chain = chain_length;
    let mut done = false;

    while !done
        invariant
            w@.len() == 0x10000 + 258,
            pos < 0x10000,
            1 <= lo,
            lo <= mp < pos,
            1 <= best_len <= 258,
            best_len >= prev_len,
            best_pos == 0 || best_pos < pos,
            best_len > prev_len ==> best_pos < pos && pos - best_pos <= 0x7EFA,
            limit == (if pos > 0x7EFA { pos - 0x7EFA } else { 0int }),
            limit <= lo,
            lo as int == (if limit > 1 { limit as int } else { 1int }),
            h == hash3_spec(w@, pos as int, mask),
            !done ==> chain >= 1,
            !done ==> walk(
                w@,
                pos as int,
                h,
                mask,
                lo as int,
                limit as int,
                nice_match as int,
                mp as int,
                chain as int,
                best_pos as int,
                best_len as int,
            ) == gsearch_spec(
                w@,
                pos as int,
                prev_len as int,
                chain_length as int,
                nice_match as int,
                mask,
            ),
            done ==> (best_pos as int, best_len as int) == gsearch_spec(
                w@,
                pos as int,
                prev_len as int,
                chain_length as int,
                nice_match as int,
                mask,
            ),
        decreases mp, (if done { 0int } else { 1int }),
    {
        if w[mp] == w[pos] && w[mp + 1] == w[pos + 1] && w[mp + best_len] == w[pos + best_len] {
            // the hash guarantees the third byte also matches
            let mut l: usize = 0;
            while l < 255 && w[mp + 3 + l] == w[pos + 3 + l]
                invariant
                    l <= 255,
                    mp < pos < 0x10000,
                    w@.len() == 0x10000 + 258,
                    scan255(w@, mp as int, pos as int, l as int) == scan255(
                        w@,
                        mp as int,
                        pos as int,
                        0,
                    ),
                decreases 255 - l,
            {
                l = l + 1;
            }
            assert(l as int == scan255(w@, mp as int, pos as int, 0));
            let candidate = 3 + l;
            if candidate > best_len {
                best_pos = mp;
                best_len = candidate;
                if best_len >= nice_match {
                    done = true;
                }
            }
        }
        if !done {
            // follow the chain: the next older position with the same hash
            let mut nq = mp;
            let mut next: usize = 0;
            while nq > lo && next == 0
                invariant
                    lo <= nq <= mp < pos < 0x10000,
                    1 <= lo,
                    w@.len() == 0x10000 + 258,
                    next == 0 || lo <= next < mp,
                    h == hash3_spec(w@, pos as int, mask),
                    next == 0 ==> head_scan(w@, h, mask, lo as int, nq as int) == head_scan(
                        w@,
                        h,
                        mask,
                        lo as int,
                        mp as int,
                    ),
                    next != 0 ==> next as int == head_scan(w@, h, mask, lo as int, mp as int),
                decreases nq,
            {
                nq = nq - 1;
                if hash3(w, nq, mask) == h {
                    next = nq;
                }
            }
            assert(next as int == head_scan(w@, h, mask, lo as int, mp as int));
            chain = chain - 1;
            if next == 0 || next <= limit || chain == 0 {
                done = true;
            } else {
                mp = next;
            }
        }
    }
    (best_pos, best_len)
}

/// The whole compressor state between iterations of the lazy-match loop.
#[verifier::ext_equal]
pub struct GzSt {
    pub window: Seq<u8>,
    pub pos: int,
    pub lookahead: int,
    pub input_pos: int,
    pub eof: bool,
    pub block_length: int,
    pub w: BwView,
    pub os: OsView,
    pub has_prev: bool,
    pub prev_len: int,
    pub prev_dist: int,
}

/// The per-level search thresholds:
/// `(good_match, max_lazy_match, nice_match, max_chain_length)`.
pub open spec fn level_cfg_spec(level: int) -> (int, int, int, int) {
    if level == 4 {
        (4, 4, 16, 16)
    } else if level == 5 {
        (8, 16, 32, 32)
    } else if level == 6 {
        (8, 16, 128, 128)
    } else if level == 7 {
        (8, 32, 128, 256)
    } else if level == 8 {
        (32, 128, 258, 1024)
    } else {
        (32, 258, 258, 4096)
    }
}

/// The 40 bytes the historical encoder's globals held past its window.
pub open spec fn garbage_spec() -> Seq<u8> {
    seq![
        0x00u8, 0x00u8, 0x00u8, 0x00u8, 0x03u8, 0x00u8, 0x00u8, 0x00u8, 0xB5u8, 0x2Fu8, 0x05u8,
        0x08u8, 0x00u8, 0x00u8, 0x00u8, 0x00u8, 0x00u8, 0x00u8, 0x00u8, 0x00u8, 0x52u8, 0xD0u8,
        0xFFu8, 0xFFu8, 0xD0u8, 0x4Au8, 0x05u8, 0x08u8, 0x00u8, 0x00u8, 0x00u8, 0x00u8, 0x00u8,
        0x00u8, 0x00u8, 0x00u8, 0x0Au8, 0x00u8, 0x00u8, 0x00u8,
    ]
}

/// The window buffer before compression starts: the first `ip0` input bytes,
/// the garbage pattern past the double window, zeros elsewhere.
pub open spec fn gzip_init_window(bytes: Seq<u8>, ip0: int) -> Seq<u8> {
    Seq::new(
        0x10000 + 258,
        |i: int|
            if i < ip0 {
                bytes[i]
            } else if 0x10000 <= i < 0x10000 + 40 {
                garbage_spec()[i - 0x10000]
            } else {
                0u8
            },
    )
}

/// The window refill: once the lookahead runs low past the slide point, the
/// upper half moves down and the next input chunk fills it.
pub open spec fn gz_refill(bytes: Seq<u8>, st: GzSt) -> GzSt {
    if st.lookahead < 262 && !st.eof && st.pos >= 0x8000 + 0x7EFA {
        let shifted = Seq::new(
            st.window.len(),
            |i: int|
                if i < 0x8000 {
                    st.window[0x8000 + i]
                } else {
                    st.window[i]
                },
        );
        let refill_end = if bytes.len() - st.input_pos >= 0x8000 {
            st.input_pos + 0x8000
        } else {
            bytes.len() as int
        };
        let rs = refill_end - st.input_pos;
        let filled = Seq::new(
            shifted.len(),
            |i: int|
                if 0x8000 <= i < 0x8000 + rs {
                    bytes[st.input_pos + (i - 0x8000)]
                } else {
                    shifted[i]
                },
        );
        GzSt {
            window: filled,
            pos: st.pos - 0x8000,
            lookahead: st.lookahead + rs,
            input_pos: refill_end,
            eof: if rs == 0 {
                true
            } else {
                st.eof
            },
            ..st
        }
    } else {
        st
    }
}

/// One iteration of the lazy-match loop: search (skipped when the carried
/// match is already lazy-long enough), clamp and demote a minimal too-far
/// match, then either emit the carried match or the carried literal, flush
/// when the writer says so, and refill the window.
pub open spec fn gzip_step(
    bytes: Seq<u8>,
    good: int,
    lazy: int,
    nice: int,
    maxchain: int,
    mask: u32,
    st: GzSt,
) -> GzSt {
    let chain = if st.prev_len >= good {
        maxchain / 4
    } else {
        maxchain
    };
    let sr = if st.prev_len < lazy {
        gsearch_spec(st.window, st.pos, st.prev_len, chain, nice, mask)
    } else {
        (0, st.prev_len)
    };
    let bl0 = if sr.1 <= st.lookahead {
        sr.1
    } else {
        st.lookahead
    };
    let bl = if bl0 == 3 && sr.0 + 4096 < st.pos {
        2
    } else {
        bl0
    };
    if st.prev_len >= 3 && st.prev_len >= bl {
        let w1 = add_match_spec(st.w, st.prev_len, st.prev_dist);
        let sf = should_flush_spec(w1, st.block_length);
        let block1 = if st.block_length <= usize::MAX as int - st.prev_len {
            st.block_length + st.prev_len - 1
        } else {
            st.block_length
        };
        let pos1 = st.pos + st.prev_len - 1;
        let look1 = st.lookahead - (st.prev_len - 1);
        let st1 = if sf {
            if pos1 >= block1 {
                GzSt {
                    block_length: 0,
                    w: bw_reset(w1),
                    os: flush_spec(w1, st.os, st.window, pos1 - block1, pos1, true, false),
                    pos: pos1,
                    lookahead: look1,
                    has_prev: false,
                    prev_len: 2,
                    prev_dist: 0,
                    ..st
                }
            } else {
                GzSt {
                    block_length: 0,
                    w: bw_reset(w1),
                    os: flush_spec(w1, st.os, st.window, 0, 0, false, false),
                    pos: pos1,
                    lookahead: look1,
                    has_prev: false,
                    prev_len: 2,
                    prev_dist: 0,
                    ..st
                }
            }
        } else {
            GzSt {
                block_length: block1,
                w: w1,
                pos: pos1,
                lookahead: look1,
                has_prev: false,
                prev_len: 2,
                prev_dist: 0,
                ..st
            }
        };
        gz_refill(bytes, st1)
    } else {
        let w1 = if st.has_prev {
            add_literal_spec(st.w, st.window[st.pos - 1])
        } else {
            st.w
        };
        let sf = if st.has_prev {
            should_flush_spec(w1, st.block_length)
        } else {
            false
        };
        let st1 = if sf {
            if st.pos >= st.block_length {
                GzSt {
                    block_length: 0,
                    w: bw_reset(w1),
                    os: flush_spec(
                        w1,
                        st.os,
                        st.window,
                        st.pos - st.block_length,
                        st.pos,
                        true,
                        false,
                    ),
                    ..st
                }
            } else {
                GzSt {
                    block_length: 0,
                    w: bw_reset(w1),
                    os: flush_spec(w1, st.os, st.window, 0, 0, false, false),
                    ..st
                }
            }
        } else {
            GzSt { w: w1, ..st }
        };
        let block2 = if st1.block_length < usize::MAX as int {
            st1.block_length + 1
        } else {
            st1.block_length
        };
        let st2 = GzSt {
            block_length: block2,
            pos: st1.pos + 1,
            lookahead: st1.lookahead - 1,
            has_prev: true,
            prev_len: bl,
            prev_dist: st1.pos + 1 - 1 - sr.0,
            ..st1
        };
        gz_refill(bytes, st2)
    }
}

/// The loop's termination measure: the input not yet consumed.
pub open spec fn gz_measure(bytes: Seq<u8>, st: GzSt) -> int {
    if 0 <= st.input_pos <= bytes.len() && st.lookahead >= 1 {
        bytes.len() - st.input_pos + st.lookahead
    } else {
        0
    }
}

/// The lazy-match loop, run until the lookahead is exhausted.
pub open spec fn gzip_loop(
    bytes: Seq<u8>,
    good: int,
    lazy: int,
    nice: int,
    maxchain: int,
    mask: u32,
    st: GzSt,
) -> GzSt
    decreases gz_measure(bytes, st),
    via gzip_loop_decreases
{
    if st.lookahead >= 1 && 0 <= st.input_pos <= bytes.len() && 1 <= st.prev_len {
        gzip_loop(bytes, good, lazy, nice, maxchain, mask, gzip_step(bytes, good, lazy, nice,
        maxchain, mask, st))
    } else {
        st
    }
}

#[via_fn]
proof fn gzip_loop_decreases(
    bytes: Seq<u8>,
    good: int,
    lazy: int,
    nice: int,
    maxchain: int,
    mask: u32,
    st: GzSt,
) {
    if st.lookahead >= 1 && 0 <= st.input_pos <= bytes.len() && 1 <= st.prev_len {
        let st2 = gzip_step(bytes, good, lazy, nice, maxchain, mask, st);
        assert(gz_measure(bytes, st2) < gz_measure(bytes, st));
    }
}

/// What the compressor returns: the full DEFLATE stream of the lazy-match
/// loop over the initial window, the final block, and the gzip trailer; or
/// `InvalidCompressionLevel` for a level outside 4 to 9.
pub open spec fn gzip_compress_spec(bytes: Seq<u8>, level: int, small_mem: bool) -> Result<
    Seq<u8>,
    Crunch64Error,
> {
    if !(4 <= level <= 9) {
        Err(Crunch64Error::InvalidCompressionLevel)
    } else {
        let cfg = level_cfg_spec(level);
        let bs: int = if small_mem {
            0x2000
        } else {
            0x8000
        };
        let mask: u32 = if small_mem {
            0x1FFF
        } else {
            0x7FFF
        };
        let ip0: int = if bytes.len() <= 0x10000 {
            bytes.len() as int
        } else {
            0x10000
        };
        let st0 = GzSt {
            window: gzip_init_window(bytes, ip0),
            pos: 0,
            lookahead: ip0,
            input_pos: ip0,
            eof: bytes.len() < 0x10000,
            block_length: 0,
            w: bw_init(bs),
            os: OsView { bytes: Seq::empty(), buf: 0, cnt: 0 },
            has_prev: false,
            prev_len: 2,
            prev_dist: 0,
        };
        let stf = gzip_loop(bytes, cfg.0, cfg.1, cfg.2, cfg.3, mask, st0);
        let w1 = if stf.has_prev {
            add_literal_spec(stf.w, stf.window[stf.pos - 1])
        } else {
            stf.w
        };
        let os1 = if stf.pos >= stf.block_length {
            flush_spec(w1, stf.os, stf.window, stf.pos - stf.block_length, stf.pos, true, true)
        } else {
            flush_spec(w1, stf.os, stf.window, 0, 0, false, true)
        };
        let os2 = os_write_u32_le(os1, crc32_of(bytes));
        let os3 = os_write_u32_le(os2, (bytes.len() % 0x1_0000_0000) as u32);
        Ok(os_flush(os3).bytes)
    }
}

/// The per-level search thresholds of the historical encoder:
/// `(good_match, max_lazy_match, nice_match, max_chain_length)`.
fn level_config(level: usize) -> (r: (usize, usize, usize, usize))
    requires
        4 <= level <= 9,
    ensures
        (r.0 as int, r.1 as int, r.2 as int, r.3 as int) == level_cfg_spec(level as int),
        r.3 >= 4,
{
    if level == 4 {
        (4, 4, 16, 16)
    } else if level == 5 {
        (8, 16, 32, 32)
    } else if level == 6 {
        (8, 16, 128, 128)
    } else if level == 7 {
        (8, 32, 128, 256)
    } else if level == 8 {
        (32, 128, 258, 1024)
    } else {
        (32, 258, 258, 4096)
    }
}

/// The gzip trailer that ends every output: the little-endian CRC-32 of the
/// input, then the input length modulo 2^32, little-endian.
pub open spec fn gzip_trailer(b: Seq<u8>) -> Seq<u8> {
    le32_bytes(crc32_of(b) as int) + le32_bytes(b.len() as int % 0x1_0000_0000)
}

/// Determinism: what the compressor returns is a function of the input
/// bytes, the level and the memory switch alone — two runs on identical
/// inputs produce identical outputs. The executable function ensures its
/// result equals this specification, so the law carries over to it.
pub proof fn lemma_gzip_deterministic(b1: Seq<u8>, b2: Seq<u8>, level: int, small_mem: bool)
    requires
        b1 == b2,
    ensures
        gzip_compress_spec(b1, level, small_mem) == gzip_compress_spec(b2, level, small_mem),
{
}

/// Largest possible compressed size for an input of `n` bytes: fixed-code
/// blocks of 9-bit literals, a 3-bit header per 0x1000-byte block, and the
/// 8-byte trailer.
pub fn compress_bound(input_size: usize) -> (r: usize)
    requires
        9 * input_size + 3 * (input_size / 0x1000 + 1) + 71 <= usize::MAX,
    ensures
        r == (3 * ((input_size + 0xFFF) as int / 0x1000) + 9 * input_size + 64 + 7) / 8,
{
    let blocks = input_size / 0x1000 + if input_size % 0x1000 != 0 {
        1
    } else {
        0
    };
    assert(blocks == (input_size + 0xFFF) as int / 0x1000);
    (3 * blocks + 9 * input_size + 64 + 7) / 8
}

/// Allocates the window: the first `ip0` input bytes, the historical garbage
/// pattern past the double window, zeros elsewhere. The historical encoder
/// could read past its window into neighbouring globals; their layout is
/// reproduced so that match extension sees the same bytes.
fn init_gzip_window(bytes: &[u8], ip0: usize) -> (w: Vec<u8>)
    requires
        ip0 <= bytes@.len(),
        ip0 <= 0x10000,
    ensures
        w@ == gzip_init_window(bytes@, ip0 as int),
{
    let mut window: Vec<u8> = vec![0u8; 0x10000 + 258];
    let mut garbage: Vec<u8> = Vec::new();
    garbage.push(0x00);
    garbage.push(0x00);
    garbage.push(0x00);
    garbage.push(0x00);
    garbage.push(0x03);
    garbage.push(0x00);
    garbage.push(0x00);
    garbage.push(0x00);
    garbage.push(0xB5);
    garbage.push(0x2F);
    garbage.push(0x05);
    garbage.push(0x08);
    garbage.push(0x00);
    garbage.push(0x00);
    garbage.push(0x00);
    garbage.push(0x00);
    garbage.push(0x00);
    garbage.push(0x00);
    garbage.push(0x00);
    garbage.push(0x00);
    garbage.push(0x52);
    garbage.push(0xD0);
    garbage.push(0xFF);
    garbage.push(0xFF);
    garbage.push(0xD0);
    garbage.push(0x4A);
    garbage.push(0x05);
    garbage.push(0x08);
    garbage.push(0x00);
    garbage.push(0x00);
    garbage.push(0x00);
    garbage.push(0x00);
    garbage.push(0x00);
    garbage.push(0x00);
    garbage.push(0x00);
    garbage.push(0x00);
    garbage.push(0x0A);
    garbage.push(0x00);
    garbage.push(0x00);
    garbage.push(0x00);
    assert(garbage@ =~= garbage_spec());
    let mut gi: usize = 0;
    while gi < 40
        invariant
            gi <= 40,
            window@.len() == 0x10000 + 258,
            garbage@ == garbage_spec(),
            forall|k: int|
                0 <= k < window@.len() && !(0x10000 <= k < 0x10000 + gi) ==> #[trigger] window@[k]
                    == 0u8,
            forall|k: int|
                0x10000 <= k < 0x10000 + gi ==> #[trigger] window@[k] == garbage_spec()[k
                    - 0x10000],
        decreases 40 - gi,
    {
        window[0x10000 + gi] = garbage[gi];
        gi = gi + 1;
    }

    let mut ci: usize = 0;
    while ci < ip0
        invariant
            ci <= ip0 <= bytes@.len(),
            ip0 <= 0x10000,
            window@.len() == 0x10000 + 258,
            forall|k: int| 0 <= k < ci ==> #[trigger] window@[k] == bytes@[k],
            forall|k: int|
                ci <= k < window@.len() && !(0x10000 <= k < 0x10000 + 40) ==> #[trigger] window@[k]
                    == 0u8,
            forall|k: int|
                0x10000 <= k < 0x10000 + 40 ==> #[trigger] window@[k] == garbage_spec()[k
                    - 0x10000],
        decreases ip0 - ci,
    {
        window[ci] = bytes[ci];
        ci = ci + 1;
    }
    assert(window@ =~= gzip_init_window(bytes@, ip0 as int));
    window
}

/// Compresses `bytes` as the legacy gzip encoder does at the given level,
/// producing a headerless DEFLATE stream that ends with the gzip trailer.
/// Levels outside 4 to 9 are rejected; `small_mem` halves the hash index and
/// shortens the block buffer, as the historical `--small-mem` switch did.
#[verifier::rlimit(100)]
pub fn compress(bytes: &[u8], level: usize, small_mem: bool) -> (r: Result<
    Vec<u8>,
    Crunch64Error,
>)
    ensures
        r matches Ok(v) ==> gzip_compress_spec(bytes@, level as int, small_mem) == Ok::<
            Seq<u8>,
            Crunch64Error,
        >(v@),
        r matches Err(e) ==> gzip_compress_spec(bytes@, level as int, small_mem) == Err::<
            Seq<u8>,
            Crunch64Error,
        >(e),
        r is Ok <==> 4 <= level <= 9,
        r matches Err(e) ==> e == Crunch64Error::InvalidCompressionLevel,
        r matches Ok(v) ==> v@.len() >= 8 && v@.subrange(v@.len() - 8, v@.len() as int)
            == gzip_trailer(bytes@),
{
    let input_size = bytes.len();

    // levels 0-3 use a different algorithm, which this encoder does not have
    if level < 4 || level > 9 {
        return Err(Crunch64Error::InvalidCompressionLevel);
    }

    let (good_match, max_lazy_match, nice_match, max_chain_length) = level_config(level);
    let buffer_size: usize = if small_mem {
        0x2000
    } else {
        0x8000
    };
    let hash_mask: u32 = if small_mem {
        0x1FFF
    } else {
        0x7FFF
    };

    let checksum = crc32(bytes);

    let mut output = OutputStream::new();
    let mut writer = BlockWriter::new(buffer_size);

    let mut input_pos: usize = if input_size <= 0x10000 {
        input_size
    } else {
        0x10000
    };
    let mut eof: bool = input_size < 0x10000;
    let mut block_length: usize = 0;

    let mut window: Vec<u8> = init_gzip_window(bytes, input_pos);

    let ghost st0 = GzSt {
        window: gzip_init_window(bytes@, input_pos as int),
        pos: 0,
        lookahead: input_pos as int,
        input_pos: input_pos as int,
        eof: bytes@.len() < 0x10000,
        block_length: 0,
        w: bw_init(buffer_size as int),
        os: OsView { bytes: Seq::empty(), buf: 0, cnt: 0 },
        has_prev: false,
        prev_len: 2,
        prev_dist: 0,
    };
    let ghost stf = gzip_loop(
        bytes@,
        good_match as int,
        max_lazy_match as int,
        nice_match as int,
        max_chain_length as int,
        hash_mask,
        st0,
    );

    let mut pos: usize = 0;
    let mut lookahead: usize = input_pos;

    let mut has_prev_char: bool = false;
    let mut prev_match_len: usize = 2;
    let mut prev_match_dist: usize = 0;

    while lookahead > 0
        invariant
            window@.len() == 0x10000 + 258,
            pos + lookahead <= 0x10000,
            input_pos <= bytes@.len(),
            bytes@.len() <= usize::MAX,
            1 <= prev_match_len <= 258,
            has_prev_char ==> pos >= 1,
            has_prev_char ==> prev_match_len <= lookahead + 1,
            prev_match_len >= 3 ==> 1 <= prev_match_dist <= 0x10000,
            writer.wf(),
            writer.buf_size() == buffer_size,
            writer.n_data() + 2 <= buffer_size,
            output.wf(),
            0x10 <= buffer_size <= 0x8000,
            max_chain_length >= 4,
            prev_match_len >= 3 ==> has_prev_char,
            gzip_loop(
                bytes@,
                good_match as int,
                max_lazy_match as int,
                nice_match as int,
                max_chain_length as int,
                hash_mask,
                GzSt {
                    window: window@,
                    pos: pos as int,
                    lookahead: lookahead as int,
                    input_pos: input_pos as int,
                    eof: eof,
                    block_length: block_length as int,
                    w: writer.bw(),
                    os: output.os(),
                    has_prev: has_prev_char,
                    prev_len: prev_match_len as int,
                    prev_dist: prev_match_dist as int,
                },
            ) == stf,
        decreases bytes@.len() - input_pos + lookahead,
    {
        let ghost st_top = GzSt {
            window: window@,
            pos: pos as int,
            lookahead: lookahead as int,
            input_pos: input_pos as int,
            eof: eof,
            block_length: block_length as int,
            w: writer.bw(),
            os: output.os(),
            has_prev: has_prev_char,
            prev_len: prev_match_len as int,
            prev_dist: prev_match_dist as int,
        };
        // find the longest match for the current position; a good previous
        // match quarters the number of chain entries worth visiting
        let chain = if prev_match_len >= good_match {
            max_chain_length / 4
        } else {
            max_chain_length
        };
        let (best_pos, best_len_raw) = if prev_match_len < max_lazy_match {
            gzip_search(&window, pos, prev_match_len, chain, nice_match, hash_mask)
        } else {
            (0, prev_match_len)
        };
        let mut best_len = if best_len_raw <= lookahead {
            best_len_raw
        } else {
            lookahead
        };
        if best_len == 3 && best_pos + 4096 < pos {
            // a minimum-length match that is too far away costs more than
            // literals
            best_len = 2;
        }

        let mut should_flush = false;
        if prev_match_len >= 3 && prev_match_len >= best_len {
            // emit the previous match
            writer.add_match(prev_match_len, prev_match_dist);
            should_flush = writer.should_flush_block(block_length);

            block_length = if block_length <= usize::MAX - prev_match_len {
                block_length + prev_match_len - 1
            } else {
                block_length
            };
            pos = pos + (prev_match_len - 1);
            lookahead = lookahead - (prev_match_len - 1);

            if should_flush {
                if pos >= block_length {
                    writer.flush_block(&mut output, &window, pos - block_length, pos, true, false);
                } else {
                    writer.flush_block(&mut output, &window, 0, 0, false, false);
                }
                block_length = 0;
            }

            has_prev_char = false;
            prev_match_len = 2;
            prev_match_dist = 0;
        } else {
            // emit the previous byte as a literal and carry the new match
            if has_prev_char {
                writer.add_literal(window[pos - 1]);
                should_flush = writer.should_flush_block(block_length);
            }

            if should_flush {
                if pos >= block_length {
                    writer.flush_block(&mut output, &window, pos - block_length, pos, true, false);
                } else {
                    writer.flush_block(&mut output, &window, 0, 0, false, false);
                }
                block_length = 0;
            }

            block_length = if block_length < usize::MAX {
                block_length + 1
            } else {
                block_length
            };
            pos = pos + 1;
            lookahead = lookahead - 1;

            has_prev_char = true;
            prev_match_len = best_len;
            prev_match_dist = pos - 1 - best_pos;
        }

        // refill the window once the lookahead runs low
        if lookahead < 262 && !eof && pos >= 0x8000 + 0x7EFA {
            let ghost wpre = window@;
            let mut i: usize = 0;
            while i < 0x8000
                invariant
                    i <= 0x8000,
                    window@.len() == 0x10000 + 258,
                    wpre.len() == 0x10000 + 258,
                    forall|k: int| 0 <= k < i ==> #[trigger] window@[k] == wpre[0x8000 + k],
                    forall|k: int| i <= k < window@.len() ==> #[trigger] window@[k] == wpre[k],
                decreases 0x8000 - i,
            {
                let v = window[0x8000 + i];
                window[i] = v;
                i = i + 1;
            }
            let ghost wshift = Seq::new(
                wpre.len(),
                |k: int|
                    if k < 0x8000 {
                        wpre[0x8000 + k]
                    } else {
                        wpre[k]
                    },
            );
            assert(window@ =~= wshift);
            pos = pos - 0x8000;

            let refill_end = if bytes.len() - input_pos >= 0x8000 {
                input_pos + 0x8000
            } else {
                bytes.len()
            };
            let refill_size = refill_end - input_pos;
            let mut j: usize = 0;
            while j < refill_size
                invariant
                    j <= refill_size,
                    refill_size <= 0x8000,
                    input_pos + refill_size <= bytes@.len(),
                    bytes@.len() <= usize::MAX,
                    window@.len() == 0x10000 + 258,
                    wshift.len() == 0x10000 + 258,
                    forall|k: int|
                        0x8000 <= k < 0x8000 + j ==> #[trigger] window@[k] == bytes@[input_pos + (k
                            - 0x8000)],
                    forall|k: int|
                        0 <= k < window@.len() && !(0x8000 <= k < 0x8000 + j)
                            ==> #[trigger] window@[k] == wshift[k],
                decreases refill_size - j,
            {
                let v = bytes[input_pos + j];
                window[0x8000 + j] = v;
                j = j + 1;
            }
            proof {
                let rs = refill_size as int;
                assert(window@ =~= Seq::new(
                    wshift.len(),
                    |k: int|
                        if 0x8000 <= k < 0x8000 + rs {
                            bytes@[input_pos + (k - 0x8000)]
                        } else {
                            wshift[k]
                        },
                ));
            }

            input_pos = refill_end;
            lookahead = lookahead + refill_size;
            if refill_size == 0 {
                eof = true;
            }
        }
        proof {
            let stepd = gzip_step(
                bytes@,
                good_match as int,
                max_lazy_match as int,
                nice_match as int,
                max_chain_length as int,
                hash_mask,
                st_top,
            );
            assert(GzSt {
                window: window@,
                pos: pos as int,
                lookahead: lookahead as int,
                input_pos: input_pos as int,
                eof: eof,
                block_length: block_length as int,
                w: writer.bw(),
                os: output.os(),
                has_prev: has_prev_char,
                prev_len: prev_match_len as int,
                prev_dist: prev_match_dist as int,
            } =~~= stepd);
        }
    }

    proof {
        assert(GzSt {
            window: window@,
            pos: pos as int,
            lookahead: lookahead as int,
            input_pos: input_pos as int,
            eof: eof,
            block_length: block_length as int,
            w: writer.bw(),
            os: output.os(),
            has_prev: has_prev_char,
            prev_len: prev_match_len as int,
            prev_dist: prev_match_dist as int,
        } =~~= stf);
    }
    if has_prev_char {
        writer.add_literal(window[pos - 1]);
    }

    if pos >= block_length {
        writer.flush_block(&mut output, &window, pos - block_length, pos, true, true);
    } else {
        writer.flush_block(&mut output, &window, 0, 0, false, true);
    }

    output.write_u32_le(checksum);
    let size32: u32 = ((input_size as u64) % 0x1_0000_0000) as u32;
    output.write_u32_le(size32);
    let out = output.into_vec();
    proof {
        assert(out@.subrange(out@.len() - 8, out@.len() as int) =~= gzip_trailer(bytes@));
        assert(gzip_compress_spec(bytes@, level as int, small_mem) == Ok::<Seq<u8>, Crunch64Error>(
            out@,
        ));
    }
    Ok(out)
}

} // verus!
