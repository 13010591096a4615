//! Round-trip validation of the legacy-gzip compressor: a small DEFLATE
//! decoder, written here only for testing, inflates the compressed stream and
//! the result must equal the original input.

use crunch64::gzip;

struct BitReader<'a> {
    data: &'a [u8],
    pos: usize,
    bit: u32,
}

impl<'a> BitReader<'a> {
    fn new(data: &'a [u8]) -> Self {
        BitReader { data, pos: 0, bit: 0 }
    }

    fn read_bit(&mut self) -> u32 {
        let b = (self.data[self.pos] >> self.bit) & 1;
        self.bit += 1;
        if self.bit == 8 {
            self.bit = 0;
            self.pos += 1;
        }
        b as u32
    }

    fn read_bits(&mut self, n: u32) -> u32 {
        let mut v = 0u32;
        for i in 0..n {
            v |= self.read_bit() << i;
        }
        v
    }

    fn align(&mut self) {
        if self.bit != 0 {
            self.bit = 0;
            self.pos += 1;
        }
    }
}

/// Canonical Huffman decoding directly from the code lengths.
struct Decoder {
    // symbols sorted by (length, symbol), with per-length first codes
    counts: Vec<u32>,
    symbols: Vec<u32>,
}

impl Decoder {
    fn new(lengths: &[u8]) -> Decoder {
        let maxlen = 15usize;
        let mut counts = vec![0u32; maxlen + 1];
        for &l in lengths {
            counts[l as usize] += 1;
        }
        counts[0] = 0;
        let mut offs = vec![0u32; maxlen + 2];
        for l in 1..=maxlen {
            offs[l + 1] = offs[l] + counts[l];
        }
        let mut symbols = vec![0u32; lengths.len()];
        for (s, &l) in lengths.iter().enumerate() {
            if l != 0 {
                symbols[offs[l as usize] as usize] = s as u32;
                offs[l as usize] += 1;
            }
        }
        Decoder { counts, symbols }
    }

    fn decode(&self, r: &mut BitReader) -> u32 {
        let mut code = 0u32;
        let mut first = 0u32;
        let mut index = 0u32;
        for len in 1..=15usize {
            code |= r.read_bit();
            let count = self.counts[len];
            if code < first + count {
                return self.symbols[(index + (code - first)) as usize];
            }
            index += count;
            first = (first + count) << 1;
            code <<= 1;
        }
        panic!("invalid Huffman code in stream");
    }
}

const LENGTH_BASE: [u32; 29] = [
    3, 4, 5, 6, 7, 8, 9, 10, 11, 13, 15, 17, 19, 23, 27, 31, 35, 43, 51, 59, 67, 83, 99, 115, 131,
    163, 195, 227, 258,
];
const LENGTH_EXTRA: [u32; 29] = [
    0, 0, 0, 0, 0, 0, 0, 0, 1, 1, 1, 1, 2, 2, 2, 2, 3, 3, 3, 3, 4, 4, 4, 4, 5, 5, 5, 5, 0,
];
const DIST_BASE: [u32; 30] = [
    1, 2, 3, 4, 5, 7, 9, 13, 17, 25, 33, 49, 65, 97, 129, 193, 257, 385, 513, 769, 1025, 1537,
    2049, 3073, 4097, 6145, 8193, 12289, 16385, 24577,
];
const DIST_EXTRA: [u32; 30] = [
    0, 0, 0, 0, 1, 1, 2, 2, 3, 3, 4, 4, 5, 5, 6, 6, 7, 7, 8, 8, 9, 9, 10, 10, 11, 11, 12, 12, 13,
    13,
];
const CLEN_ORDER: [usize; 19] = [16, 17, 18, 0, 8, 7, 9, 6, 10, 5, 11, 4, 12, 3, 13, 2, 14, 1, 15];

fn fixed_decoders() -> (Decoder, Decoder) {
    let mut llen = vec![8u8; 288];
    for i in 144..256 {
        llen[i] = 9;
    }
    for i in 256..280 {
        llen[i] = 7;
    }
    (Decoder::new(&llen), Decoder::new(&vec![5u8; 30]))
}

fn inflate_body(lit: &Decoder, dist: &Decoder, r: &mut BitReader, out: &mut Vec<u8>) {
    loop {
        let sym = lit.decode(r);
        if sym < 256 {
            out.push(sym as u8);
        } else if sym == 256 {
            return;
        } else {
            let li = (sym - 257) as usize;
            assert!(li < 29, "bad length symbol");
            let length = LENGTH_BASE[li] + r.read_bits(LENGTH_EXTRA[li]);
            let ds = dist.decode(r) as usize;
            assert!(ds < 30, "bad distance symbol");
            let distance = (DIST_BASE[ds] + r.read_bits(DIST_EXTRA[ds])) as usize;
            assert!(distance <= out.len(), "distance past start of output");
            for _ in 0..length {
                let v = out[out.len() - distance];
                out.push(v);
            }
        }
    }
}

/// Inflates a headerless DEFLATE stream and checks the gzip trailer.
fn inflate(data: &[u8]) -> Vec<u8> {
    let mut r = BitReader::new(data);
    let mut out: Vec<u8> = Vec::new();
    loop {
        let bfinal = r.read_bit();
        let btype = r.read_bits(2);
        match btype {
            0 => {
                r.align();
                let len = (data[r.pos] as usize) | ((data[r.pos + 1] as usize) << 8);
                let nlen = (data[r.pos + 2] as usize) | ((data[r.pos + 3] as usize) << 8);
                assert_eq!(len ^ nlen, 0xFFFF, "stored block length check");
                r.pos += 4;
                for _ in 0..len {
                    out.push(data[r.pos]);
                    r.pos += 1;
                }
            }
            1 => {
                let (lit, dst) = fixed_decoders();
                inflate_body(&lit, &dst, &mut r, &mut out);
            }
            2 => {
                let hlit = r.read_bits(5) as usize + 257;
                let hdist = r.read_bits(5) as usize + 1;
                let hclen = r.read_bits(4) as usize + 4;
                let mut clen = vec![0u8; 19];
                for i in 0..hclen {
                    clen[CLEN_ORDER[i]] = r.read_bits(3) as u8;
                }
                let cdec = Decoder::new(&clen);
                let mut lengths = vec![0u8; hlit + hdist];
                let mut i = 0usize;
                while i < hlit + hdist {
                    let s = cdec.decode(&mut r);
                    if s < 16 {
                        lengths[i] = s as u8;
                        i += 1;
                    } else if s == 16 {
                        let rep = 3 + r.read_bits(2) as usize;
                        assert!(i > 0, "repeat with no previous length");
                        let prev = lengths[i - 1];
                        for _ in 0..rep {
                            lengths[i] = prev;
                            i += 1;
                        }
                    } else if s == 17 {
                        i += 3 + r.read_bits(3) as usize;
                    } else {
                        i += 11 + r.read_bits(7) as usize;
                    }
                }
                let lit = Decoder::new(&lengths[..hlit]);
                let dst = Decoder::new(&lengths[hlit..]);
                inflate_body(&lit, &dst, &mut r, &mut out);
            }
            _ => panic!("invalid block type"),
        }
        if bfinal == 1 {
            break;
        }
    }
    // gzip trailer: CRC-32 of the payload, then its size modulo 2^32
    let t = &data[data.len() - 8..];
    let crc = u32::from_le_bytes([t[0], t[1], t[2], t[3]]);
    let size = u32::from_le_bytes([t[4], t[5], t[6], t[7]]);
    assert_eq!(crc, crc32fast::hash(&out), "trailer CRC");
    assert_eq!(size, out.len() as u32, "trailer size");
    out
}

fn round_trip(data: &[u8], level: usize, small_mem: bool) {
    let compressed = gzip::compress(data, level, small_mem).unwrap();
    let inflated = inflate(&compressed);
    assert_eq!(inflated, data, "round trip at level {} small_mem {}", level, small_mem);
}

fn mixed_data(n: usize, seed: u32) -> Vec<u8> {
    let mut v = Vec::new();
    let mut x = seed;
    let words: [&[u8]; 4] = [b"the quick", b"brown fox", b"jumps over", b"lazy dogs"];
    while v.len() < n {
        x = x.wrapping_mul(1103515245).wrapping_add(12345);
        match (x >> 24) % 4 {
            0 => v.extend_from_slice(words[((x >> 16) % 4) as usize]),
            1 => v.push((x >> 8) as u8),
            2 => {
                for _ in 0..((x >> 12) % 9) {
                    v.push(0);
                }
            }
            _ => v.extend_from_slice(b"0123456789"),
        }
    }
    v.truncate(n);
    v
}

#[test]
fn gzip_round_trip_small_inputs() {
    round_trip(b"", 9, false);
    round_trip(b"a", 9, false);
    round_trip(b"Hello, world!", 9, false);
    round_trip(b"aaaaaaaaaaaaaaaaaaaaaaaaaaaaaaaa", 9, false);
    round_trip(b"abcabcabcabcabcabcabcabc", 6, false);
}

#[test]
fn gzip_round_trip_levels_and_memory() {
    let data = mixed_data(0x4000, 42);
    for level in 4..=9usize {
        round_trip(&data, level, false);
        round_trip(&data, level, true);
    }
}

#[test]
fn gzip_round_trip_window_refill() {
    let data = mixed_data(0x10800, 7);
    round_trip(&data, 9, false);
    round_trip(&data, 6, true);
}

#[test]
fn gzip_round_trip_incompressible() {
    // byte soup with few repeats favours stored blocks
    let mut v = Vec::new();
    let mut x: u32 = 1;
    for _ in 0..0x2000usize {
        x = x.wrapping_mul(48271) % 0x7FFFFFFF;
        v.push((x >> 7) as u8);
    }
    round_trip(&v, 9, false);
    round_trip(&v, 4, true);
}
