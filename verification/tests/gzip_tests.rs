use crunch64::gzip;

fn trailer_of(out: &[u8]) -> (&[u8], &[u8]) {
    let n = out.len();
    (&out[n - 8..n - 4], &out[n - 4..n])
}

fn le32(v: u32) -> Vec<u8> {
    vec![
        (v & 0xFF) as u8,
        ((v >> 8) & 0xFF) as u8,
        ((v >> 16) & 0xFF) as u8,
        ((v >> 24) & 0xFF) as u8,
    ]
}

#[test]
fn gzip_rejects_bad_levels() {
    assert_eq!(
        gzip::compress(b"abc", 3, false),
        Err(crunch64::Crunch64Error::InvalidCompressionLevel)
    );
    assert_eq!(
        gzip::compress(b"abc", 10, true),
        Err(crunch64::Crunch64Error::InvalidCompressionLevel)
    );
    assert_eq!(gzip::compress(b"abc", 0, false), Err(crunch64::Crunch64Error::InvalidCompressionLevel));
}

#[test]
fn gzip_empty_input() {
    // a fixed block holding only the end-of-block symbol, then CRC 0 and
    // size 0
    let out = gzip::compress(&[], 9, false).unwrap();
    assert_eq!(out, vec![0x03, 0x00, 0x00, 0x00, 0x00, 0x00, 0x00, 0x00, 0x00, 0x00]);
}

#[test]
fn gzip_hello_world_trailer() {
    // CRC32("Hello, world!") is EBE6C6E6
    let out = gzip::compress(b"Hello, world!", 9, false).unwrap();
    let (crc, size) = trailer_of(&out);
    assert_eq!(crc, &[0xE6, 0xC6, 0xE6, 0xEB]);
    assert_eq!(size, &[0x0D, 0x00, 0x00, 0x00]);
    // BFINAL set, fixed block
    assert_eq!(out[0] % 8, 3);
}

#[test]
fn gzip_heavy_matching_dynamic_block() {
    let data = vec![0xFFu8; 0x10000];
    let out = gzip::compress(&data, 9, false).unwrap();
    let (crc, size) = trailer_of(&out);
    assert_eq!(crc, le32(crc32fast::hash(&data)).as_slice());
    assert_eq!(size, &[0x00, 0x00, 0x01, 0x00]);
    // BFINAL set, dynamic block
    assert_eq!(out[0] % 8, 5);
    // heavy matching: far smaller than the input
    assert!(out.len() < 0x400);
}

fn window_data(n: usize) -> Vec<u8> {
    let mut v = Vec::new();
    for i in 0..n {
        v.push((i % 253) as u8);
    }
    v
}

#[test]
fn gzip_window_boundaries() {
    // sizes around the window and double-window boundaries exercise the
    // refill path
    for n in [0x8000usize, 0x8001, 0x10000, 0x10001] {
        let data = window_data(n);
        let out = gzip::compress(&data, 9, false).unwrap();
        let again = gzip::compress(&data, 9, false).unwrap();
        assert_eq!(out, again);
        let (crc, size) = trailer_of(&out);
        assert_eq!(crc, le32(crc32fast::hash(&data)).as_slice());
        assert_eq!(size, le32(n as u32).as_slice());
    }
}

#[test]
fn gzip_too_far_rejection() {
    // a three-byte match whose only source is more than 4096 bytes back is
    // rejected and written as literals
    let mut data = Vec::new();
    data.push(0xAA);
    data.push(0xBB);
    data.push(0xCC);
    for i in 0..4200usize {
        data.push((i % 7) as u8 + 1);
    }
    data.push(0xAA);
    data.push(0xBB);
    data.push(0xCC);
    data.push(0xDD);
    let out = gzip::compress(&data, 9, false).unwrap();
    let (crc, size) = trailer_of(&out);
    assert_eq!(crc, le32(crc32fast::hash(&data)).as_slice());
    assert_eq!(size, le32(data.len() as u32).as_slice());
}

#[test]
fn gzip_small_mem_variant() {
    let data = window_data(0x5000);
    let big = gzip::compress(&data, 9, false).unwrap();
    let small = gzip::compress(&data, 9, true).unwrap();
    let small2 = gzip::compress(&data, 9, true).unwrap();
    assert_eq!(small, small2);
    let (crc_b, _) = trailer_of(&big);
    let (crc_s, _) = trailer_of(&small);
    assert_eq!(crc_b, crc_s);
}

#[test]
fn gzip_levels_four_to_nine() {
    let data = window_data(0x3000);
    for level in 4..=9usize {
        let out = gzip::compress(&data, level, false).unwrap();
        let (crc, size) = trailer_of(&out);
        assert_eq!(crc, le32(crc32fast::hash(&data)).as_slice());
        assert_eq!(size, le32(data.len() as u32).as_slice());
    }
}

#[test]
fn gzip_skewed_frequencies() {
    // a strongly skewed symbol distribution stresses the code-length
    // adjustment in the Huffman builder
    let mut data = Vec::new();
    let mut a: usize = 1;
    let mut b: usize = 1;
    for sym in 0..20u8 {
        for k in 0..a {
            data.push(sym * 11 + (k % 3) as u8);
        }
        let c = a + b;
        a = b;
        b = if c > 4000 { 4000 } else { c };
    }
    let out = gzip::compress(&data, 4, true).unwrap();
    let again = gzip::compress(&data, 4, true).unwrap();
    assert_eq!(out, again);
    let (crc, size) = trailer_of(&out);
    assert_eq!(crc, le32(crc32fast::hash(&data)).as_slice());
    assert_eq!(size, le32(data.len() as u32).as_slice());
}

#[test]
fn gzip_compress_bound_formula() {
    assert_eq!(gzip::compress_bound(0), 8);
    assert_eq!(gzip::compress_bound(0x1000), (3 + 9 * 0x1000 + 64 + 7) / 8);
}
