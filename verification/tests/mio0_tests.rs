use crunch64::mio0;

/// Reference pair: 16 bytes repeating 00 01 02 compress to one control word
/// 0xE0000000, three literals, and a single link 0xA002 (length 13, offset 3).
fn fixture_plain() -> Vec<u8> {
    let mut v = Vec::new();
    for i in 0..16usize {
        v.push((i % 3) as u8);
    }
    v
}

fn fixture_compressed() -> Vec<u8> {
    vec![
        0x4D, 0x49, 0x4F, 0x30, 0x00, 0x00, 0x00, 0x10, 0x00, 0x00, 0x00, 0x14, 0x00, 0x00, 0x00,
        0x16, 0xE0, 0x00, 0x00, 0x00, 0xA0, 0x02, 0x00, 0x01, 0x02,
    ]
}

fn cycle_data() -> Vec<u8> {
    let mut v = Vec::new();
    let mut x: u32 = 3;
    for i in 0..4000usize {
        if i % 9 < 5 {
            v.push((i % 17) as u8);
        } else {
            x = x.wrapping_mul(1103515245).wrapping_add(12345);
            v.push((x >> 20) as u8);
        }
    }
    v
}

#[test]
fn mio0_repeating_pattern() {
    let compressed = mio0::compress(&fixture_plain()).unwrap();
    assert_eq!(compressed, fixture_compressed());
}

#[test]
fn mio0_decompression() {
    assert_eq!(mio0::decompress(&fixture_compressed()).unwrap(), fixture_plain());
}

#[test]
fn mio0_cycle() {
    let data = cycle_data();
    let compressed = mio0::compress(&data).unwrap();
    assert_eq!(mio0::decompress(&compressed).unwrap(), data);
}

#[test]
fn mio0_empty_input() {
    let compressed = mio0::compress(&[]).unwrap();
    let expected = vec![
        0x4D, 0x49, 0x4F, 0x30, 0x00, 0x00, 0x00, 0x00, 0x00, 0x00, 0x00, 0x10, 0x00, 0x00, 0x00,
        0x10,
    ];
    assert_eq!(compressed, expected);
    assert_eq!(mio0::decompress(&compressed).unwrap(), Vec::<u8>::new());
}

#[test]
fn mio0_length_nibble_zero_valid() {
    // nibble 0 encodes the minimum length 3: literals ABC then a match of
    // length 3 at distance 3 yields ABCABC
    let stream = vec![
        0x4D, 0x49, 0x4F, 0x30, 0x00, 0x00, 0x00, 0x06, 0x00, 0x00, 0x00, 0x14, 0x00, 0x00, 0x00,
        0x16, 0xE0, 0x00, 0x00, 0x00, 0x00, 0x02, 0x41, 0x42, 0x43,
    ];
    assert_eq!(mio0::decompress(&stream).unwrap(), b"ABCABC".to_vec());
}

#[test]
fn mio0_length_nibble_fifteen_valid() {
    // nibble 15 encodes the maximum length 18
    let stream = vec![
        0x4D, 0x49, 0x4F, 0x30, 0x00, 0x00, 0x00, 0x15, 0x00, 0x00, 0x00, 0x14, 0x00, 0x00, 0x00,
        0x16, 0xE0, 0x00, 0x00, 0x00, 0xF0, 0x02, 0x41, 0x42, 0x43,
    ];
    let mut expected = Vec::new();
    for i in 0..21usize {
        expected.push(b"ABC"[i % 3]);
    }
    assert_eq!(mio0::decompress(&stream).unwrap(), expected);
}

#[test]
fn mio0_reference_before_start_invalid() {
    // the very first token is a match, so any distance reaches out of bounds
    let stream = vec![
        0x4D, 0x49, 0x4F, 0x30, 0x00, 0x00, 0x00, 0x06, 0x00, 0x00, 0x00, 0x14, 0x00, 0x00, 0x00,
        0x16, 0x00, 0x00, 0x00, 0x00, 0xF0, 0x05, 0x41, 0x42, 0x43,
    ];
    assert_eq!(mio0::decompress(&stream), Err(crunch64::Crunch64Error::OutOfBounds));
}

#[test]
fn mio0_bad_magic() {
    let mut bad = fixture_compressed();
    bad[0] = 0x4E;
    assert_eq!(mio0::decompress(&bad), Err(crunch64::Crunch64Error::InvalidMio0Header));
}

#[test]
fn mio0_decompress_bound_reads_header() {
    let data = cycle_data();
    let compressed = mio0::compress(&data).unwrap();
    assert_eq!(mio0::decompress_bound(&compressed[..0x10]).unwrap(), data.len());
}

#[test]
fn mio0_deterministic() {
    let data = cycle_data();
    assert_eq!(mio0::compress(&data).unwrap(), mio0::compress(&data).unwrap());
}
