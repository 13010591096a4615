use crunch64::yaz0;

/// Reference pair: "ABCABCABCABC" compresses to a 0x10-byte header, the
/// control byte 0xE0 (three literals, then a match), the literals A B C, and
/// the two-byte match (offset 2, length 9).
fn fixture_plain() -> Vec<u8> {
    b"ABCABCABCABC".to_vec()
}

fn fixture_compressed() -> Vec<u8> {
    let mut v = vec![
        0x59, 0x61, 0x7A, 0x30, 0x00, 0x00, 0x00, 0x0C, 0x00, 0x00, 0x00, 0x00, 0x00, 0x00, 0x00,
        0x00,
    ];
    v.push(0xE0);
    v.push(0x41);
    v.push(0x42);
    v.push(0x43);
    v.push(0x70);
    v.push(0x02);
    v
}

/// A deterministic mildly compressible buffer for the cycle tests.
fn cycle_data() -> Vec<u8> {
    let mut v = Vec::new();
    let mut x: u32 = 7;
    for i in 0..6000usize {
        if i % 11 < 4 {
            v.push((i % 251) as u8);
        } else {
            x = x.wrapping_mul(1103515245).wrapping_add(12345);
            v.push((x >> 16) as u8);
        }
    }
    for _ in 0..700usize {
        v.push(0x5A);
    }
    v
}

#[test]
fn yaz0_test_matching_decompression() {
    let decompressed = yaz0::decompress(&fixture_compressed()).unwrap();
    assert_eq!(decompressed, fixture_plain());
}

#[test]
fn yaz0_test_matching_compression() {
    let compressed = yaz0::compress(&fixture_plain()).unwrap();
    assert_eq!(compressed, fixture_compressed());
    assert_eq!(compressed.len(), 22);
}

#[test]
fn test_cycle_decompressed() {
    let data = cycle_data();
    let compressed = yaz0::compress(&data).unwrap();
    let decompressed = yaz0::decompress(&compressed).unwrap();
    assert_eq!(decompressed, data);
}

#[test]
fn test_cycle_compressed() {
    let compressed = fixture_compressed();
    let recompressed = yaz0::compress(&yaz0::decompress(&compressed).unwrap()).unwrap();
    assert_eq!(recompressed, compressed);
}

#[test]
fn yaz0_single_byte() {
    let compressed = yaz0::compress(&[0x7F]).unwrap();
    let expected = vec![
        0x59, 0x61, 0x7A, 0x30, 0x00, 0x00, 0x00, 0x01, 0x00, 0x00, 0x00, 0x00, 0x00, 0x00, 0x00,
        0x00, 0x80, 0x7F,
    ];
    assert_eq!(compressed, expected);
    assert_eq!(yaz0::decompress(&compressed).unwrap(), vec![0x7F]);
}

#[test]
fn yaz0_empty_input() {
    let compressed = yaz0::compress(&[]).unwrap();
    let expected = vec![
        0x59, 0x61, 0x7A, 0x30, 0x00, 0x00, 0x00, 0x00, 0x00, 0x00, 0x00, 0x00, 0x00, 0x00, 0x00,
        0x00,
    ];
    assert_eq!(compressed, expected);
    assert_eq!(yaz0::decompress(&compressed).unwrap(), Vec::<u8>::new());
}

#[test]
fn yaz0_max_match_length() {
    // a run of 0x112 identical bytes: one literal, then one match of the
    // maximum length 0x111, encoded in the three-byte form
    let data = vec![0x41u8; 0x112];
    let compressed = yaz0::compress(&data).unwrap();
    let expected = vec![
        0x59, 0x61, 0x7A, 0x30, 0x00, 0x00, 0x01, 0x12, 0x00, 0x00, 0x00, 0x00, 0x00, 0x00, 0x00,
        0x00, 0x80, 0x41, 0x00, 0x00, 0xFF,
    ];
    assert_eq!(compressed, expected);
    assert_eq!(yaz0::decompress(&compressed).unwrap(), data);
}

#[test]
fn yaz0_bad_magic() {
    let mut bad = fixture_compressed();
    bad[3] = 0x31;
    assert_eq!(yaz0::decompress(&bad), Err(crunch64::Crunch64Error::InvalidYaz0Header));
}

#[test]
fn yaz0_nonzero_padding() {
    let mut bad = fixture_compressed();
    bad[9] = 1;
    assert_eq!(yaz0::decompress(&bad), Err(crunch64::Crunch64Error::InvalidYaz0Header));
}

#[test]
fn yaz0_short_header() {
    assert_eq!(
        yaz0::decompress(&[0x59, 0x61, 0x7A, 0x30]),
        Err(crunch64::Crunch64Error::InvalidYaz0Header)
    );
}

#[test]
fn yaz0_truncated_stream() {
    // a match token needs two bytes; only one remains
    let bad = vec![
        0x59, 0x61, 0x7A, 0x30, 0x00, 0x00, 0x00, 0x08, 0x00, 0x00, 0x00, 0x00, 0x00, 0x00, 0x00,
        0x00, 0x00, 0x12,
    ];
    assert_eq!(yaz0::decompress(&bad), Err(crunch64::Crunch64Error::OutOfBounds));
}

#[test]
fn yaz0_decompress_bound_reads_header() {
    let data = cycle_data();
    let compressed = yaz0::compress(&data).unwrap();
    assert_eq!(yaz0::decompress_bound(&compressed[..0x10]).unwrap(), data.len());
    assert_eq!(yaz0::compress_bound(data.len()), data.len() + (data.len() + 7) / 8 + 0x10);
    assert!(compressed.len() <= yaz0::compress_bound(data.len()));
}

#[test]
fn yaz0_deterministic() {
    let data = cycle_data();
    let a = yaz0::compress(&data).unwrap();
    let b = yaz0::compress(&data).unwrap();
    assert_eq!(a, b);
}
