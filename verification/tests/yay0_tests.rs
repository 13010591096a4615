use crunch64::yay0;

/// Reference pair: "ABCABCABCABC" compresses to the header, one control word
/// 0xE0000000, the link 0x7002 (length 9, offset 2), and the literals A B C.
fn fixture_plain() -> Vec<u8> {
    b"ABCABCABCABC".to_vec()
}

fn fixture_compressed() -> Vec<u8> {
    vec![
        0x59, 0x61, 0x79, 0x30, 0x00, 0x00, 0x00, 0x0C, 0x00, 0x00, 0x00, 0x14, 0x00, 0x00, 0x00,
        0x16, 0xE0, 0x00, 0x00, 0x00, 0x70, 0x02, 0x41, 0x42, 0x43,
    ]
}

fn cycle_data() -> Vec<u8> {
    let mut v = Vec::new();
    let mut x: u32 = 99;
    for i in 0..5000usize {
        if i % 7 < 3 {
            v.push((i % 13) as u8);
        } else {
            x = x.wrapping_mul(1103515245).wrapping_add(12345);
            v.push((x >> 18) as u8);
        }
    }
    v
}

#[test]
fn yay0_test_matching_decompression() {
    let decompressed = yay0::decompress(&fixture_compressed()).unwrap();
    assert_eq!(decompressed, fixture_plain());
}

#[test]
fn yay0_test_matching_compression() {
    let compressed = yay0::compress(&fixture_plain()).unwrap();
    assert_eq!(compressed, fixture_compressed());
}

#[test]
fn test_cycle() {
    let data = cycle_data();
    let compressed = yay0::compress(&data).unwrap();
    let decompressed = yay0::decompress(&compressed).unwrap();
    assert_eq!(decompressed, data);
}

#[test]
fn yay0_zero_run() {
    // 0x200 zero bytes: one literal, a maximum-length match at offset 0, and
    // a second match covering the rest
    let data = vec![0u8; 0x200];
    let compressed = yay0::compress(&data).unwrap();
    let expected = vec![
        0x59, 0x61, 0x79, 0x30, 0x00, 0x00, 0x02, 0x00, 0x00, 0x00, 0x00, 0x14, 0x00, 0x00, 0x00,
        0x18, 0x80, 0x00, 0x00, 0x00, 0x00, 0x00, 0x01, 0x11, 0x00, 0xFF, 0xDC,
    ];
    assert_eq!(compressed, expected);
    assert_eq!(yay0::decompress(&compressed).unwrap(), data);
}

#[test]
fn yay0_empty_input() {
    let compressed = yay0::compress(&[]).unwrap();
    let expected = vec![
        0x59, 0x61, 0x79, 0x30, 0x00, 0x00, 0x00, 0x00, 0x00, 0x00, 0x00, 0x10, 0x00, 0x00, 0x00,
        0x10,
    ];
    assert_eq!(compressed, expected);
    assert_eq!(yay0::decompress(&compressed).unwrap(), Vec::<u8>::new());
}

#[test]
fn yay0_wrong_magic_is_rejected() {
    // "Yay1" is not a Yay0 file
    let mut bad = fixture_compressed();
    bad[3] = 0x31;
    assert_eq!(yay0::decompress(&bad), Err(crunch64::Crunch64Error::InvalidYay0Header));
}

#[test]
fn yay0_unaligned_link_table() {
    // a link-table offset that is odd makes the first link read unaligned
    let bad = vec![
        0x59, 0x61, 0x79, 0x30, 0x00, 0x00, 0x00, 0x04, 0x00, 0x00, 0x00, 0x11, 0x00, 0x00, 0x00,
        0x16, 0x00, 0x00, 0x00, 0x00,
    ];
    assert_eq!(yay0::decompress(&bad), Err(crunch64::Crunch64Error::UnalignedRead));
}

#[test]
fn yay0_reference_before_start() {
    // the first token is a match whose distance reaches before the output
    let bad = vec![
        0x59, 0x61, 0x79, 0x30, 0x00, 0x00, 0x00, 0x04, 0x00, 0x00, 0x00, 0x14, 0x00, 0x00, 0x00,
        0x18, 0x00, 0x00, 0x00, 0x00, 0x70, 0x02, 0x00, 0x00,
    ];
    assert_eq!(yay0::decompress(&bad), Err(crunch64::Crunch64Error::OutOfBounds));
}

#[test]
fn yay0_decompress_bound_reads_header() {
    let data = cycle_data();
    let compressed = yay0::compress(&data).unwrap();
    assert_eq!(yay0::decompress_bound(&compressed[..0x10]).unwrap(), data.len());
}

#[test]
fn yay0_deterministic() {
    let data = cycle_data();
    assert_eq!(yay0::compress(&data).unwrap(), yay0::compress(&data).unwrap());
}
