use crunch64::utils;
use crunch64::CompressionType;
use crunch64::Crunch64Error;

#[test]
fn compression_type_round_trips() {
    let data = b"The quick brown fox jumps over the quick brown fox".to_vec();
    for t in [CompressionType::Yay0, CompressionType::Yaz0, CompressionType::Mio0] {
        let compressed = t.compress(&data).unwrap();
        assert_eq!(t.decompress(&compressed).unwrap(), data);
    }
}

#[test]
fn top_level_functions_match_modules() {
    let data = b"ABCABCABCABC".to_vec();
    assert_eq!(
        crunch64::compress_yaz0(&data).unwrap(),
        crunch64::yaz0::compress(&data).unwrap()
    );
    assert_eq!(
        crunch64::compress_yay0(&data).unwrap(),
        crunch64::yay0::compress(&data).unwrap()
    );
    let c = crunch64::compress_yaz0(&data).unwrap();
    assert_eq!(crunch64::decompress_yaz0(&c).unwrap(), data);
    let c = crunch64::compress_yay0(&data).unwrap();
    assert_eq!(crunch64::decompress_yay0(&c).unwrap(), data);
}

#[test]
fn read_u32_values_and_errors() {
    let b = [0x12u8, 0x34, 0x56, 0x78, 0x9A, 0xBC, 0xDE, 0xF0];
    assert_eq!(utils::read_u32(&b, 0), Ok(0x12345678));
    assert_eq!(utils::read_u32(&b, 4), Ok(0x9ABCDEF0));
    assert_eq!(utils::read_u32(&b, 2), Err(Crunch64Error::UnalignedRead));
    assert_eq!(utils::read_u32(&b, 8), Err(Crunch64Error::OutOfBounds));
    assert_eq!(utils::read_u32(&[], 0), Err(Crunch64Error::OutOfBounds));
}

#[test]
fn read_u16_values_and_errors() {
    let b = [0x12u8, 0x34, 0x56, 0x78];
    assert_eq!(utils::read_u16(&b, 0), Ok(0x1234));
    assert_eq!(utils::read_u16(&b, 1), Err(Crunch64Error::UnalignedRead));
    // the final two bytes of a buffer are readable
    assert_eq!(utils::read_u16(&b, 2), Ok(0x5678));
    assert_eq!(utils::read_u16(&b, 4), Err(Crunch64Error::OutOfBounds));
    assert_eq!(utils::read_u16(&[], 0), Err(Crunch64Error::OutOfBounds));
}
