use algorithms::crc32::{crc32, reverse_u32};

#[test]
fn test_reverse_u32() {
    let a = 0b00110101000101010100100101100101;
    let b = 0b10100110100100101010100010101100;
    assert_eq!(reverse_u32(a), b);
}

#[test]
fn test_crc32() {
    assert_eq!(crc32("impx".as_bytes()), 0x5684BF1E);
    assert_eq!(crc32("crc32".as_bytes()), 0xAFABD35E);
    assert_eq!(crc32("aaa123".as_bytes()), 0x22AB0907);
    assert_eq!(crc32("00000000".as_bytes()), 0xC0088D03);
    assert_eq!(crc32("10011001".as_bytes()), 0xFE79F3DE);
}

#[test]
fn crc32_known_values() {
    assert_eq!(crc32(&[]), 0);
    assert_eq!(crc32("123456789".as_bytes()), 0xCBF43926);
    assert_eq!(reverse_u32(0x04C11DB7), 0xEDB88320);
    assert_eq!(reverse_u32(1), 0x8000_0000);
}
