use minigit::workspace::canonical_mode;
use minigit::{
    oid_to_compressed_u8_array, u16_to_u8_array_big_endian, u32_to_u8_array_big_endian,
    u8_array_to_u16_big_endian, u8_array_to_u32_big_endian, uncompress_u8_array_to_oid,
};

#[test]
fn test_u32_big_endian_exact() {
    assert_eq!(u32_to_u8_array_big_endian(2), vec![0, 0, 0, 2]);
    assert_eq!(u32_to_u8_array_big_endian(0x0102_0304), vec![1, 2, 3, 4]);
    assert_eq!(u32_to_u8_array_big_endian(0xFFFF_FFFF), vec![255, 255, 255, 255]);
}

#[test]
fn test_u32_big_endian_roundtrip() {
    for n in [0u32, 1, 2, 0x1234_5678, 0xFFFF_FFFF, 0o100644, 0o100755] {
        let bytes = u32_to_u8_array_big_endian(n);
        assert_eq!(u8_array_to_u32_big_endian(&bytes), n);
    }
}

#[test]
fn test_u16_big_endian_roundtrip() {
    assert_eq!(u16_to_u8_array_big_endian(0x0FFF), vec![0x0F, 0xFF]);
    for n in [0u16, 9, 0x0FFF, 0xFFFF] {
        let bytes = u16_to_u8_array_big_endian(n);
        assert_eq!(u8_array_to_u16_big_endian(&bytes), n);
    }
}

#[test]
fn test_hex_oid_roundtrip() {
    let raw: Vec<u8> = (0u8..20).collect();
    let hex = uncompress_u8_array_to_oid(&raw);
    assert_eq!(hex, "000102030405060708090a0b0c0d0e0f10111213");
    assert_eq!(oid_to_compressed_u8_array(&hex), raw);
}

#[test]
fn test_hex_of_all_byte_values() {
    let raw: Vec<u8> = vec![0x00, 0x7f, 0x80, 0xff];
    assert_eq!(uncompress_u8_array_to_oid(&raw), "007f80ff");
}

#[test]
fn test_canonical_mode() {
    assert_eq!(canonical_mode(0o644), 0o100644);
    assert_eq!(canonical_mode(0o770), 0o100755);
    assert_eq!(canonical_mode(0o100), 0o100755);
    assert_eq!(canonical_mode(0o600), 0o100644);
}
