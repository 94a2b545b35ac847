#[test]
fn test_hash_display() {
    let h = gik::hash::Hash([
        0xde, 0xad, 0xbe, 0xef, 0x00, 0x11, 0x22, 0x33, 0x44, 0x55, 0x66, 0x77, 0x88, 0x99, 0xaa, 0xbb, 0xcc,
        0xdd, 0xee, 0xff,
    ]);
    assert_eq!(h.to_string(), "deadbeef00112233445566778899aabbccddeeff");
}

#[test]
fn test_hash_from_bytes() {
    let bytes = [1u8; 20];
    let h = gik::hash::Hash::from(bytes);
    assert_eq!(h.0, bytes);
}

#[test]
fn hash_from_hex_reads_either_case() {
    let h = gik::hash::Hash::from_hex("DEADBEEF00112233445566778899aabbccddeeff").unwrap();
    assert_eq!(h.to_string(), "deadbeef00112233445566778899aabbccddeeff");
}

#[test]
fn hash_from_hex_rejects_wrong_length() {
    assert_eq!(gik::hash::Hash::from_hex("abcd"), Err("Invalid hash length".to_string()));
}

#[test]
fn hash_from_hex_rejects_non_hex() {
    assert!(gik::hash::Hash::from_hex("zz").is_err());
}

#[test]
fn hash_hex_round_trips() {
    let h = gik::hash::Hash([0x00, 0x01, 0x7f, 0x80, 0xab, 0xcd, 0xef, 0xff, 0x10, 0x20, 0x30, 0x40, 0x50, 0x60, 0x70, 0x90, 0xa0, 0xb0, 0xc0, 0xd0]);
    assert_eq!(gik::hash::Hash::from_hex(&h.to_string()).unwrap(), h);
}
