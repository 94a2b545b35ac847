#[test]
fn test_write_object_header() {
    let mut buf = Vec::new();
    // type 3 (blob), size 14
    gik::pack::write_object_header(&mut buf, 3, 14);
    assert_eq!(buf, vec![0x3e]);
}

#[test]
fn object_header_round_trips() {
    let mut buf = vec![0xaa];
    gik::pack::write_object_header(&mut buf, 2, 1000);
    let (t, size, next) = gik::pack::read_object_header(&buf, 1).unwrap();
    assert_eq!((t, size, next), (2, 1000, buf.len()));
}

#[test]
fn read_object_header_truncated() {
    assert!(gik::pack::read_object_header(&[0x90], 0).is_err());
}

#[test]
fn apply_delta_copies_and_inserts() {
    let base = b"hello world";
    // base size 11, result size 9: copy 5 bytes from offset 0, insert "!!!!"
    let delta = vec![11u8, 9, 0x90, 5, 4, b'!', b'!', b'!', b'!'];
    assert_eq!(gik::pack::apply_delta(base, &delta).unwrap(), b"hello!!!!".to_vec());
}

#[test]
fn apply_delta_rejects_wrong_result_size() {
    let delta = vec![3u8, 5, 2, b'a', b'b'];
    assert!(gik::pack::apply_delta(b"abc", &delta).is_err());
}

#[test]
fn apply_delta_rejects_opcode_zero() {
    let delta = vec![3u8, 1, 0];
    assert!(gik::pack::apply_delta(b"abc", &delta).is_err());
}

#[test]
fn apply_delta_rejects_copy_out_of_bounds() {
    let delta = vec![3u8, 4, 0x90, 4];
    assert!(gik::pack::apply_delta(b"abc", &delta).is_err());
}
