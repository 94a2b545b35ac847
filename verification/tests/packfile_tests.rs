use gik::packfile::{build_packfile, pack_entry_kind, pack_type_of, parse_pack_header, split_author, PackEntryKind};
use sha1::Digest;

#[test]
fn pack_header_round_trips() {
    let mut h = Vec::new();
    gik::packfile::write_packfile_header(&mut h, 70000);
    assert_eq!(h, vec![b'P', b'A', b'C', b'K', 0, 0, 0, 2, 0, 1, 0x11, 0x70]);
    assert_eq!(parse_pack_header(&h).unwrap(), 70000);
}

#[test]
fn pack_header_bad_signature() {
    let r = parse_pack_header(b"JUNK\0\0\0\x02\0\0\0\x01");
    match r {
        Err(gik::error::GikError::Io(m)) => assert!(m.starts_with("Invalid packfile signature: ")),
        other => panic!("unexpected {:?}", other),
    }
}

#[test]
fn packfile_has_header_entries_and_checksum() {
    let objects = vec![(3u8, b"hello".to_vec())];
    let pack = build_packfile(&objects);
    assert_eq!(&pack[0..12], &[b'P', b'A', b'C', b'K', 0, 0, 0, 2, 0, 0, 0, 1]);
    assert_eq!(pack[12], 0x35);
    let body = &pack[..pack.len() - 20];
    let sum: [u8; 20] = sha1::Sha1::digest(body).into();
    assert_eq!(&pack[pack.len() - 20..], &sum);
    let mut dec = flate2::read::ZlibDecoder::new(&pack[13..pack.len() - 20]);
    let mut out = Vec::new();
    std::io::Read::read_to_end(&mut dec, &mut out).unwrap();
    assert_eq!(out, b"hello");
}

#[test]
fn entry_kinds() {
    assert_eq!(pack_entry_kind(1).unwrap(), PackEntryKind::Object("commit".into()));
    assert_eq!(pack_entry_kind(7).unwrap(), PackEntryKind::RefDelta);
    match pack_entry_kind(6) {
        Err(gik::error::GikError::Io(m)) => assert_eq!(m, "OBJ_OFS_DELTA not supported yet"),
        other => panic!("unexpected {:?}", other),
    }
    match pack_entry_kind(5) {
        Err(gik::error::GikError::Io(m)) => assert_eq!(m, "Unsupported pack object type: 5"),
        other => panic!("unexpected {:?}", other),
    }
    assert_eq!(pack_type_of("tree").unwrap(), 2);
    assert_eq!(pack_type_of("blob").unwrap(), 3);
    assert!(pack_type_of("commit").is_err());
}

#[test]
fn authors_split_into_name_and_email() {
    assert_eq!(split_author("  Jo Doe  <jo@x> "), ("Jo Doe".to_string(), "jo@x".to_string()));
    assert_eq!(split_author("nobody"), ("nobody".to_string(), String::new()));
    assert!(!gik::packfile::author_brackets_ordered("a>b<c"));
}

#[test]
fn hash_object_matches_blob_hash() {
    assert_eq!(gik::objects::hash_object("blob", b"hello\n"), gik::objects::hash_blob(b"hello\n", 6));
}
