use gik::error::GikError;
use gik::packfile::build_packfile;
use gik::packscan::try_scan_pack;
use std::io::Write;

fn zlib(data: &[u8]) -> Vec<u8> {
    let mut e = flate2::write::ZlibEncoder::new(Vec::new(), flate2::Compression::default());
    e.write_all(data).unwrap();
    e.finish().unwrap()
}

#[test]
fn scan_reads_back_built_pack() {
    let tree = gik::objects::build_tree_content(&[(0o100644u32, "a.txt".to_string(), gik::hash::Hash([7; 20]))]);
    let pack = build_packfile(&[(3u8, b"hello".to_vec()), (2u8, tree.clone())]);
    let items = try_scan_pack(&pack).unwrap().unwrap();
    assert_eq!(items.len(), 2);
    assert_eq!(items[0].offset, 12);
    assert_eq!(items[0].obj_type, 3);
    assert!(items[0].base.is_none());
    assert_eq!(items[0].data, b"hello".to_vec());
    assert_eq!(items[1].obj_type, 2);
    assert_eq!(items[1].data, tree);
    assert!(items[1].offset > 12);
}

#[test]
fn scan_reads_ref_delta_base() {
    let mut pack = b"PACK\0\0\0\x02\0\0\0\x01".to_vec();
    let delta = vec![3u8, 3, 0x90, 3];
    gik::pack::write_object_header(&mut pack, 7, delta.len());
    pack.extend_from_slice(&[9u8; 20]);
    pack.extend_from_slice(&zlib(&delta));
    let items = try_scan_pack(&pack).unwrap().unwrap();
    assert_eq!(items.len(), 1);
    assert_eq!(items[0].obj_type, 7);
    assert_eq!(items[0].base, Some(gik::hash::Hash([9; 20])));
    assert_eq!(items[0].data, delta);
}

#[test]
fn scan_refuses_bad_packs() {
    assert!(matches!(try_scan_pack(b"PACK"), Some(Err(GikError::Io(_)))));
    assert!(matches!(try_scan_pack(b"JUNK\0\0\0\x02\0\0\0\x00"), Some(Err(GikError::Io(_)))));
    // An offset delta is not supported.
    let mut pack = b"PACK\0\0\0\x02\0\0\0\x01".to_vec();
    gik::pack::write_object_header(&mut pack, 6, 1);
    assert!(matches!(try_scan_pack(&pack), Some(Err(GikError::Io(_)))));
    // A broken zlib stream.
    let mut pack = b"PACK\0\0\0\x02\0\0\0\x01".to_vec();
    gik::pack::write_object_header(&mut pack, 3, 1);
    pack.extend_from_slice(b"not zlib");
    assert!(matches!(try_scan_pack(&pack), Some(Err(GikError::Io(_)))));
}

#[test]
fn scan_gives_none_on_overlong_header() {
    let mut pack = b"PACK\0\0\0\x02\0\0\0\x01".to_vec();
    pack.extend_from_slice(&[0xffu8; 11]);
    assert!(try_scan_pack(&pack).is_none());
}

#[test]
fn empty_pack_scans_to_nothing() {
    let pack = build_packfile(&[]);
    assert_eq!(try_scan_pack(&pack).unwrap().unwrap().len(), 0);
}

#[test]
fn compress_object_round_trips() {
    let stored = gik::objects::compress_object("blob", b"hi");
    let (kind, size, content) = gik::objects::decompress_object(&stored).unwrap();
    assert_eq!(kind, "blob");
    assert_eq!(size, 2);
    assert_eq!(content, b"hi".to_vec());
    assert_eq!(gik::objects::hash_object("blob", b"hi"), gik::objects::hash_blob(b"hi", 2));
}
