use sha1::Digest;
use std::io::Read;

#[test]
fn objects_test_hash_blob_hello_world() {
    let content = "hello world\n";
    let size = content.len() as u64;
    let hash = gik::objects::hash_blob(content.as_bytes(), size);
    let expected_hex = "3b18e512dba79e4c8300dd08aeb37f8e728b8dad";
    assert_eq!(hex::encode(hash.0), expected_hex);
}

#[test]
fn objects_test_hash_blob_git_reference() {
    let content = b"hello\n";
    let size = content.len() as u64;
    let hash = gik::objects::hash_blob(content, size);
    let expected_hex = "ce013625030ba8dba906f756967f9e9ca394464a";
    assert_eq!(hex::encode(hash.0), expected_hex);
}

#[test]
fn objects_test_compress_decompress_blob() {
    let content = "test content for compression";
    let size = content.len() as u64;
    let compressed = gik::objects::compress_blob(content.as_bytes(), size);

    let mut decoder = flate2::read::ZlibDecoder::new(&compressed[..]);
    let mut decompressed = String::new();
    decoder.read_to_string(&mut decompressed).unwrap();

    let expected = format!("blob {}\0{}", size, content);
    assert_eq!(decompressed, expected);
}

#[test]
fn tests_test_hash_blob_hello_world() {
    let content = "hello world\n";
    let size = content.len() as u64;
    let hash = gik::objects::hash_blob(content.as_bytes(), size);
    let expected_hex = "3b18e512dba79e4c8300dd08aeb37f8e728b8dad";
    assert_eq!(hex::encode(hash.0), expected_hex);
}

#[test]
fn tests_test_hash_blob_git_reference() {
    let content = b"hello\n";
    let size = content.len() as u64;
    let hash = gik::objects::hash_blob(content, size);
    let expected_hex = "ce013625030ba8dba906f756967f9e9ca394464a";
    assert_eq!(hex::encode(hash.0), expected_hex);
}

#[test]
fn tests_test_compress_decompress_blob() {
    let content = b"hello test blob compression";
    let size = content.len() as u64;
    let stored = gik::objects::compress_blob(&content[..], size);
    let (obj_type, de_size, actual_content) = gik::objects::decompress_object(&stored).unwrap();
    assert_eq!(obj_type, "blob");
    assert_eq!(de_size, size);
    assert_eq!(actual_content, content);
}

#[test]
fn test_parse_tree() {
    let mut entries = Vec::new();
    let hash1 = gik::hash::Hash([1; 20]);
    let hash2 = gik::hash::Hash([2; 20]);
    entries.push((0o100644u32, "file1.txt".to_string(), hash1));
    entries.push((0o040000u32, "dir1".to_string(), hash2));
    entries.sort_by(|a, b| a.1.cmp(&b.1));

    let content = gik::objects::build_tree_content(&entries);
    let parsed_entries = gik::objects::parse_tree(&content).unwrap();

    assert_eq!(parsed_entries.len(), 2);
    assert_eq!(parsed_entries[0].0, 0o040000);
    assert_eq!(parsed_entries[0].1, "dir1");
    assert_eq!(parsed_entries[0].2, hash2);

    assert_eq!(parsed_entries[1].0, 0o100644);
    assert_eq!(parsed_entries[1].1, "file1.txt");
    assert_eq!(parsed_entries[1].2, hash1);
}

#[test]
fn test_build_commit_content_single_parent() {
    let tree_hash = gik::hash::Hash([1; 20]);
    let parent = gik::hash::Hash([2; 20]);

    let content = gik::objects::build_commit_content(
        tree_hash,
        &[parent],
        "Linus Torvalds",
        "torvalds@linux-foundation.org",
        1718500000,
        "Initial release",
    );

    let expected = format!(
        "tree {}\nparent {}\nauthor Linus Torvalds <torvalds@linux-foundation.org> 1718500000 +0000\ncommitter Linus Torvalds <torvalds@linux-foundation.org> 1718500000 +0000\n\nInitial release\n",
        hex::encode([1; 20]),
        hex::encode([2; 20])
    );

    assert_eq!(content, expected);
}

#[test]
fn test_build_commit_content_merge_commit() {
    let tree_hash = gik::hash::Hash([1; 20]);
    let parent1 = gik::hash::Hash([2; 20]);
    let parent2 = gik::hash::Hash([3; 20]);

    let content = gik::objects::build_commit_content(
        tree_hash,
        &[parent1, parent2],
        "John Doe",
        "john@example.com",
        1718500000,
        "Merge branch 'feature'\n\nCloses #123",
    );

    let expected = format!(
        "tree {}\nparent {}\nparent {}\nauthor John Doe <john@example.com> 1718500000 +0000\ncommitter John Doe <john@example.com> 1718500000 +0000\n\nMerge branch 'feature'\n\nCloses #123\n",
        hex::encode([1; 20]),
        hex::encode([2; 20]),
        hex::encode([3; 20])
    );

    assert_eq!(content, expected);
}

#[test]
fn tree_round_trips_through_storage() {
    let entries = vec![
        (0o100644u32, "a.txt".to_string(), gik::hash::Hash([7; 20])),
        (0o040000u32, "sub".to_string(), gik::hash::Hash([8; 20])),
    ];
    let stored = gik::objects::compress_tree(&entries);
    let (kind, size, content) = gik::objects::decompress_object(&stored).unwrap();
    assert_eq!(kind, "tree");
    assert_eq!(size as usize, content.len());
    assert_eq!(gik::objects::parse_tree(&content).unwrap(), entries);
}

#[test]
fn parse_tree_rejects_truncated_hash() {
    let mut content = b"100644 f\0".to_vec();
    content.extend_from_slice(&[1u8; 10]);
    assert!(gik::objects::parse_tree(&content).is_err());
}

#[test]
fn parse_tree_rejects_missing_space() {
    assert!(gik::objects::parse_tree(b"100644").is_err());
}

#[test]
fn decompress_object_rejects_garbage() {
    assert!(gik::objects::decompress_object(b"not zlib").is_err());
}

#[test]
fn hash_tree_matches_git() {
    // git mktree with one blob entry
    let entries = vec![(0o100644u32, "hello".to_string(), gik::hash::Hash::from_hex("ce013625030ba8dba906f756967f9e9ca394464a").unwrap())];
    let h = gik::objects::hash_tree(&entries);
    let mut data = format!("tree {}\0", gik::objects::build_tree_content(&entries).len()).into_bytes();
    data.extend_from_slice(&gik::objects::build_tree_content(&entries));
    let expected: [u8; 20] = sha1::Sha1::digest(&data).into();
    assert_eq!(h.0, expected);
}
