use gik::unpack::parse_commit_meta;

#[test]
fn commit_meta_reads_headers_and_message() {
    let text = format!(
        "tree {}\nparent {}\nparent {}\nauthor Jane Roe <jane@x.org> 1700000000 +0000\ncommitter Jane Roe <jane@x.org> 1700000000 +0000\n\nTitle\n\nBody line\n",
        "aa".repeat(20),
        "bb".repeat(20),
        "cc".repeat(20)
    );
    let meta = parse_commit_meta(text.as_bytes()).unwrap();
    assert_eq!(meta.tree_hash, gik::hash::Hash([0xaa; 20]));
    assert_eq!(meta.parent_hashes, vec![gik::hash::Hash([0xbb; 20]), gik::hash::Hash([0xcc; 20])]);
    assert_eq!(meta.author, "Jane Roe <jane@x.org>");
    assert_eq!(meta.timestamp, 1700000000);
    assert_eq!(meta.message, "Title\n\nBody line");
}

#[test]
fn commit_meta_rejects_bad_tree_hash() {
    let r = parse_commit_meta(b"tree 1234\n\nmsg\n");
    assert!(matches!(r, Err(gik::error::GikError::Io(_))));
}

#[test]
fn commit_meta_without_headers() {
    let meta = parse_commit_meta(b"").unwrap();
    assert_eq!(meta.tree_hash, gik::hash::Hash([0; 20]));
    assert!(meta.parent_hashes.is_empty());
    assert_eq!(meta.author, "");
    assert_eq!(meta.timestamp, 0);
    assert_eq!(meta.message, "");
}

#[test]
fn commit_meta_bad_timestamp_is_zero() {
    let meta = parse_commit_meta(b"author A <a> soon +0000\n\nm").unwrap();
    assert_eq!(meta.author, "A <a>");
    assert_eq!(meta.timestamp, 0);
    assert_eq!(meta.message, "m");
}

#[test]
fn commit_meta_reads_back_what_was_built() {
    let tree = gik::hash::Hash([7; 20]);
    let parents = vec![gik::hash::Hash([1; 20]), gik::hash::Hash([2; 20])];
    let content = gik::objects::build_commit_content(tree, &parents, "Ann Lee", "ann@x.org", 1700000000, "subject\n\nbody line");
    let meta = gik::unpack::parse_commit_meta(content.as_bytes()).unwrap();
    assert_eq!(meta.tree_hash, tree);
    assert_eq!(meta.parent_hashes, parents);
    assert_eq!(meta.author, "Ann Lee <ann@x.org>");
    assert_eq!(meta.timestamp, 1700000000);
    assert_eq!(meta.message, "subject\n\nbody line");
}
