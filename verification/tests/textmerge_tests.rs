use gik::textmerge::{group_hunks, Hunk, MergeResult, MergeStrategy, TextMergeStrategy};

fn merge_text(base: &str, ours: &str, theirs: &str) -> MergeResult {
    let strategy = TextMergeStrategy;
    strategy.merge(Some(base.as_bytes()), ours.as_bytes(), theirs.as_bytes())
}

#[test]
fn test_merge_no_conflict_different_methods() {
    let base = "fn one() {}\nfn two() {}\nfn three() {}\n";
    let ours = "fn one() { println!(\"1\"); }\nfn two() {}\nfn three() {}\n";
    let theirs = "fn one() {}\nfn two() {}\nfn three() { println!(\"3\"); }\n";

    let expected = "fn one() { println!(\"1\"); }\nfn two() {}\nfn three() { println!(\"3\"); }\n";

    match merge_text(base, ours, theirs) {
        MergeResult::Resolved(content) => {
            assert_eq!(String::from_utf8(content).unwrap(), expected);
        }
        _ => panic!("Expected Resolved, got Conflict"),
    }
}

#[test]
fn test_merge_conflict_same_line() {
    let base = "fn one() {}\n";
    let ours = "fn one() { println!(\"ours\"); }\n";
    let theirs = "fn one() { println!(\"theirs\"); }\n";

    match merge_text(base, ours, theirs) {
        MergeResult::Conflict { base: b, ours: o, theirs: t } => {
            assert_eq!(b.unwrap(), base.as_bytes());
            assert_eq!(o, ours.as_bytes());
            assert_eq!(t, theirs.as_bytes());
        }
        _ => panic!("Expected Conflict"),
    }
}

#[test]
fn test_merge_identical_changes() {
    let base = "fn one() {}\n";
    let ours = "fn one() { println!(\"same\"); }\n";
    let theirs = "fn one() { println!(\"same\"); }\n";

    match merge_text(base, ours, theirs) {
        MergeResult::Resolved(content) => {
            assert_eq!(String::from_utf8(content).unwrap(), ours);
        }
        _ => panic!("Expected Resolved"),
    }
}

#[test]
fn test_merge_one_side_deleted_other_kept() {
    let base = "line1\nline2\nline3\n";
    let ours = "line1\nline3\n";
    let theirs = "line1\nline2\nline3\n";

    match merge_text(base, ours, theirs) {
        MergeResult::Resolved(content) => {
            assert_eq!(String::from_utf8(content).unwrap(), ours);
        }
        _ => panic!("Expected Resolved"),
    }
}

#[test]
fn test_merge_conflict_delete_vs_modify() {
    let base = "line1\nline2\nline3\n";
    let ours = "line1\nline3\n";
    let theirs = "line1\nline2_modified\nline3\n";

    match merge_text(base, ours, theirs) {
        MergeResult::Conflict { .. } => {}
        _ => panic!("Expected Conflict"),
    }
}

#[test]
fn merge_identical_sides_resolve_to_that_side() {
    let r = merge_text("a\n", "b\nc\n", "b\nc\n");
    assert_eq!(r, MergeResult::Resolved(b"b\nc\n".to_vec()));
}

#[test]
fn merge_takes_theirs_when_ours_is_the_base() {
    let r = merge_text("a\nb\n", "a\nb\n", "a\nB\n");
    assert_eq!(r, MergeResult::Resolved(b"a\nB\n".to_vec()));
}

#[test]
fn merge_keeps_ours_when_theirs_is_the_base() {
    let r = merge_text("a\nb\n", "x\nb\n", "a\nb\n");
    assert_eq!(r, MergeResult::Resolved(b"x\nb\n".to_vec()));
}

#[test]
fn merge_without_base_of_two_texts_conflicts() {
    let strategy = TextMergeStrategy;
    let r = strategy.merge(None, b"a\n", b"b\n");
    assert_eq!(r, MergeResult::Conflict { base: None, ours: b"a\n".to_vec(), theirs: b"b\n".to_vec() });
}

#[test]
fn merge_both_insert_at_end() {
    let r = merge_text("a\n", "a\nb\n", "a\nc\n");
    assert!(matches!(r, MergeResult::Conflict { .. }));
}

#[test]
fn merge_invalid_utf8_counts_as_empty() {
    let strategy = TextMergeStrategy;
    let r = strategy.merge(Some(b"x\n"), &[0xff, 0xfe], &[0xff, 0xfd]);
    assert_eq!(r, MergeResult::Resolved(vec![0xff, 0xfe]));
}

#[test]
fn merge_lines_marks_conflicts() {
    // ours replaces line 0, theirs replaces line 0 differently
    let ops_ours = vec![(3u8, 0usize, 1usize, 0usize, 1usize)];
    let ops_theirs = vec![(3u8, 0usize, 1usize, 0usize, 1usize)];
    let r = gik::textmerge::merge_lines(b"a\nz\n", b"b\nz\n", b"c", &ops_ours, &ops_theirs).unwrap();
    assert_eq!(r.1, true);
    assert_eq!(
        String::from_utf8(r.0).unwrap(),
        "<<<<<<< OURS\nb\n=======\nc\n>>>>>>> THEIRS\nz\n"
    );
}

#[test]
fn merge_lines_rejects_ops_past_the_text() {
    let ops_ours = vec![(2u8, 0usize, 0usize, 3usize, 1usize)];
    let ops_theirs: Vec<(u8, usize, usize, usize, usize)> = vec![];
    assert_eq!(gik::textmerge::merge_lines(b"a\n", b"b\n", b"a\n", &ops_ours, &ops_theirs), None);
}

#[test]
fn merge_lines_applies_disjoint_hunks() {
    // ours deletes line 1, theirs inserts "x\n" before line 0
    let ops_ours = vec![(0u8, 0usize, 1usize, 0usize, 1usize), (1u8, 1usize, 1usize, 1usize, 0usize)];
    let ops_theirs = vec![(2u8, 0usize, 0usize, 0usize, 1usize), (0u8, 0usize, 2usize, 1usize, 2usize)];
    let r = gik::textmerge::merge_lines(b"a\nb\n", b"a\n", b"x\na\nb\n", &ops_ours, &ops_theirs).unwrap();
    assert_eq!(r, (b"x\na\n".to_vec(), false));
}

#[test]
fn split_inclusive_lines_keeps_newlines() {
    let lines = gik::textmerge::split_inclusive_lines(b"a\nbc\n\nd");
    assert_eq!(lines, vec![b"a\n".to_vec(), b"bc\n".to_vec(), b"\n".to_vec(), b"d".to_vec()]);
    assert!(gik::textmerge::split_inclusive_lines(b"").is_empty());
}

#[test]
fn group_hunks_joins_overlapping_hunks() {
    let h = |s: usize, e: usize, t: &[u8]| gik::textmerge::Hunk { base_start: s, base_end: e, inserted: t.to_vec() };
    let groups = gik::textmerge::group_hunks(vec![h(0, 2, b"x"), h(5, 6, b"")], vec![h(1, 3, b"y"), h(7, 7, b"z")]);
    assert_eq!(groups.len(), 3);
    assert_eq!((groups[0].base_start, groups[0].base_end, groups[0].ours.len(), groups[0].theirs.len()), (0, 3, 1, 1));
    assert_eq!((groups[1].base_start, groups[1].base_end, groups[1].ours.len(), groups[1].theirs.len()), (5, 6, 1, 0));
    assert_eq!((groups[2].base_start, groups[2].base_end, groups[2].ours.len(), groups[2].theirs.len()), (7, 7, 0, 1));
}

#[test]
fn groups_partition_both_sides() {
    let h = |s: usize, e: usize| Hunk { base_start: s, base_end: e, inserted: vec![] };
    let groups = group_hunks(vec![h(0, 2), h(5, 6), h(9, 9)], vec![h(1, 3), h(7, 8)]);
    let ours: Vec<usize> = groups.iter().flat_map(|g| g.ours.iter().map(|x| x.base_start)).collect();
    let theirs: Vec<usize> = groups.iter().flat_map(|g| g.theirs.iter().map(|x| x.base_start)).collect();
    assert_eq!(ours, vec![0, 5, 9]);
    assert_eq!(theirs, vec![1, 7]);
    for w in groups.windows(2) {
        assert!(w[0].base_end < w[1].base_start);
    }
}
