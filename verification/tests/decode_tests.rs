use gik::network::{pkt_step, PktStep};
use gik::unpack::{DeltaQueue, DeltaStep, PendingDelta};

fn h(v: u8) -> gik::hash::Hash {
    gik::hash::Hash([v; 20])
}

#[test]
fn delta_queue_resolves_in_passes() {
    // b is a delta on a; c is a delta on b; a is known from the start.
    let delta_copy_all = |n: u8| vec![n, n, 0x90, n];
    let pending = vec![
        PendingDelta { base_hash: h(2), delta_data: delta_copy_all(3), offset: 100 },
        PendingDelta { base_hash: h(1), delta_data: delta_copy_all(3), offset: 50 },
    ];
    let mut q = DeltaQueue::new(pending);
    assert_eq!(q.next_step(), DeltaStep::NeedBase(h(2)));
    assert!(q.supply_base(None).unwrap().is_none());
    assert_eq!(q.next_step(), DeltaStep::NeedBase(h(1)));
    let obj = q.supply_base(Some(("blob".to_string(), b"abc".to_vec()))).unwrap().unwrap();
    assert_eq!(obj.payload, b"abc".to_vec());
    assert_eq!(obj.offset, 50);
    assert_eq!(obj.hash, gik::objects::hash_blob(b"abc", 3));
    // second pass: the delta on h(2) again
    assert_eq!(q.next_step(), DeltaStep::NeedBase(h(2)));
    assert!(q.supply_base(None).unwrap().is_none());
    // nothing resolved in this pass: the base is missing
    assert_eq!(q.next_step(), DeltaStep::MissingBase(h(2)));
}

#[test]
fn delta_queue_empty_is_done() {
    let mut q = DeltaQueue::new(vec![]);
    assert_eq!(q.next_step(), DeltaStep::Done);
}

#[test]
fn try_apply_delta_reports_overrun() {
    // copy instruction announcing an offset byte that is missing
    assert!(gik::pack::try_apply_delta(b"abc", &[3, 3, 0x81]).is_none());
    assert!(gik::pack::try_apply_delta(b"abc", &[3, 3, 0x90, 3]).unwrap().is_ok());
}

#[test]
fn overlong_headers_are_detected() {
    let data = vec![0xffu8; 11];
    assert!(gik::pack::header_is_overlong(&data, 0));
    assert!(!gik::pack::header_is_overlong(&[0x30], 0));
}

#[test]
fn pkt_steps() {
    assert_eq!(pkt_step(b"PACK...."), PktStep::Stop);
    assert_eq!(pkt_step(b"00"), PktStep::Stop);
    assert_eq!(pkt_step(b"0000"), PktStep::Flush);
    assert_eq!(pkt_step(b"0008NAK\n"), PktStep::Line(8));
    assert_eq!(pkt_step(b"00Ff"), PktStep::Line(255));
    assert_eq!(pkt_step(b"zzzz"), PktStep::Flush);
}

#[test]
fn clone_target_from_url() {
    let (clean, token, dir) = gik::clone::clone_target("https://t@h/o/repo.git", None).unwrap();
    assert_eq!((clean.as_str(), token.as_deref(), dir.as_str()), ("https://h/o/repo.git", Some("t"), "repo"));
    let (_, _, dir) = gik::clone::clone_target("https://h/o/repo.git", Some("here".to_string())).unwrap();
    assert_eq!(dir, "here");
    assert!(gik::clone::clone_target("nowhere", None).is_err());
}

#[test]
fn base_fits_spots_a_copy_past_the_delta_end() {
    let pending = vec![
        PendingDelta { base_hash: h(1), delta_data: vec![3, 3, 0x91], offset: 12 },
        PendingDelta { base_hash: h(1), delta_data: vec![3, 3, 0x90, 3], offset: 40 },
    ];
    let mut q = DeltaQueue::new(pending);
    assert_eq!(q.next_step(), DeltaStep::NeedBase(h(1)));
    assert!(!q.base_fits(b"abc"));
    assert!(q.supply_base(None).unwrap().is_none());
    assert_eq!(q.next_step(), DeltaStep::NeedBase(h(1)));
    assert!(q.base_fits(b"abc"));
}
