use net_exp_bridge::bridge::Event;
use net_exp_bridge::holder::Holder;
use net_exp_bridge::schedule::{distribute, due_requests, schedule_step};
use net_exp_bridge::export::{lines_text, spaced_text};
use net_exp_bridge::stat::{BridgePendingStat, BridgeStat, Tag};
use net_exp_bridge::types::{Address, Frame};

fn frames(n: u8) -> Vec<Frame> {
    (0..n)
        .map(|i| Frame { src: Address { data: [0, 0, 0, i] }, dst: Address { data: [1, 0, 0, i] }, data: [i; 16] })
        .collect()
}

#[test]
fn buckets_take_cumulative_slices() {
    let fs = frames(6);
    let b = distribute(fs.clone(), vec![0, 2, 2, 5]);
    assert_eq!(b.len(), 4);
    assert!(b[0].is_empty());
    assert_eq!(b[1], fs[0..2].to_vec());
    assert!(b[2].is_empty());
    assert_eq!(b[3], fs[2..6].to_vec());
}

#[test]
fn buckets_clamp_and_keep_every_frame() {
    let fs = frames(5);
    let b = distribute(fs.clone(), vec![3, 1, 9, 4]);
    assert_eq!(b.iter().map(|x| x.len()).collect::<Vec<_>>(), vec![3, 0, 2, 0]);
    let flat: Vec<Frame> = b.into_iter().flatten().collect();
    assert_eq!(flat, fs);
}

#[test]
fn remainder_goes_to_last_bucket() {
    let fs = frames(4);
    let b = distribute(fs.clone(), vec![1, 1]);
    assert_eq!(b[0], fs[0..1].to_vec());
    assert_eq!(b[1], fs[1..4].to_vec());
}

#[test]
fn empty_sequence_gives_empty_buckets() {
    let b = distribute(Vec::new(), vec![0, 0, 0]);
    assert_eq!(b.len(), 3);
    assert!(b.iter().all(|x| x.is_empty()));
}

#[test]
fn schedule_step_moves_forward() {
    assert_eq!(schedule_step(0, 0, 10), (0, false));
    assert_eq!(schedule_step(0, 4, 10), (4, false));
    assert_eq!(schedule_step(4, 3, 10), (4, false));
    assert_eq!(schedule_step(4, 10, 10), (10, true));
    assert_eq!(schedule_step(4, 99, 10), (10, true));
}

#[test]
fn due_requests_flatten_in_order() {
    let fs = frames(5);
    let b = distribute(fs.clone(), vec![1, 3, 5]);
    let r = due_requests(&b, 1, 3);
    assert_eq!(r.len(), 4);
    for (e, f) in r.iter().zip(fs[1..5].iter()) {
        assert!(matches!(e, Event::Request(g) if g == f));
    }
    assert!(due_requests(&b, 2, 2).is_empty());
}

#[test]
fn holder_groups_by_destination() {
    let mut h = Holder::new();
    let fs = frames(2);
    h.hold(fs[0]);
    h.hold(fs[1]);
    h.hold(fs[0]);
    assert_eq!(h.len(), 2);
    assert_eq!(h.release(fs[0].dst), vec![fs[0], fs[0]]);
    assert_eq!(h.len(), 1);
    assert!(h.release(fs[0].dst).is_empty());
    assert_eq!(h.release(fs[1].dst), vec![fs[1]]);
    assert_eq!(h.len(), 0);
}

#[test]
fn recorders_start_empty() {
    let mut s = BridgeStat::new();
    assert_eq!(s.len(), 0);
    s.broadcast(frames(1)[0], 3);
    s.dispatch(frames(1)[0], 8);
    assert_eq!(s.latency_scatter(), vec![(3, 5)]);
    let mut p = BridgePendingStat::new();
    assert_eq!(p.len(), 0);
    p.rec(4, 2);
    assert_eq!(p.len(), 1);
    assert_eq!(p.congestion_scatter(), vec![(2, 4)]);
}

#[test]
fn export_text_formats() {
    assert_eq!(spaced_text(&vec![]), "");
    assert_eq!(spaced_text(&vec![0, 7, 1234567890123]), "0 7 1234567890123");
    assert_eq!(lines_text(&vec![(10, 0), (20, 305)]), "10 0\n20 305");
    assert_eq!(lines_text(&vec![(u64::MAX, 1)]), "18446744073709551615 1");
}

#[test]
fn export_files_from_recorders() {
    let fs = frames(2);
    let mut s = BridgeStat::new();
    s.broadcast(fs[0], 3);
    s.broadcast(fs[1], 4);
    s.discard(fs[1], 9);
    s.dispatch(fs[0], 12);
    assert_eq!(s.activity_text(Tag::Broadcast), "3 4");
    assert_eq!(s.activity_text(Tag::Dispatch), "12");
    assert_eq!(s.activity_text(Tag::Discard), "9");
    assert_eq!(s.latency_text(), "3 9\n4 5");
    let mut p = BridgePendingStat::new();
    p.rec(1, 3);
    p.rec(2, 4);
    p.rec(0, 12);
    assert_eq!(p.congestion_text(), "3 1\n4 2\n12 0");
}
