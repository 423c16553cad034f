use std::collections::VecDeque;

use net_exp_bridge::bridge::{bridge, Bridge, Command, Event};
use net_exp_bridge::facility::{facility, Facility, FacilityMeter};
use net_exp_bridge::stat::{BridgeStatRecord, Tag};
use net_exp_bridge::types::{Address, Frame, Segment};

fn addr(n: u8) -> Address {
    Address { data: [10, 0, 0, n] }
}

fn seg(n: u8) -> Segment {
    Segment { data: [0, n] }
}

fn frame(src: u8, dst: u8, fill: u8) -> Frame {
    Frame { src: addr(src), dst: addr(dst), data: [fill; 16] }
}

/// Runs the bridge and the resolver to completion on one thread: every request is queued
/// first, then events are handled in arrival order.
fn run(pairs: Vec<(Address, Segment)>, frames: Vec<Frame>) -> (Bridge, Vec<Command>, Vec<Event>) {
    let mut b = Bridge::new();
    let mut fac = Facility::new(frames.len(), pairs);
    let mut queue: VecDeque<Event> = frames.into_iter().map(Event::Request).collect();
    let mut commands = Vec::new();
    let mut replies = Vec::new();
    let mut now = 0u64;
    while let Some(e) = queue.pop_front() {
        now += 10;
        match bridge(&mut b, e, now) {
            None => break,
            Some(cmds) => {
                for c in cmds {
                    commands.push(c);
                    if fac.is_finished() {
                        continue;
                    }
                    for r in facility(&mut fac, c) {
                        replies.push(r);
                        queue.push_back(r);
                    }
                }
            }
        }
    }
    (b, commands, replies)
}

fn count<T>(v: &[T], f: impl Fn(&T) -> bool) -> usize {
    v.iter().filter(|x| f(x)).count()
}

#[test]
fn known_destination_is_broadcast_then_dispatched() {
    let f = frame(0, 1, 7);
    let (_, cmds, replies) = run(vec![(addr(1), seg(1))], vec![f]);
    assert_eq!(count(&cmds, |c| matches!(c, Command::Broadcast(a) if *a == addr(1))), 1);
    assert_eq!(count(&replies, |e| matches!(e, Event::Success(a, s) if *a == addr(1) && *s == seg(1))), 1);
    assert_eq!(count(&cmds, |c| matches!(c, Command::Dispatch(g, s) if *g == f && *s == seg(1))), 1);
    assert_eq!(count(&cmds, |c| matches!(c, Command::Discard(_))), 0);
    assert_eq!(count(&replies, |e| matches!(e, Event::Shutdown)), 1);
}

#[test]
fn unknown_destination_is_broadcast_then_discarded() {
    let f = frame(0, 2, 7);
    let (_, cmds, replies) = run(vec![], vec![f]);
    assert_eq!(count(&cmds, |c| matches!(c, Command::Broadcast(a) if *a == addr(2))), 1);
    assert_eq!(count(&replies, |e| matches!(e, Event::Failure(a) if *a == addr(2))), 1);
    assert_eq!(count(&cmds, |c| matches!(c, Command::Discard(g) if *g == f)), 1);
    assert_eq!(count(&cmds, |c| matches!(c, Command::Dispatch(_, _))), 0);
}

#[test]
fn frames_held_together_drain_in_arrival_order() {
    let f1 = frame(0, 1, 1);
    let f2 = frame(2, 1, 2);
    let mut b = Bridge::new();
    let c1 = bridge(&mut b, Event::Request(f1), 1).unwrap();
    let c2 = bridge(&mut b, Event::Request(f2), 2).unwrap();
    assert!(matches!(c1.as_slice(), [Command::Broadcast(a)] if *a == addr(1)));
    assert!(matches!(c2.as_slice(), [Command::Broadcast(a)] if *a == addr(1)));
    assert_eq!(b.pending_len(), 1);
    let out = bridge(&mut b, Event::Success(addr(1), seg(1)), 3).unwrap();
    assert_eq!(out.len(), 2);
    assert!(matches!(out[0], Command::Dispatch(g, s) if g == f1 && s == seg(1)));
    assert!(matches!(out[1], Command::Dispatch(g, s) if g == f2 && s == seg(1)));
    assert_eq!(b.pending_len(), 0);
}

#[test]
fn learned_destination_is_dispatched_without_broadcast() {
    let mut b = Bridge::new();
    let first = bridge(&mut b, Event::Request(frame(0, 1, 0)), 1).unwrap();
    assert!(matches!(first.as_slice(), [Command::Broadcast(_)]));
    bridge(&mut b, Event::Success(addr(1), seg(4)), 2).unwrap();
    assert_eq!(b.lookup(addr(1)), Some(seg(4)));
    let next = bridge(&mut b, Event::Request(frame(3, 1, 9)), 3).unwrap();
    assert!(matches!(next.as_slice(), [Command::Dispatch(g, s)] if *g == frame(3, 1, 9) && *s == seg(4)));
}

#[test]
fn failure_drains_and_leaves_cache_empty() {
    let mut b = Bridge::new();
    bridge(&mut b, Event::Request(frame(0, 5, 0)), 1).unwrap();
    let out = bridge(&mut b, Event::Failure(addr(5)), 2).unwrap();
    assert!(matches!(out.as_slice(), [Command::Discard(g)] if *g == frame(0, 5, 0)));
    assert_eq!(b.pending_len(), 0);
    assert_eq!(b.lookup(addr(5)), None);
    let again = bridge(&mut b, Event::Failure(addr(5)), 3).unwrap();
    assert!(again.is_empty());
}

#[test]
fn shutdown_returns_none() {
    let mut b = Bridge::new();
    assert!(bridge(&mut b, Event::Shutdown, 1).is_none());
}

#[test]
fn every_frame_ends_exactly_once() {
    let frames = vec![frame(0, 1, 1), frame(0, 2, 2), frame(3, 1, 3), frame(4, 2, 4), frame(5, 6, 5)];
    let pairs = vec![(addr(1), seg(1)), (addr(6), seg(6))];
    let (b, cmds, replies) = run(pairs, frames.clone());
    let dispatched = count(&cmds, |c| matches!(c, Command::Dispatch(_, _)));
    let discarded = count(&cmds, |c| matches!(c, Command::Discard(_)));
    assert_eq!(dispatched, 3);
    assert_eq!(discarded, 2);
    assert_eq!(dispatched + discarded, frames.len());
    for f in &frames {
        let n = count(&cmds, |c| matches!(c, Command::Dispatch(g, _) | Command::Discard(g) if g == f));
        assert_eq!(n, 1);
    }
    let stat = b.stat();
    let released = stat.records.iter().filter(|r| !matches!(r, BridgeStatRecord::Broadcast(_))).count();
    assert_eq!(released, frames.len());
    assert_eq!(count(&replies, |e| matches!(e, Event::Shutdown)), 1);
    assert_eq!(b.pending_len(), 0);
}

#[test]
fn cache_holds_only_ground_truth() {
    let pairs = vec![(addr(1), seg(1)), (addr(2), seg(9)), (addr(2), seg(2))];
    let frames = vec![frame(0, 1, 0), frame(0, 2, 0), frame(0, 3, 0)];
    let (b, _, _) = run(pairs, frames);
    assert_eq!(b.lookup(addr(1)), Some(seg(1)));
    assert_eq!(b.lookup(addr(2)), Some(seg(2)));
    assert_eq!(b.lookup(addr(3)), None);
}

#[test]
fn depth_samples_follow_holder() {
    let mut b = Bridge::new();
    bridge(&mut b, Event::Request(frame(0, 1, 0)), 5).unwrap();
    bridge(&mut b, Event::Request(frame(0, 2, 0)), 6).unwrap();
    bridge(&mut b, Event::Success(addr(1), seg(1)), 7).unwrap();
    bridge(&mut b, Event::Failure(addr(2)), 8).unwrap();
    let pairs = b.pending_stat().congestion_scatter();
    assert_eq!(pairs, vec![(5, 1), (6, 2), (7, 1), (8, 0)]);
}

#[test]
fn facility_answers_and_shuts_down() {
    let mut fac = Facility::new(2, vec![(addr(1), seg(3))]);
    let e = facility(&mut fac, Command::Broadcast(addr(1)));
    assert!(matches!(e.as_slice(), [Event::Success(a, s)] if *a == addr(1) && *s == seg(3)));
    let e = facility(&mut fac, Command::Broadcast(addr(2)));
    assert!(matches!(e.as_slice(), [Event::Failure(a)] if *a == addr(2)));
    let e = facility(&mut fac, Command::Dispatch(frame(0, 1, 0), seg(3)));
    assert!(e.is_empty());
    assert!(!fac.is_finished());
    let e = facility(&mut fac, Command::Discard(frame(0, 2, 0)));
    assert!(matches!(e.as_slice(), [Event::Shutdown]));
    assert!(fac.is_finished());
    assert_eq!(fac.meter.report(), (1, 1, 1, 1));
    assert_eq!(fac.meter.report(), (0, 0, 0, 0));
}

#[test]
fn meter_counts_each_kind() {
    let mut m = FacilityMeter::new();
    m.inc_success();
    m.inc_success();
    m.inc_failure();
    m.inc_dispatch();
    m.inc_discard();
    m.inc_discard();
    m.inc_discard();
    assert_eq!(m.report(), (2, 1, 1, 3));
}

#[test]
fn activity_and_latency_views() {
    let mut b = Bridge::new();
    let f1 = frame(0, 1, 1);
    let f2 = frame(0, 2, 2);
    bridge(&mut b, Event::Request(f1), 100).unwrap();
    bridge(&mut b, Event::Request(f2), 150).unwrap();
    bridge(&mut b, Event::Failure(addr(2)), 400).unwrap();
    bridge(&mut b, Event::Success(addr(1), seg(1)), 700).unwrap();
    bridge(&mut b, Event::Request(frame(9, 1, 3)), 900).unwrap();
    let stat = b.stat();
    let (bc, dp, dc) = stat.activity_scatter();
    assert_eq!(bc, vec![100, 150]);
    assert_eq!(dp, vec![700, 900]);
    assert_eq!(dc, vec![400]);
    assert_eq!(stat.latency_scatter(), vec![(100, 600), (150, 250)]);
    assert_eq!(stat.activity(Tag::Discard), vec![400]);
    assert_eq!(stat.len(), 5);
}

#[test]
fn times_never_go_back() {
    let mut b = Bridge::new();
    bridge(&mut b, Event::Request(frame(0, 1, 1)), 500).unwrap();
    bridge(&mut b, Event::Success(addr(1), seg(1)), 300).unwrap();
    assert_eq!(b.stat().times, vec![500, 500]);
    assert_eq!(b.stat().latency_scatter(), vec![(500, 0)]);
}

#[test]
fn unmatched_broadcast_gives_no_latency() {
    let mut b = Bridge::new();
    bridge(&mut b, Event::Request(frame(0, 1, 1)), 10).unwrap();
    assert!(b.stat().latency_scatter().is_empty());
    assert_eq!(b.stat().records.len(), 1);
    assert_eq!(*b.stat().records[0].frame(), frame(0, 1, 1));
}
