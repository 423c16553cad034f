use std::collections::BTreeMap;
use vstd::multiset::Multiset;
use vstd::prelude::*;

use crate::holder::{Holder, held_under};
use crate::stat::{
    BridgePendingStat, BridgeStat, BridgeStatRecord, Tag, is_release, lemma_activity_counts,
    lemma_release_count_all, tag_times,
    lemma_release_count_append, lemma_release_frames_append, lemma_release_frames_of,
    release_count, release_frames, stamp_of,
};
use crate::types::{Address, Frame, Segment, addr_key};

verus! {

broadcast use vstd::seq_lib::group_to_multiset_ensures, vstd::multiset::group_multiset_axioms;

/// What reaches the bridge: traffic, resolver replies, and the order to stop.
#[derive(Clone, Copy, Debug)]
pub enum Event {
    Request(Frame),
    Success(Address, Segment),
    Failure(Address),
    Shutdown,
}

/// What the bridge sends to the resolver.
#[derive(Clone, Copy, Debug)]
pub enum Command {
    Broadcast(Address),
    Dispatch(Frame, Segment),
    Discard(Frame),
}

/// The learned cache after handling `e`.
pub open spec fn next_cache(cache: Map<u32, Segment>, e: Event) -> Map<u32, Segment> {
    match e {
        Event::Success(a, s) => cache.insert(addr_key(a), s),
        _ => cache,
    }
}

/// The held frames after handling `e`.
pub open spec fn next_held(
    cache: Map<u32, Segment>,
    held: Map<u32, Seq<Frame>>,
    e: Event,
) -> Map<u32, Seq<Frame>> {
    match e {
        Event::Request(f) => {
            let k = addr_key(f.dst);
            if cache.contains_key(k) {
                held
            } else {
                held.insert(k, held_under(held, k).push(f))
            }
        },
        Event::Success(a, _) => held.remove(addr_key(a)),
        Event::Failure(a) => held.remove(addr_key(a)),
        Event::Shutdown => held,
    }
}

/// The commands sent on handling `e`, in order.
pub open spec fn commands_for(
    cache: Map<u32, Segment>,
    held: Map<u32, Seq<Frame>>,
    e: Event,
) -> Seq<Command> {
    match e {
        Event::Request(f) => {
            let k = addr_key(f.dst);
            if cache.contains_key(k) {
                seq![Command::Dispatch(f, cache[k])]
            } else {
                seq![Command::Broadcast(f.dst)]
            }
        },
        Event::Success(a, s) => {
            let fs = held_under(held, addr_key(a));
            Seq::new(fs.len(), |i: int| Command::Dispatch(fs[i], s))
        },
        Event::Failure(a) => {
            let fs = held_under(held, addr_key(a));
            Seq::new(fs.len(), |i: int| Command::Discard(fs[i]))
        },
        Event::Shutdown => Seq::empty(),
    }
}

/// The outcome records logged on handling `e`, in order.
pub open spec fn records_for(
    cache: Map<u32, Segment>,
    held: Map<u32, Seq<Frame>>,
    e: Event,
) -> Seq<BridgeStatRecord> {
    match e {
        Event::Request(f) => {
            if cache.contains_key(addr_key(f.dst)) {
                seq![BridgeStatRecord::Dispatch(f)]
            } else {
                seq![BridgeStatRecord::Broadcast(f)]
            }
        },
        Event::Success(a, _) => {
            let fs = held_under(held, addr_key(a));
            Seq::new(fs.len(), |i: int| BridgeStatRecord::Dispatch(fs[i]))
        },
        Event::Failure(a) => {
            let fs = held_under(held, addr_key(a));
            Seq::new(fs.len(), |i: int| BridgeStatRecord::Discard(fs[i]))
        },
        Event::Shutdown => Seq::empty(),
    }
}

/// The queue-depth samples logged on handling `e`: the number of waiting destinations once
/// the holder has changed, after a frame is held or after a release.
pub open spec fn depths_for(
    cache: Map<u32, Segment>,
    held: Map<u32, Seq<Frame>>,
    e: Event,
) -> Seq<usize> {
    match e {
        Event::Request(f) => {
            if cache.contains_key(addr_key(f.dst)) {
                Seq::empty()
            } else {
                seq![next_held(cache, held, e).dom().len() as usize]
            }
        },
        Event::Success(a, _) => seq![held.remove(addr_key(a)).dom().len() as usize],
        Event::Failure(a) => seq![held.remove(addr_key(a)).dom().len() as usize],
        Event::Shutdown => Seq::empty(),
    }
}

/// How many frames leave the bridge (dispatched or discarded) on handling `e`.
pub open spec fn released_count(
    cache: Map<u32, Segment>,
    held: Map<u32, Seq<Frame>>,
    e: Event,
) -> nat {
    match e {
        Event::Request(f) => if cache.contains_key(addr_key(f.dst)) {
            1
        } else {
            0
        },
        Event::Success(a, _) => held_under(held, addr_key(a)).len(),
        Event::Failure(a) => held_under(held, addr_key(a)).len(),
        Event::Shutdown => 0,
    }
}

/// The frames that leave the bridge on handling `e`.
pub open spec fn released_frames_by(
    cache: Map<u32, Segment>,
    held: Map<u32, Seq<Frame>>,
    e: Event,
) -> Multiset<Frame> {
    match e {
        Event::Request(f) => if cache.contains_key(addr_key(f.dst)) {
            Multiset::empty().insert(f)
        } else {
            Multiset::empty()
        },
        Event::Success(a, _) => held_under(held, addr_key(a)).to_multiset(),
        Event::Failure(a) => held_under(held, addr_key(a)).to_multiset(),
        Event::Shutdown => Multiset::empty(),
    }
}

/// The frame that `e` brings in, if it is a request.
pub open spec fn requested_by(e: Event) -> Multiset<Frame> {
    match e {
        Event::Request(f) => Multiset::empty().insert(f),
        _ => Multiset::empty(),
    }
}

/// The reply event that a release of `addr` answers: a success with `seg`, or a failure.
pub open spec fn reply_event(addr: Address, seg: Option<Segment>) -> Event {
    match seg {
        Some(s) => Event::Success(addr, s),
        None => Event::Failure(addr),
    }
}

/// `n` copies of the stamp that a log with times `times` gives to events at `now`.
pub open spec fn stamps(times: Seq<u64>, now: u64, n: nat) -> Seq<u64> {
    Seq::new(n, |i: int| stamp_of(times, now))
}

/// The learned cache and the held frames after a bridge that starts empty handles each of
/// `es` in turn.
pub open spec fn state_after(es: Seq<Event>) -> (Map<u32, Segment>, Map<u32, Seq<Frame>>)
    decreases es.len(),
{
    if es.len() == 0 {
        (Map::empty(), Map::empty())
    } else {
        let (c, h) = state_after(es.drop_last());
        (next_cache(c, es.last()), next_held(c, h, es.last()))
    }
}

/// The learned cache after handling each of `es` in turn.
pub open spec fn cache_after(cache: Map<u32, Segment>, es: Seq<Event>) -> Map<u32, Segment>
    decreases es.len(),
{
    if es.len() == 0 {
        cache
    } else {
        next_cache(cache_after(cache, es.drop_last()), es.last())
    }
}

/// Once learned, an address stays in the cache whatever events follow.
pub proof fn lemma_cache_keeps(cache: Map<u32, Segment>, es: Seq<Event>, k: u32)
    requires
        cache.contains_key(k),
    ensures
        cache_after(cache, es).contains_key(k),
    decreases es.len(),
{
    if es.len() > 0 {
        lemma_cache_keeps(cache, es.drop_last(), k);
    }
}

/// A success or a failure for an address leaves no frame held for it, and sends out every
/// frame that was held for it, in arrival order.
pub proof fn lemma_holder_drained(cache: Map<u32, Segment>, held: Map<u32, Seq<Frame>>, e: Event)
    ensures
        e matches Event::Success(a, s) ==> {
            &&& !next_held(cache, held, e).contains_key(addr_key(a))
            &&& commands_for(cache, held, e).len() == held_under(held, addr_key(a)).len()
            &&& forall|i: int|
                0 <= i < held_under(held, addr_key(a)).len() ==> #[trigger] commands_for(
                    cache,
                    held,
                    e,
                )[i] == Command::Dispatch(held_under(held, addr_key(a))[i], s)
        },
        e matches Event::Failure(a) ==> {
            &&& !next_held(cache, held, e).contains_key(addr_key(a))
            &&& commands_for(cache, held, e).len() == held_under(held, addr_key(a)).len()
            &&& forall|i: int|
                0 <= i < held_under(held, addr_key(a)).len() ==> #[trigger] commands_for(
                    cache,
                    held,
                    e,
                )[i] == Command::Discard(held_under(held, addr_key(a))[i])
        },
{
}

/// The first request for a destination that is not cached is broadcast and held. Once a
/// success for that destination has been handled, a request for it is dispatched with the
/// learned segment, never broadcast again, whatever events came in between.
pub proof fn lemma_first_hit(
    cache: Map<u32, Segment>,
    held: Map<u32, Seq<Frame>>,
    f: Frame,
    s: Segment,
    es: Seq<Event>,
    later_held: Map<u32, Seq<Frame>>,
    g: Frame,
)
    requires
        !cache.contains_key(addr_key(f.dst)),
        addr_key(g.dst) == addr_key(f.dst),
    ensures
        commands_for(cache, held, Event::Request(f)) == seq![Command::Broadcast(f.dst)],
        next_held(cache, held, Event::Request(f)).contains_key(addr_key(f.dst)),
        ({
            let learned = next_cache(next_cache(cache, Event::Request(f)), Event::Success(f.dst, s));
            let c = cache_after(learned, es);
            &&& c.contains_key(addr_key(g.dst))
            &&& commands_for(c, later_held, Event::Request(g)) == seq![
                Command::Dispatch(g, c[addr_key(g.dst)]),
            ]
        }),
{
    let learned = next_cache(next_cache(cache, Event::Request(f)), Event::Success(f.dst, s));
    lemma_cache_keeps(learned, es, addr_key(f.dst));
}

/// The resolving bridge: a learned cache, the frames waiting on resolution, and telemetry.
pub struct Bridge {
    cache: BTreeMap<u32, Segment>,
    pending: Holder,
    stat: BridgeStat,
    pending_stat: BridgePendingStat,
    requested: Ghost<nat>,
    released: Ghost<nat>,
    requested_frames: Ghost<Multiset<Frame>>,
    released_frames: Ghost<Multiset<Frame>>,
    history: Ghost<Seq<Event>>,
}

impl Bridge {
    /// The learned cache.
    pub closed spec fn cache(&self) -> Map<u32, Segment> {
        self.cache@
    }

    /// The frames waiting on resolution, by destination key.
    pub closed spec fn held(&self) -> Map<u32, Seq<Frame>> {
        self.pending@
    }

    /// Number of frames waiting on resolution.
    pub closed spec fn held_count(&self) -> nat {
        self.pending.held_count()
    }

    /// Number of requests handled so far.
    pub closed spec fn requested(&self) -> nat {
        self.requested@
    }

    /// Number of frames dispatched or discarded so far.
    pub closed spec fn released(&self) -> nat {
        self.released@
    }

    /// The frames of the requests handled so far.
    pub closed spec fn requested_frames(&self) -> Multiset<Frame> {
        self.requested_frames@
    }

    /// The frames dispatched or discarded so far.
    pub closed spec fn released_frames(&self) -> Multiset<Frame> {
        self.released_frames@
    }

    /// The frames waiting on resolution.
    pub closed spec fn held_frames(&self) -> Multiset<Frame> {
        self.pending.held_frames()
    }

    pub closed spec fn records(&self) -> Seq<BridgeStatRecord> {
        self.stat.records@
    }

    pub closed spec fn times(&self) -> Seq<u64> {
        self.stat.times@
    }

    pub closed spec fn depths(&self) -> Seq<usize> {
        self.pending_stat.records@
    }

    /// The events handled so far, `Shutdown` aside.
    pub closed spec fn history(&self) -> Seq<Event> {
        self.history@
    }

    pub closed spec fn wf(&self) -> bool {
        &&& state_after(self.history@) == (self.cache@, self.pending@)
        &&& self.parts_wf()
    }

    closed spec fn parts_wf(&self) -> bool {
        &&& self.pending.wf()
        &&& self.stat.wf()
        &&& self.pending_stat.wf()
        &&& self.requested@ == self.released@ + self.pending.held_count()
        &&& release_count(self.stat.records@) == self.released@
        &&& self.requested_frames@ == self.released_frames@.add(self.pending.held_frames())
        &&& release_frames(self.stat.records@) == self.released_frames@
    }

    pub fn new() -> (r: Bridge)
        ensures
            r.wf(),
            r.cache() == Map::<u32, Segment>::empty(),
            r.held() == Map::<u32, Seq<Frame>>::empty(),
            r.records().len() == 0,
            r.depths().len() == 0,
            r.requested() == 0,
            r.released() == 0,
            r.requested_frames() == Multiset::<Frame>::empty(),
            r.released_frames() == Multiset::<Frame>::empty(),
            r.history() == Seq::<Event>::empty(),
    {
        let r = Bridge {
            cache: BTreeMap::new(),
            pending: Holder::new(),
            stat: BridgeStat::new(),
            pending_stat: BridgePendingStat::new(),
            requested: Ghost(0),
            released: Ghost(0),
            requested_frames: Ghost(Multiset::empty()),
            released_frames: Ghost(Multiset::empty()),
            history: Ghost(Seq::empty()),
        };
        assert(r.cache@ =~= Map::<u32, Segment>::empty());
        assert(r.pending@ =~= Map::<u32, Seq<Frame>>::empty());
        assert(r.released_frames@.add(r.pending.held_frames()) =~= r.requested_frames@);
        r
    }

    /// The outcome log.
    pub fn stat(&self) -> (r: &BridgeStat)
        requires
            self.wf(),
        ensures
            r.wf(),
            r.records@ == self.records(),
            r.times@ == self.times(),
    {
        &self.stat
    }

    /// The queue-depth log.
    pub fn pending_stat(&self) -> (r: &BridgePendingStat)
        requires
            self.wf(),
        ensures
            r.wf(),
            r.records@ == self.depths(),
    {
        &self.pending_stat
    }

    /// The segment learned for `addr`, if any.
    pub fn lookup(&self, addr: Address) -> (r: Option<Segment>)
        ensures
            match r {
                Some(s) => self.cache().contains_key(addr_key(addr)) && self.cache()[addr_key(
                    addr,
                )] == s,
                None => !self.cache().contains_key(addr_key(addr)),
            },
    {
        let k = addr.key();
        match self.cache.get(&k) {
            Some(s) => Some(*s),
            None => None,
        }
    }

    /// Number of destinations that have frames waiting.
    pub fn pending_len(&self) -> (r: usize)
        requires
            self.wf(),
        ensures
            r == self.held().dom().len(),
    {
        self.pending.len()
    }

    /// Handles a request: dispatches the frame if its destination is cached, otherwise
    /// broadcasts the destination and holds the frame.
    fn request(&mut self, frame: Frame, now: u64) -> (r: Vec<Command>)
        requires
            old(self).parts_wf(),
        ensures
            final(self).parts_wf(),
            ({
                let event = Event::Request(frame);
                let c = old(self).cache();
                let h = old(self).held();
                &&& r@ == commands_for(c, h, event)
                &&& final(self).cache() == c
                &&& final(self).held() == next_held(c, h, event)
                &&& final(self).records() == old(self).records() + records_for(c, h, event)
                &&& final(self).times() == old(self).times() + stamps(
                    old(self).times(),
                    now,
                    records_for(c, h, event).len(),
                )
                &&& final(self).depths() == old(self).depths() + depths_for(c, h, event)
                &&& final(self).requested() == old(self).requested() + 1
                &&& final(self).released() == old(self).released() + released_count(c, h, event)
                &&& final(self).requested_frames() == old(self).requested_frames().add(
                    requested_by(event),
                )
                &&& final(self).released_frames() == old(self).released_frames().add(
                    released_frames_by(c, h, event),
                )
            }),
            final(self).history@ == old(self).history@.push(Event::Request(frame)),
    {
        let ghost event = Event::Request(frame);
        proof {
            self.history@ = self.history@.push(event);
        }
        let k = frame.dst.key();
        let hit = match self.cache.get(&k) {
            Some(s) => Some(*s),
            None => None,
        };
        proof {
            self.requested@ = self.requested@ + 1;
            self.requested_frames@ = self.requested_frames@.insert(frame);
        }
        let cmd = match hit {
            Some(segment) => {
                self.stat.dispatch(frame, now);
                proof {
                    self.released@ = self.released@ + 1;
                    self.released_frames@ = self.released_frames@.insert(frame);
                }
                Command::Dispatch(frame, segment)
            },
            None => {
                self.stat.broadcast(frame, now);
                self.pending.hold(frame);
                let depth = self.pending.len();
                self.pending_stat.rec(depth, now);
                Command::Broadcast(frame.dst)
            },
        };
        let mut cmds: Vec<Command> = Vec::new();
        cmds.push(cmd);
        proof {
            let c = old(self).cache();
            let h = old(self).held();
            let rs = records_for(c, h, event);
            lemma_release_count_append(old(self).records(), rs);
            lemma_release_frames_append(old(self).records(), rs);
            assert(rs.drop_last() =~= Seq::<BridgeStatRecord>::empty());
            assert(release_frames(rs.drop_last()) =~= Multiset::<Frame>::empty());
            assert(requested_by(event) =~= Multiset::<Frame>::empty().insert(frame));
            assert(release_count(rs) == release_count(rs.drop_last()) + if is_release(rs.last()) {
                1nat
            } else {
                0nat
            });
            assert(cmds@ =~= commands_for(c, h, event));
            assert(self.stat.records@ =~= old(self).records() + rs);
            assert(self.stat.times@ =~= old(self).times() + stamps(old(self).times(), now, 1));
            assert(self.pending_stat.records@ =~= old(self).depths() + depths_for(c, h, event));
            assert(self.requested_frames@ =~= self.released_frames@.add(self.pending.held_frames()));
            assert(self.released_frames@ =~= old(self).released_frames().add(
                released_frames_by(c, h, event),
            ));
            assert(self.requested_frames@ =~= old(self).requested_frames().add(
                requested_by(event),
            ));
        }
        cmds
    }

    /// Sends out the frames held for `addr`, each as a dispatch to `seg` or, without a
    /// segment, as a discard.
    fn drain(&mut self, addr: Address, seg: Option<Segment>, now: u64) -> (r: Vec<Command>)
        requires
            old(self).parts_wf(),
        ensures
            final(self).parts_wf(),
            final(self).history@ == old(self).history@,
            final(self).cache() == old(self).cache(),
            final(self).held() == old(self).held().remove(addr_key(addr)),
            r@ == commands_for(old(self).cache(), old(self).held(), reply_event(addr, seg)),
            final(self).records() == old(self).records() + records_for(
                old(self).cache(),
                old(self).held(),
                reply_event(addr, seg),
            ),
            final(self).times() == old(self).times() + stamps(
                old(self).times(),
                now,
                held_under(old(self).held(), addr_key(addr)).len(),
            ),
            final(self).depths() == old(self).depths().push(
                old(self).held().remove(addr_key(addr)).dom().len() as usize,
            ),
            final(self).requested() == old(self).requested(),
            final(self).released() == old(self).released() + held_under(
                old(self).held(),
                addr_key(addr),
            ).len(),
            final(self).requested_frames() == old(self).requested_frames(),
            final(self).released_frames() == old(self).released_frames().add(
                held_under(old(self).held(), addr_key(addr)).to_multiset(),
            ),
    {
        let ghost e = reply_event(addr, seg);
        let frames = self.pending.release(addr);
        let ghost r0 = self.stat.records@;
        let ghost t0 = self.stat.times@;
        let ghost fs = frames@;
        let mut cmds: Vec<Command> = Vec::new();
        let mut i: usize = 0;
        while i < frames.len()
            invariant
                i <= fs.len(),
                fs == frames@,
                self.stat.wf(),
                self.stat.records@ == r0 + records_for(old(self).cache(), old(self).held(), e).take(
                    i as int,
                ),
                self.stat.times@ == t0 + stamps(t0, now, i as nat),
                cmds@ == commands_for(old(self).cache(), old(self).held(), e).take(i as int),
                fs == held_under(old(self).held(), addr_key(addr)),
                e == reply_event(addr, seg),
                t0 == old(self).stat.times@,
                self.pending.wf(),
                self.pending@ == old(self).held().remove(addr_key(addr)),
                self.pending.held_count() + fs.len() == old(self).pending.held_count(),
                self.pending_stat.wf(),
                self.pending_stat.records@ == old(self).pending_stat.records@,
                self.cache@ == old(self).cache@,
                self.requested@ == old(self).requested@,
                self.released@ == old(self).released@,
                self.requested_frames@ == old(self).requested_frames@,
                self.released_frames@ == old(self).released_frames@,
                self.history@ == old(self).history@,
                self.pending.held_frames().add(fs.to_multiset()) == old(self).pending.held_frames(),
                old(self).parts_wf(),
            decreases fs.len() - i,
        {
            let f = frames[i];
            proof {
                if i > 0 {
                    assert((t0 + stamps(t0, now, i as nat)).last() == stamp_of(t0, now));
                }
            }
            match seg {
                Some(s) => {
                    self.stat.dispatch(f, now);
                    cmds.push(Command::Dispatch(f, s));
                },
                None => {
                    self.stat.discard(f, now);
                    cmds.push(Command::Discard(f));
                },
            }
            proof {
                let rs = records_for(old(self).cache(), old(self).held(), e);
                let cs = commands_for(old(self).cache(), old(self).held(), e);
                assert(rs.take(i + 1) =~= rs.take(i as int).push(rs[i as int]));
                assert(cs.take(i + 1) =~= cs.take(i as int).push(cs[i as int]));
                assert(stamps(t0, now, (i + 1) as nat) =~= stamps(t0, now, i as nat).push(
                    stamp_of(t0, now),
                ));
            }
            i = i + 1;
        }
        proof {
            let rs = records_for(old(self).cache(), old(self).held(), e);
            let cs = commands_for(old(self).cache(), old(self).held(), e);
            assert(rs.take(i as int) =~= rs);
            assert(cs.take(i as int) =~= cs);
            lemma_release_count_all(rs);
            lemma_release_count_append(r0, rs);
            lemma_release_frames_append(r0, rs);
            lemma_release_frames_of(rs, fs);
            self.released@ = self.released@ + fs.len();
            self.released_frames@ = self.released_frames@.add(fs.to_multiset());
            assert(self.requested_frames@ =~= self.released_frames@.add(self.pending.held_frames()));
        }
        let depth = self.pending.len();
        self.pending_stat.rec(depth, now);
        cmds
    }
}

/// The frames of the dispatch and discard commands among `cmds`.
pub open spec fn command_frames(cmds: Seq<Command>) -> Multiset<Frame>
    decreases cmds.len(),
{
    if cmds.len() == 0 {
        Multiset::empty()
    } else {
        let prev = command_frames(cmds.drop_last());
        match cmds.last() {
            Command::Broadcast(_) => prev,
            Command::Dispatch(f, _) => prev.insert(f),
            Command::Discard(f) => prev.insert(f),
        }
    }
}

proof fn lemma_command_frames_of(cmds: Seq<Command>, fs: Seq<Frame>)
    requires
        cmds.len() == fs.len(),
        forall|i: int|
            0 <= i < cmds.len() ==> match #[trigger] cmds[i] {
                Command::Broadcast(_) => false,
                Command::Dispatch(f, _) => f == fs[i],
                Command::Discard(f) => f == fs[i],
            },
    ensures
        command_frames(cmds) =~= fs.to_multiset(),
    decreases cmds.len(),
{
    if cmds.len() > 0 {
        lemma_command_frames_of(cmds.drop_last(), fs.drop_last());
        assert(fs.drop_last().push(fs.last()) =~= fs);
        assert(cmds[cmds.len() - 1] == cmds.last());
    } else {
        assert(fs =~= Seq::<Frame>::empty());
    }
}

/// The dispatches and discards that the bridge sends on an event carry exactly the frames that
/// leave it on that event, so the resolver counts each released frame once.
pub proof fn lemma_commands_carry_released(
    cache: Map<u32, Segment>,
    held: Map<u32, Seq<Frame>>,
    e: Event,
)
    ensures
        command_frames(commands_for(cache, held, e)) == released_frames_by(cache, held, e),
        command_frames(commands_for(cache, held, e)).len() == released_count(cache, held, e),
{
    let cmds = commands_for(cache, held, e);
    match e {
        Event::Request(f) => {
            assert(cmds.drop_last() =~= Seq::<Command>::empty());
            assert(command_frames(cmds.drop_last()) =~= Multiset::<Frame>::empty());
            if cache.contains_key(addr_key(f.dst)) {
                assert(command_frames(cmds) =~= released_frames_by(cache, held, e));
            } else {
                assert(command_frames(cmds) =~= released_frames_by(cache, held, e));
            }
        },
        Event::Success(a, _) => {
            lemma_command_frames_of(cmds, held_under(held, addr_key(a)));
        },
        Event::Failure(a) => {
            lemma_command_frames_of(cmds, held_under(held, addr_key(a)));
        },
        Event::Shutdown => {
            assert(command_frames(cmds) =~= released_frames_by(cache, held, e));
        },
    }
}

/// Whether `e` is a success for the address with key `k`.
pub open spec fn learns(e: Event, k: u32) -> bool {
    e matches Event::Success(a, _) && addr_key(a) == k
}

/// Whether `e` is a success or a failure for the address with key `k`.
pub open spec fn answers(e: Event, k: u32) -> bool {
    match e {
        Event::Success(a, _) => addr_key(a) == k,
        Event::Failure(a) => addr_key(a) == k,
        _ => false,
    }
}

/// Whether every request among `es` is followed, later in `es`, by a success or a failure
/// for its destination.
pub open spec fn requests_answered(es: Seq<Event>) -> bool {
    forall|i: int|
        0 <= i < es.len() && #[trigger] es[i] is Request ==> exists|j: int|
            i < j < es.len() && answers(es[j], addr_key(es[i]->Request_0.dst))
}

proof fn lemma_state_cache(es: Seq<Event>)
    ensures
        state_after(es).0 == cache_after(Map::empty(), es),
    decreases es.len(),
{
    if es.len() > 0 {
        lemma_state_cache(es.drop_last());
    }
}

/// An address is in the cache exactly when some success for it has been handled.
proof fn lemma_cache_has(es: Seq<Event>, k: u32)
    ensures
        state_after(es).0.contains_key(k) <==> exists|i: int|
            0 <= i < es.len() && learns(#[trigger] es[i], k),
    decreases es.len(),
{
    if es.len() > 0 {
        let rest = es.drop_last();
        lemma_cache_has(rest, k);
        let e = es.last();
        assert(es[es.len() - 1] == e);
        if exists|i: int| 0 <= i < rest.len() && learns(#[trigger] rest[i], k) {
            let i = choose|i: int| 0 <= i < rest.len() && learns(#[trigger] rest[i], k);
            assert(es[i] == rest[i]);
        }
        if exists|i: int| 0 <= i < es.len() && learns(#[trigger] es[i], k) {
            let i = choose|i: int| 0 <= i < es.len() && learns(#[trigger] es[i], k);
            if i < es.len() - 1 {
                assert(es[i] == rest[i]);
            }
        }
    }
}

/// An address in the cache is bound to the segment of the latest success for it.
proof fn lemma_cache_latest(es: Seq<Event>, k: u32, i: int)
    requires
        0 <= i < es.len(),
        learns(es[i], k),
        forall|j: int| i < j < es.len() ==> !learns(#[trigger] es[j], k),
    ensures
        state_after(es).0.contains_key(k),
        state_after(es).0[k] == es[i]->Success_1,
    decreases es.len(),
{
    let rest = es.drop_last();
    let e = es.last();
    assert(es[es.len() - 1] == e);
    if i < es.len() - 1 {
        assert(!learns(e, k));
        assert(rest[i] == es[i]);
        assert forall|j: int| i < j < rest.len() implies !learns(#[trigger] rest[j], k) by {
            assert(rest[j] == es[j]);
        }
        lemma_cache_latest(rest, k, i);
    }
}

/// A destination still has frames held only if some request for it has had no success or
/// failure for it since.
proof fn lemma_held_history(es: Seq<Event>, k: u32)
    ensures
        state_after(es).1.contains_key(k) ==> exists|i: int|
            0 <= i < es.len() && #[trigger] es[i] is Request && addr_key(es[i]->Request_0.dst) == k
                && forall|j: int| i < j < es.len() ==> !answers(#[trigger] es[j], k),
    decreases es.len(),
{
    if es.len() > 0 {
        let rest = es.drop_last();
        lemma_held_history(rest, k);
        let e = es.last();
        assert(es[es.len() - 1] == e);
        let (c, h) = state_after(rest);
        if state_after(es).1.contains_key(k) {
            if e is Request && addr_key(e->Request_0.dst) == k && !c.contains_key(k) {
                let i = es.len() - 1;
                assert(es[i] is Request);
            } else {
                assert(h.contains_key(k));
                assert(!answers(e, k));
                let i = choose|i: int|
                    0 <= i < rest.len() && #[trigger] rest[i] is Request && addr_key(
                        rest[i]->Request_0.dst,
                    ) == k && forall|j: int| i < j < rest.len() ==> !answers(#[trigger] rest[j], k);
                assert(es[i] == rest[i]);
                assert forall|j: int| i < j < es.len() implies !answers(#[trigger] es[j], k) by {
                    if j < rest.len() {
                        assert(es[j] == rest[j]);
                    }
                }
            }
        }
    }
}

/// Frames are held under their own destination.
proof fn lemma_held_keys(es: Seq<Event>)
    ensures
        forall|k: u32, i: int|
            #![trigger state_after(es).1[k][i]]
            state_after(es).1.contains_key(k) && 0 <= i < state_after(es).1[k].len() ==> addr_key(
                state_after(es).1[k][i].dst,
            ) == k,
    decreases es.len(),
{
    if es.len() > 0 {
        let rest = es.drop_last();
        lemma_held_keys(rest);
        let (c, h) = state_after(rest);
        let e = es.last();
        let h2 = state_after(es).1;
        assert(h2 == next_held(c, h, e));
        assert forall|k: u32, i: int|
            #![trigger h2[k][i]]
            h2.contains_key(k) && 0 <= i < h2[k].len() implies addr_key(h2[k][i].dst) == k by {
            if let Event::Request(f) = e {
                let k2 = addr_key(f.dst);
                if !c.contains_key(k2) && k == k2 {
                    if i < held_under(h, k2).len() {
                        assert(h2[k][i] == h[k][i]);
                    }
                } else {
                    assert(h2[k] == h[k]);
                }
            } else {
                assert(h2[k] == h[k]);
            }
        }
    }
}

/// Every frame held for a destination key is addressed to that key.
pub proof fn lemma_held_under_own_key(b: &Bridge)
    requires
        b.wf(),
    ensures
        forall|k: u32, i: int|
            #![trigger b.held()[k][i]]
            b.held().contains_key(k) && 0 <= i < b.held()[k].len() ==> addr_key(b.held()[k][i].dst)
                == k,
{
    lemma_held_keys(b.history());
    assert(b.held() == state_after(b.history()).1);
}

/// The cache and the held frames are what the handled events make of an empty bridge.
pub proof fn lemma_state_of_history(b: &Bridge)
    requires
        b.wf(),
    ensures
        b.cache() == state_after(b.history()).0,
        b.held() == state_after(b.history()).1,
        b.cache() == cache_after(Map::empty(), b.history()),
{
    lemma_state_cache(b.history());
}

/// A request for a destination that no handled success has named is broadcast and held,
/// whatever else was handled before (a failure for it included).
pub proof fn lemma_request_without_success(b: &Bridge, f: Frame)
    requires
        b.wf(),
        forall|i: int| 0 <= i < b.history().len() ==> !learns(#[trigger] b.history()[i], addr_key(f.dst)),
    ensures
        commands_for(b.cache(), b.held(), Event::Request(f)) == seq![Command::Broadcast(f.dst)],
{
    lemma_cache_has(b.history(), addr_key(f.dst));
}

/// A request for a destination after a success for it has been handled is dispatched with the
/// segment of the latest such success, and not broadcast.
pub proof fn lemma_request_after_success(b: &Bridge, g: Frame, i: int)
    requires
        b.wf(),
        0 <= i < b.history().len(),
        learns(b.history()[i], addr_key(g.dst)),
        forall|j: int| i < j < b.history().len() ==> !learns(#[trigger] b.history()[j], addr_key(g.dst)),
    ensures
        commands_for(b.cache(), b.held(), Event::Request(g)) == seq![
            Command::Dispatch(g, b.history()[i]->Success_1),
        ],
{
    lemma_cache_latest(b.history(), addr_key(g.dst), i);
}

/// Once every request handled has been answered by a success or a failure for its
/// destination, nothing is held, and every requested frame has been dispatched or discarded
/// exactly once.
pub proof fn lemma_all_answered(b: &Bridge)
    requires
        b.wf(),
        requests_answered(b.history()),
    ensures
        b.held().dom().len() == 0,
        b.requested() == b.released(),
        b.requested_frames() == b.released_frames(),
        tag_times(b.records(), b.times(), Tag::Dispatch, b.records().len()).len() + tag_times(
            b.records(),
            b.times(),
            Tag::Discard,
            b.records().len(),
        ).len() == b.requested(),
{
    lemma_activity_counts(b.records(), b.times());
    let es = b.history();
    assert(b.held().dom() =~= Set::<u32>::empty()) by {
        assert forall|k: u32| !b.held().contains_key(k) by {
            lemma_held_history(es, k);
            if b.held().contains_key(k) {
                let i = choose|i: int|
                    0 <= i < es.len() && #[trigger] es[i] is Request && addr_key(
                        es[i]->Request_0.dst,
                    ) == k && forall|j: int| i < j < es.len() ==> !answers(#[trigger] es[j], k);
                let j = choose|j: int|
                    i < j < es.len() && answers(es[j], addr_key(es[i]->Request_0.dst));
                assert(!answers(es[j], k));
            }
        }
    }
    lemma_conservation(b);
}

/// Every request handled so far has either left the bridge exactly once, as a dispatch or a
/// discard, or is still held; the log holds one dispatch or discard record for each frame that
/// left. Once nothing is held, the frames that left are exactly the frames requested.
pub proof fn lemma_conservation(b: &Bridge)
    requires
        b.wf(),
    ensures
        b.requested() == b.released() + b.held_count(),
        release_count(b.records()) == b.released(),
        b.held().dom().len() == 0 ==> b.requested() == b.released(),
        b.requested_frames() == b.released_frames().add(b.held_frames()),
        release_frames(b.records()) == b.released_frames(),
        b.held().dom().len() == 0 ==> b.requested_frames() == b.released_frames(),
{
    if b.held().dom().len() == 0 {
        b.pending.lemma_empty();
        assert(b.released_frames().add(b.held_frames()) =~= b.released_frames());
    }
}

/// Handles one event: returns the commands to send, in order, or `None` on `Shutdown`.
///
/// A request whose destination is cached is dispatched at once; otherwise its destination is
/// broadcast and the frame held. A success is learned and releases the frames held for its
/// address as dispatches; a failure releases them as discards. `now` is the time of the event
/// in microseconds since the bridge started.
pub fn bridge(state: &mut Bridge, event: Event, now: u64) -> (r: Option<Vec<Command>>)
    requires
        old(state).wf(),
    ensures
        final(state).wf(),
        event is Shutdown ==> r is None && *final(state) == *old(state),
        !(event is Shutdown) ==> final(state).history() == old(state).history().push(event),
        !(event is Shutdown) ==> r is Some,
        r matches Some(cmds) ==> cmds@ == commands_for(old(state).cache(), old(state).held(), event),
        final(state).cache() == next_cache(old(state).cache(), event),
        final(state).held() == next_held(old(state).cache(), old(state).held(), event),
        final(state).records() == old(state).records() + records_for(
            old(state).cache(),
            old(state).held(),
            event,
        ),
        final(state).times() == old(state).times() + stamps(
            old(state).times(),
            now,
            records_for(old(state).cache(), old(state).held(), event).len(),
        ),
        final(state).depths() == old(state).depths() + depths_for(
            old(state).cache(),
            old(state).held(),
            event,
        ),
        final(state).requested() == old(state).requested() + if event is Request {
            1nat
        } else {
            0nat
        },
        final(state).released() == old(state).released() + released_count(
            old(state).cache(),
            old(state).held(),
            event,
        ),
        final(state).requested_frames() == old(state).requested_frames().add(requested_by(event)),
        final(state).released_frames() == old(state).released_frames().add(
            released_frames_by(old(state).cache(), old(state).held(), event),
        ),
{
    proof {
        assert(old(state).history().push(event).drop_last() =~= old(state).history());
    }
    match event {
        Event::Request(frame) => {
            let cmds = state.request(frame, now);
            Some(cmds)
        },
        Event::Success(address, segment) => {
            state.cache.insert(address.key(), segment);
            let cmds = state.drain(address, Some(segment), now);
            proof {
                state.history@ = state.history@.push(event);
                assert(state.requested_frames@ =~= old(state).requested_frames().add(
                    requested_by(event),
                ));
            }
            Some(cmds)
        },
        Event::Failure(address) => {
            let cmds = state.drain(address, None, now);
            proof {
                state.history@ = state.history@.push(event);
                assert(state.requested_frames@ =~= old(state).requested_frames().add(
                    requested_by(event),
                ));
            }
            Some(cmds)
        },
        Event::Shutdown => {
            proof {
                assert(state.requested_frames@ =~= old(state).requested_frames().add(
                    requested_by(event),
                ));
                assert(state.released_frames@ =~= old(state).released_frames().add(
                    released_frames_by(old(state).cache(), old(state).held(), event),
                ));
            }
            None
        },
    }
}

} // verus!
