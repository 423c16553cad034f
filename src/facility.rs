use std::collections::BTreeMap;
use vstd::prelude::*;

use crate::bridge::{
    Bridge, Command, Event, cache_after, commands_for, lemma_held_under_own_key,
    lemma_state_of_history, next_cache,
};
use crate::types::{Address, Segment, addr_key};

verus! {

/// Counts of what the resolver handled since the last report.
pub struct FacilityMeter {
    pub s_cnt: usize,
    pub f_cnt: usize,
    pub dp_cnt: usize,
    pub dc_cnt: usize,
}

/// `x + 1`, held at the largest `usize`.
pub open spec fn bump(x: usize) -> usize {
    if x == usize::MAX {
        x
    } else {
        (x + 1) as usize
    }
}

impl FacilityMeter {
    pub fn new() -> (r: FacilityMeter)
        ensures
            r.s_cnt == 0 && r.f_cnt == 0 && r.dp_cnt == 0 && r.dc_cnt == 0,
    {
        FacilityMeter { s_cnt: 0, f_cnt: 0, dp_cnt: 0, dc_cnt: 0 }
    }

    pub fn inc_success(&mut self)
        ensures
            *final(self) == (FacilityMeter { s_cnt: bump(old(self).s_cnt), ..*old(self) }),
    {
        self.s_cnt = self.s_cnt.saturating_add(1);
    }

    pub fn inc_failure(&mut self)
        ensures
            *final(self) == (FacilityMeter { f_cnt: bump(old(self).f_cnt), ..*old(self) }),
    {
        self.f_cnt = self.f_cnt.saturating_add(1);
    }

    pub fn inc_dispatch(&mut self)
        ensures
            *final(self) == (FacilityMeter { dp_cnt: bump(old(self).dp_cnt), ..*old(self) }),
    {
        self.dp_cnt = self.dp_cnt.saturating_add(1);
    }

    pub fn inc_discard(&mut self)
        ensures
            *final(self) == (FacilityMeter { dc_cnt: bump(old(self).dc_cnt), ..*old(self) }),
    {
        self.dc_cnt = self.dc_cnt.saturating_add(1);
    }

    /// Returns the successes, failures, dispatches and discards counted since the last
    /// report, and starts counting afresh.
    pub fn report(&mut self) -> (r: (usize, usize, usize, usize))
        ensures
            r == (old(self).s_cnt, old(self).f_cnt, old(self).dp_cnt, old(self).dc_cnt),
            final(self).s_cnt == 0 && final(self).f_cnt == 0 && final(self).dp_cnt == 0
                && final(self).dc_cnt == 0,
    {
        let r = (self.s_cnt, self.f_cnt, self.dp_cnt, self.dc_cnt);
        self.s_cnt = 0;
        self.f_cnt = 0;
        self.dp_cnt = 0;
        self.dc_cnt = 0;
        r
    }
}

/// The ground-truth mapping that a list of pairs gives: a later pair for an address wins.
pub open spec fn mapping_of(pairs: Seq<(Address, Segment)>) -> Map<u32, Segment>
    decreases pairs.len(),
{
    if pairs.len() == 0 {
        Map::empty()
    } else {
        mapping_of(pairs.drop_last()).insert(addr_key(pairs.last().0), pairs.last().1)
    }
}

/// The resolver's answer to a broadcast for `a`.
pub open spec fn resolve(mapping: Map<u32, Segment>, a: Address) -> Event {
    if mapping.contains_key(addr_key(a)) {
        Event::Success(a, mapping[addr_key(a)])
    } else {
        Event::Failure(a)
    }
}

/// Every binding in `cache` is the ground truth's binding.
pub open spec fn agrees_with(cache: Map<u32, Segment>, mapping: Map<u32, Segment>) -> bool {
    forall|k: u32| #[trigger]
        cache.contains_key(k) ==> mapping.contains_key(k) && mapping[k] == cache[k]
}

/// Whether every success among `es` is the resolver's answer for its address.
pub open spec fn successes_resolved(mapping: Map<u32, Segment>, es: Seq<Event>) -> bool {
    forall|i: int|
        0 <= i < es.len() ==> (#[trigger] es[i] matches Event::Success(a, _) ==> es[i] == resolve(
            mapping,
            a,
        ))
}

/// The bridge never learns a wrong binding: starting from a cache that agrees with the ground
/// truth, and with every success coming from the resolver, the cache agrees with the ground
/// truth after each event.
pub proof fn lemma_cache_sound(cache: Map<u32, Segment>, mapping: Map<u32, Segment>, es: Seq<Event>)
    requires
        agrees_with(cache, mapping),
        successes_resolved(mapping, es),
    ensures
        agrees_with(cache_after(cache, es), mapping),
    decreases es.len(),
{
    if es.len() > 0 {
        let rest = es.drop_last();
        assert forall|i: int| 0 <= i < rest.len() implies (#[trigger] rest[i] matches Event::Success(
            a,
            _,
        ) ==> rest[i] == resolve(mapping, a)) by {
            assert(rest[i] == es[i]);
        }
        lemma_cache_sound(cache, mapping, rest);
        assert(es[es.len() - 1] == es.last());
    }
}

/// A bridge whose every handled success came from the resolver holds only ground-truth
/// bindings in its cache.
pub proof fn lemma_bridge_cache_sound(b: &Bridge, mapping: Map<u32, Segment>)
    requires
        b.wf(),
        successes_resolved(mapping, b.history()),
    ensures
        agrees_with(b.cache(), mapping),
{
    lemma_state_of_history(b);
    lemma_cache_sound(Map::empty(), mapping, b.history());
}

/// When every success the bridge handles comes from the resolver, every dispatch it sends,
/// at once on a cache hit or on a release, names the ground-truth segment of the frame's
/// destination.
pub proof fn lemma_dispatch_sound(b: &Bridge, mapping: Map<u32, Segment>, e: Event)
    requires
        b.wf(),
        successes_resolved(mapping, b.history()),
        e matches Event::Success(a, _) ==> e == resolve(mapping, a),
    ensures
        forall|i: int|
            0 <= i < commands_for(b.cache(), b.held(), e).len() ==> (#[trigger] commands_for(
                b.cache(),
                b.held(),
                e,
            )[i] matches Command::Dispatch(f, s) ==> mapping.contains_key(addr_key(f.dst))
                && mapping[addr_key(f.dst)] == s),
{
    lemma_bridge_cache_sound(b, mapping);
    lemma_held_under_own_key(b);
    let cmds = commands_for(b.cache(), b.held(), e);
    assert forall|i: int| 0 <= i < cmds.len() implies (#[trigger] cmds[i] matches Command::Dispatch(
        f,
        s,
    ) ==> mapping.contains_key(addr_key(f.dst)) && mapping[addr_key(f.dst)] == s) by {
        if let Event::Success(a, s) = e {
            let k = addr_key(a);
            if b.held().contains_key(k) {
                assert(b.held()[k][i].dst == (cmds[i]->Dispatch_0).dst);
            }
        }
    }
}

/// The resolver answers a broadcast only with the ground truth: a success carries the
/// mapped segment, and a failure comes only for an unmapped address.
pub proof fn lemma_resolver_truthful(mapping: Map<u32, Segment>, total: nat, done: nat, c: Command)
    ensures
        forall|i: int|
            0 <= i < facility_events(mapping, total, done, c).len() ==> match #[trigger] facility_events(
                mapping,
                total,
                done,
                c,
            )[i] {
                Event::Success(a, s) => mapping.contains_key(addr_key(a)) && mapping[addr_key(a)]
                    == s,
                Event::Failure(a) => !mapping.contains_key(addr_key(a)),
                _ => true,
            },
{
}

/// A resolver expecting at least one frame that has not finished has counted fewer frames than
/// it expects; it sends `Shutdown` on a command exactly when that command's frame is the last
/// one expected, and then as the last event of that command.
pub proof fn lemma_shutdown_once(f: &Facility, c: Command)
    requires
        f.wf(),
        f.total() >= 1,
        !f.finished(),
    ensures
        f.completed() < f.total(),
        ({
            let ev = facility_events(f.mapping(), f.total(), f.completed(), c);
            &&& (ev.len() > 0 && ev.last() is Shutdown) <==> completed_after(f.completed(), c)
                == f.total()
            &&& forall|i: int| 0 <= i < ev.len() - 1 ==> !(#[trigger] ev[i] is Shutdown)
        }),
{
}

/// Frames that have reached an end after `c` is handled, from `done` before it.
pub open spec fn completed_after(done: nat, c: Command) -> nat {
    if c is Broadcast {
        done
    } else {
        done + 1
    }
}

/// The events that the resolver sends on handling `c`: the answer to a broadcast, then
/// `Shutdown` once every expected frame has reached an end.
pub open spec fn facility_events(
    mapping: Map<u32, Segment>,
    total: nat,
    done: nat,
    c: Command,
) -> Seq<Event> {
    let answer = match c {
        Command::Broadcast(a) => seq![resolve(mapping, a)],
        _ => Seq::empty(),
    };
    if completed_after(done, c) >= total {
        answer.push(Event::Shutdown)
    } else {
        answer
    }
}

/// The authoritative resolver: the ground-truth mapping and the count of frames that have
/// reached an end.
pub struct Facility {
    mapping: BTreeMap<u32, Segment>,
    count: usize,
    cur_n: usize,
    finished: bool,
    pub meter: FacilityMeter,
}

impl Facility {
    pub closed spec fn mapping(&self) -> Map<u32, Segment> {
        self.mapping@
    }

    /// Number of frames expected in the run.
    pub closed spec fn total(&self) -> nat {
        self.count as nat
    }

    /// Number of frames dispatched or discarded so far.
    pub closed spec fn completed(&self) -> nat {
        self.cur_n as nat
    }

    /// Whether `Shutdown` has been sent.
    pub closed spec fn finished(&self) -> bool {
        self.finished
    }

    pub closed spec fn wf(&self) -> bool {
        !self.finished ==> (self.cur_n < self.count || self.cur_n == 0)
    }

    /// A resolver for `count` frames over the mapping that `pairs` gives.
    pub fn new(count: usize, pairs: Vec<(Address, Segment)>) -> (r: Facility)
        ensures
            r.wf(),
            r.mapping() == mapping_of(pairs@),
            r.total() == count,
            r.completed() == 0,
            !r.finished(),
    {
        let mut mapping: BTreeMap<u32, Segment> = BTreeMap::new();
        let mut i: usize = 0;
        while i < pairs.len()
            invariant
                i <= pairs@.len(),
                mapping@ == mapping_of(pairs@.take(i as int)),
            decreases pairs@.len() - i,
        {
            let (a, s) = pairs[i];
            mapping.insert(a.key(), s);
            assert(pairs@.take(i + 1).drop_last() =~= pairs@.take(i as int));
            i = i + 1;
        }
        assert(pairs@.take(i as int) =~= pairs@);
        Facility { mapping, count, cur_n: 0, finished: false, meter: FacilityMeter::new() }
    }

    /// Whether `Shutdown` has been sent.
    pub fn is_finished(&self) -> (r: bool)
        ensures
            r == self.finished(),
    {
        self.finished
    }
}

/// Handles one command: answers a broadcast from the ground truth, counts a dispatch or a
/// discard, and adds `Shutdown` once the count reaches the expected number of frames.
pub fn facility(state: &mut Facility, command: Command) -> (r: Vec<Event>)
    requires
        old(state).wf(),
        !old(state).finished(),
    ensures
        final(state).wf(),
        r@ == facility_events(
            old(state).mapping(),
            old(state).total(),
            old(state).completed(),
            command,
        ),
        final(state).mapping() == old(state).mapping(),
        final(state).total() == old(state).total(),
        final(state).completed() == completed_after(old(state).completed(), command),
        final(state).finished() == (completed_after(old(state).completed(), command)
            >= old(state).total()),
{
    let mut events: Vec<Event> = Vec::new();
    match command {
        Command::Broadcast(addr) => {
            match state.mapping.get(&addr.key()) {
                Some(segment) => {
                    events.push(Event::Success(addr, *segment));
                    state.meter.inc_success();
                },
                None => {
                    events.push(Event::Failure(addr));
                    state.meter.inc_failure();
                },
            }
        },
        Command::Dispatch(_, _) => {
            state.meter.inc_dispatch();
            state.cur_n = state.cur_n + 1;
        },
        Command::Discard(_) => {
            state.meter.inc_discard();
            state.cur_n = state.cur_n + 1;
        },
    }
    if state.cur_n >= state.count {
        events.push(Event::Shutdown);
        state.finished = true;
    }
    proof {
        assert(events@ =~= facility_events(
            old(state).mapping(),
            old(state).total(),
            old(state).completed(),
            command,
        ));
    }
    events
}

} // verus!
