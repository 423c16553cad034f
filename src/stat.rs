use vstd::multiset::Multiset;
use vstd::prelude::*;

use crate::types::{Frame, same_frame};

verus! {

broadcast use vstd::seq_lib::group_to_multiset_ensures, vstd::multiset::group_multiset_axioms;

/// One outcome recorded by the bridge, with the frame it concerns.
#[derive(Clone, Copy, Debug)]
pub enum BridgeStatRecord {
    Broadcast(Frame),
    Dispatch(Frame),
    Discard(Frame),
}

/// The frame that a record carries.
pub open spec fn record_frame(r: BridgeStatRecord) -> Frame {
    match r {
        BridgeStatRecord::Broadcast(f) => f,
        BridgeStatRecord::Dispatch(f) => f,
        BridgeStatRecord::Discard(f) => f,
    }
}

/// Whether a record ends a frame's handling (a dispatch or a discard).
pub open spec fn is_release(r: BridgeStatRecord) -> bool {
    !(r is Broadcast)
}

/// Whether a record is of kind `tag`.
pub open spec fn tag_matches(r: BridgeStatRecord, tag: Tag) -> bool {
    match tag {
        Tag::Broadcast => r is Broadcast,
        Tag::Dispatch => r is Dispatch,
        Tag::Discard => r is Discard,
    }
}

/// The kind of a telemetry record.
#[derive(Clone, Copy, Debug, PartialEq, Eq, Structural)]
pub enum Tag {
    Broadcast,
    Dispatch,
    Discard,
}

/// Timestamps of the first `n` records that carry `tag`, in recording order.
pub open spec fn tag_times(recs: Seq<BridgeStatRecord>, times: Seq<u64>, tag: Tag, n: nat) -> Seq<
    u64,
>
    decreases n,
{
    if n == 0 {
        Seq::empty()
    } else {
        let prev = tag_times(recs, times, tag, (n - 1) as nat);
        if tag_matches(recs[n - 1], tag) {
            prev.push(times[n - 1])
        } else {
            prev
        }
    }
}

/// Index of the first release at or after `j` whose frame equals `f`.
pub open spec fn first_release_from(recs: Seq<BridgeStatRecord>, f: Frame, j: int) -> Option<int>
    decreases recs.len() - j,
{
    if j < 0 || j >= recs.len() {
        None
    } else if is_release(recs[j]) && same_frame(record_frame(recs[j]), f) {
        Some(j)
    } else {
        first_release_from(recs, f, j + 1)
    }
}

/// `(broadcast time, latency)` for each of the first `n` records that is a broadcast whose
/// frame is released later; a broadcast that no later release matches gives no pair.
pub open spec fn latency_pairs(recs: Seq<BridgeStatRecord>, times: Seq<u64>, n: nat) -> Seq<
    (u64, u64),
>
    decreases n,
{
    if n == 0 {
        Seq::empty()
    } else {
        let prev = latency_pairs(recs, times, (n - 1) as nat);
        let b = n - 1;
        if recs[b] is Broadcast {
            match first_release_from(recs, record_frame(recs[b]), b + 1) {
                Some(j) => prev.push((times[b], (times[j] - times[b]) as u64)),
                None => prev,
            }
        } else {
            prev
        }
    }
}

/// Number of dispatch and discard records.
pub open spec fn release_count(recs: Seq<BridgeStatRecord>) -> nat
    decreases recs.len(),
{
    if recs.len() == 0 {
        0
    } else {
        release_count(recs.drop_last()) + if is_release(recs.last()) {
            1nat
        } else {
            0nat
        }
    }
}

pub proof fn lemma_release_count_append(a: Seq<BridgeStatRecord>, b: Seq<BridgeStatRecord>)
    ensures
        release_count(a + b) == release_count(a) + release_count(b),
    decreases b.len(),
{
    if b.len() > 0 {
        assert((a + b).drop_last() =~= a + b.drop_last());
        lemma_release_count_append(a, b.drop_last());
    } else {
        assert(a + b =~= a);
    }
}

pub proof fn lemma_release_count_all(s: Seq<BridgeStatRecord>)
    requires
        forall|i: int| 0 <= i < s.len() ==> is_release(#[trigger] s[i]),
    ensures
        release_count(s) == s.len(),
    decreases s.len(),
{
    if s.len() > 0 {
        lemma_release_count_all(s.drop_last());
    }
}

/// The frames of the dispatch and discard records.
pub open spec fn release_frames(recs: Seq<BridgeStatRecord>) -> Multiset<Frame>
    decreases recs.len(),
{
    if recs.len() == 0 {
        Multiset::empty()
    } else if is_release(recs.last()) {
        release_frames(recs.drop_last()).insert(record_frame(recs.last()))
    } else {
        release_frames(recs.drop_last())
    }
}

pub proof fn lemma_release_frames_append(a: Seq<BridgeStatRecord>, b: Seq<BridgeStatRecord>)
    ensures
        release_frames(a + b) =~= release_frames(a).add(release_frames(b)),
    decreases b.len(),
{
    if b.len() > 0 {
        assert((a + b).drop_last() =~= a + b.drop_last());
        assert((a + b).last() == b.last());
        lemma_release_frames_append(a, b.drop_last());
    } else {
        assert(a + b =~= a);
    }
}

/// Release records that carry `fs`, one for one, hold exactly the frames of `fs`.
pub proof fn lemma_release_frames_of(s: Seq<BridgeStatRecord>, fs: Seq<Frame>)
    requires
        s.len() == fs.len(),
        forall|i: int|
            0 <= i < s.len() ==> is_release(#[trigger] s[i]) && record_frame(s[i]) == fs[i],
    ensures
        release_frames(s) =~= fs.to_multiset(),
    decreases s.len(),
{
    if s.len() > 0 {
        lemma_release_frames_of(s.drop_last(), fs.drop_last());
        assert(fs.drop_last().push(fs.last()) =~= fs);
        assert(s[s.len() - 1] == s.last());
    } else {
        assert(fs =~= Seq::<Frame>::empty());
    }
}

proof fn lemma_activity_prefix(recs: Seq<BridgeStatRecord>, times: Seq<u64>, n: nat)
    requires
        n <= recs.len(),
    ensures
        tag_times(recs, times, Tag::Dispatch, n).len() + tag_times(recs, times, Tag::Discard, n).len()
            == release_count(recs.take(n as int)),
    decreases n,
{
    if n > 0 {
        lemma_activity_prefix(recs, times, (n - 1) as nat);
        assert(recs.take(n as int).drop_last() =~= recs.take(n - 1));
        assert(recs.take(n as int).last() == recs[n - 1]);
    }
}

/// The dispatch and discard activity lists hold one time for each release record.
pub proof fn lemma_activity_counts(recs: Seq<BridgeStatRecord>, times: Seq<u64>)
    ensures
        tag_times(recs, times, Tag::Dispatch, recs.len()).len() + tag_times(
            recs,
            times,
            Tag::Discard,
            recs.len(),
        ).len() == release_count(recs),
{
    lemma_activity_prefix(recs, times, recs.len());
    assert(recs.take(recs.len() as int) =~= recs);
}

/// Timestamps that never decrease.
pub open spec fn non_decreasing(times: Seq<u64>) -> bool {
    forall|i: int, j: int| 0 <= i <= j < times.len() ==> times[i] <= times[j]
}

impl BridgeStatRecord {
    /// The frame this record concerns.
    pub fn frame(&self) -> (r: &Frame)
        ensures
            *r == record_frame(*self),
    {
        match self {
            BridgeStatRecord::Broadcast(frame) => frame,
            BridgeStatRecord::Dispatch(frame) => frame,
            BridgeStatRecord::Discard(frame) => frame,
        }
    }

    /// The kind of this record.
    pub fn tag(&self) -> (r: Tag)
        ensures
            tag_matches(*self, r),
    {
        match self {
            BridgeStatRecord::Broadcast(_) => Tag::Broadcast,
            BridgeStatRecord::Dispatch(_) => Tag::Dispatch,
            BridgeStatRecord::Discard(_) => Tag::Discard,
        }
    }
}

/// The bridge's outcome log: one record per transition, with its time in microseconds since
/// the bridge started.
pub struct BridgeStat {
    pub records: Vec<BridgeStatRecord>,
    pub times: Vec<u64>,
}

/// Later of `now` and the last recorded time, so that recorded times never go back.
fn next_stamp(times: &Vec<u64>, now: u64) -> (r: u64)
    ensures
        r == (if times@.len() > 0 && times@.last() > now { times@.last() } else { now }),
{
    if times.len() > 0 && times[times.len() - 1] > now {
        times[times.len() - 1]
    } else {
        now
    }
}

/// The stamp that the log gives to an event observed at `now`.
pub open spec fn stamp_of(times: Seq<u64>, now: u64) -> u64 {
    if times.len() > 0 && times.last() > now {
        times.last()
    } else {
        now
    }
}

impl BridgeStat {
    pub open spec fn wf(&self) -> bool {
        &&& self.records@.len() == self.times@.len()
        &&& non_decreasing(self.times@)
    }

    pub fn new() -> (r: BridgeStat)
        ensures
            r.wf(),
            r.records@.len() == 0,
    {
        BridgeStat { records: Vec::new(), times: Vec::new() }
    }

    fn push(&mut self, rec: BridgeStatRecord, now: u64)
        requires
            old(self).wf(),
        ensures
            final(self).wf(),
            final(self).records@ == old(self).records@.push(rec),
            final(self).times@ == old(self).times@.push(stamp_of(old(self).times@, now)),
    {
        let t = next_stamp(&self.times, now);
        self.records.push(rec);
        self.times.push(t);
    }

    /// Records that `frame` was broadcast for at time `now`.
    pub fn broadcast(&mut self, frame: Frame, now: u64)
        requires
            old(self).wf(),
        ensures
            final(self).wf(),
            final(self).records@ == old(self).records@.push(BridgeStatRecord::Broadcast(frame)),
            final(self).times@ == old(self).times@.push(stamp_of(old(self).times@, now)),
    {
        self.push(BridgeStatRecord::Broadcast(frame), now);
    }

    /// Records that `frame` was dispatched at time `now`.
    pub fn dispatch(&mut self, frame: Frame, now: u64)
        requires
            old(self).wf(),
        ensures
            final(self).wf(),
            final(self).records@ == old(self).records@.push(BridgeStatRecord::Dispatch(frame)),
            final(self).times@ == old(self).times@.push(stamp_of(old(self).times@, now)),
    {
        self.push(BridgeStatRecord::Dispatch(frame), now);
    }

    /// Records that `frame` was discarded at time `now`.
    pub fn discard(&mut self, frame: Frame, now: u64)
        requires
            old(self).wf(),
        ensures
            final(self).wf(),
            final(self).records@ == old(self).records@.push(BridgeStatRecord::Discard(frame)),
            final(self).times@ == old(self).times@.push(stamp_of(old(self).times@, now)),
    {
        self.push(BridgeStatRecord::Discard(frame), now);
    }

    pub fn len(&self) -> (r: usize)
        ensures
            r == self.records@.len(),
    {
        self.records.len()
    }

    /// Times of the records of one kind, in recording order.
    pub fn activity(&self, tag: Tag) -> (r: Vec<u64>)
        requires
            self.wf(),
        ensures
            r@ == tag_times(self.records@, self.times@, tag, self.records@.len() as nat),
    {
        let mut r: Vec<u64> = Vec::new();
        let mut i: usize = 0;
        while i < self.records.len()
            invariant
                self.wf(),
                i <= self.records@.len(),
                r@ == tag_times(self.records@, self.times@, tag, i as nat),
            decreases self.records@.len() - i,
        {
            let t = self.records[i].tag();
            if t == tag {
                r.push(self.times[i]);
            }
            i = i + 1;
        }
        r
    }

    /// Times of broadcasts, dispatches and discards, each list in recording order.
    pub fn activity_scatter(&self) -> (r: (Vec<u64>, Vec<u64>, Vec<u64>))
        requires
            self.wf(),
        ensures
            r.0@ == tag_times(self.records@, self.times@, Tag::Broadcast, self.records@.len() as nat),
            r.1@ == tag_times(self.records@, self.times@, Tag::Dispatch, self.records@.len() as nat),
            r.2@ == tag_times(self.records@, self.times@, Tag::Discard, self.records@.len() as nat),
    {
        (self.activity(Tag::Broadcast), self.activity(Tag::Dispatch), self.activity(Tag::Discard))
    }

    /// Index of the first release at or after `from` that carries a frame equal to `f`.
    fn find_release(&self, f: &Frame, from: usize) -> (r: Option<usize>)
        requires
            self.wf(),
        ensures
            match first_release_from(self.records@, *f, from as int) {
                Some(j) => r == Some(j as usize),
                None => r is None,
            },
        decreases self.records@.len() - from,
    {
        if from >= self.records.len() {
            return None;
        }
        let rec = &self.records[from];
        let hit = match rec {
            BridgeStatRecord::Broadcast(_) => false,
            BridgeStatRecord::Dispatch(g) => g.same(f),
            BridgeStatRecord::Discard(g) => g.same(f),
        };
        if hit {
            Some(from)
        } else {
            self.find_release(f, from + 1)
        }
    }

    /// For each broadcast, its time and the time until the first later dispatch or discard of
    /// an equal frame; broadcasts with no such release are left out.
    pub fn latency_scatter(&self) -> (r: Vec<(u64, u64)>)
        requires
            self.wf(),
        ensures
            r@ == latency_pairs(self.records@, self.times@, self.records@.len() as nat),
    {
        let mut r: Vec<(u64, u64)> = Vec::new();
        let mut i: usize = 0;
        while i < self.records.len()
            invariant
                self.wf(),
                i <= self.records@.len(),
                r@ == latency_pairs(self.records@, self.times@, i as nat),
            decreases self.records@.len() - i,
        {
            if let BridgeStatRecord::Broadcast(f) = &self.records[i] {
                match self.find_release(f, i + 1) {
                    Some(j) => {
                        proof {
                            lemma_first_release_after(self.records@, *f, i + 1);
                        }
                        r.push((self.times[i], self.times[j] - self.times[i]));
                    },
                    None => {},
                }
            }
            i = i + 1;
        }
        r
    }
}

proof fn lemma_first_release_after(recs: Seq<BridgeStatRecord>, f: Frame, j: int)
    ensures
        match first_release_from(recs, f, j) {
            Some(k) => j <= k < recs.len(),
            None => true,
        },
    decreases recs.len() - j,
{
    if 0 <= j < recs.len() {
        lemma_first_release_after(recs, f, j + 1);
    }
}

/// The bridge's queue-depth log: how many destinations had frames held, and when.
pub struct BridgePendingStat {
    pub records: Vec<usize>,
    pub times: Vec<u64>,
}

impl BridgePendingStat {
    pub open spec fn wf(&self) -> bool {
        &&& self.records@.len() == self.times@.len()
        &&& non_decreasing(self.times@)
    }

    pub fn new() -> (r: BridgePendingStat)
        ensures
            r.wf(),
            r.records@.len() == 0,
    {
        BridgePendingStat { records: Vec::new(), times: Vec::new() }
    }

    /// Records a depth of `count` at time `now`.
    pub fn rec(&mut self, count: usize, now: u64)
        requires
            old(self).wf(),
        ensures
            final(self).wf(),
            final(self).records@ == old(self).records@.push(count),
            final(self).times@ == old(self).times@.push(stamp_of(old(self).times@, now)),
    {
        let t = next_stamp(&self.times, now);
        self.records.push(count);
        self.times.push(t);
    }

    pub fn len(&self) -> (r: usize)
        ensures
            r == self.records@.len(),
    {
        self.records.len()
    }

    /// `(time, depth)` for each sample, in recording order.
    pub fn congestion_scatter(&self) -> (r: Vec<(u64, usize)>)
        requires
            self.wf(),
        ensures
            r@.len() == self.records@.len(),
            forall|i: int| 0 <= i < r@.len() ==> r@[i] == (self.times@[i], self.records@[i]),
    {
        let mut r: Vec<(u64, usize)> = Vec::new();
        let mut i: usize = 0;
        while i < self.records.len()
            invariant
                self.wf(),
                i <= self.records@.len(),
                r@.len() == i,
                forall|k: int| 0 <= k < i ==> r@[k] == (self.times@[k], self.records@[k]),
            decreases self.records@.len() - i,
        {
            r.push((self.times[i], self.records[i]));
            i = i + 1;
        }
        r
    }
}

} // verus!
