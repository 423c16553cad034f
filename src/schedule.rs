use vstd::prelude::*;

use crate::bridge::Event;
use crate::types::Frame;

verus! {

/// Cumulative position `i` of the schedule: the raw position from the intensity curve, kept
/// between the previous position and `len`.
pub open spec fn boundary(raw: Seq<usize>, len: nat, i: int) -> int
    decreases i,
{
    let prev = if i <= 0 {
        0
    } else {
        boundary(raw, len, i - 1)
    };
    if i < 0 {
        0
    } else if raw[i] < prev {
        prev
    } else if raw[i] > len {
        len as int
    } else {
        raw[i] as int
    }
}

/// Where bucket `i` starts in the frame sequence.
pub open spec fn bucket_start(raw: Seq<usize>, len: nat, i: int) -> int {
    if i <= 0 {
        0
    } else {
        boundary(raw, len, i - 1)
    }
}

/// Where bucket `i` ends: its boundary, or for the last bucket the end of the sequence.
pub open spec fn bucket_end(raw: Seq<usize>, len: nat, i: int) -> int {
    if i == raw.len() - 1 {
        len as int
    } else {
        boundary(raw, len, i)
    }
}

/// Sum of the sizes of the first `m` buckets.
pub open spec fn sizes_sum(raw: Seq<usize>, len: nat, m: int) -> int
    decreases m,
{
    if m <= 0 {
        0
    } else {
        sizes_sum(raw, len, m - 1) + bucket_end(raw, len, m - 1) - bucket_start(raw, len, m - 1)
    }
}

/// The frames of a sequence of buckets, bucket after bucket.
pub open spec fn flatten(bs: Seq<Seq<Frame>>) -> Seq<Frame>
    decreases bs.len(),
{
    if bs.len() == 0 {
        Seq::empty()
    } else {
        flatten(bs.drop_last()) + bs.last()
    }
}

/// The buckets as sequences.
pub open spec fn buckets_view(bs: Seq<Vec<Frame>>) -> Seq<Seq<Frame>> {
    bs.map_values(|v: Vec<Frame>| v@)
}

proof fn lemma_boundary_bounds(raw: Seq<usize>, len: nat, i: int)
    requires
        0 <= i < raw.len(),
    ensures
        0 <= bucket_start(raw, len, i) <= boundary(raw, len, i) <= len,
    decreases i,
{
    if i > 0 {
        lemma_boundary_bounds(raw, len, i - 1);
    }
}

proof fn lemma_sizes_sum(raw: Seq<usize>, len: nat, m: int)
    requires
        0 < m <= raw.len(),
    ensures
        sizes_sum(raw, len, m) == bucket_end(raw, len, m - 1),
    decreases m,
{
    if m > 1 {
        lemma_sizes_sum(raw, len, m - 1);
        assert(bucket_start(raw, len, m - 1) == boundary(raw, len, m - 2));
        assert(bucket_end(raw, len, m - 2) == boundary(raw, len, m - 2));
    }
    assert(sizes_sum(raw, len, m) == sizes_sum(raw, len, m - 1) + bucket_end(raw, len, m - 1)
        - bucket_start(raw, len, m - 1));
}

/// The boundaries of the schedule never decrease and stay within `[0, len]`, consecutive
/// buckets meet, and the bucket sizes add up to `len` exactly.
pub proof fn lemma_schedule_partition(raw: Seq<usize>, len: nat)
    requires
        raw.len() > 0,
    ensures
        forall|i: int, j: int|
            0 <= i <= j < raw.len() ==> 0 <= #[trigger] boundary(raw, len, i) <= #[trigger] boundary(
                raw,
                len,
                j,
            ) <= len,
        forall|i: int|
            0 <= i < raw.len() ==> bucket_start(raw, len, i) <= bucket_end(raw, len, i),
        forall|i: int|
            0 < i < raw.len() ==> bucket_start(raw, len, i) == bucket_end(raw, len, i - 1),
        bucket_start(raw, len, 0) == 0,
        bucket_end(raw, len, raw.len() - 1) == len,
        sizes_sum(raw, len, raw.len() as int) == len,
{
    assert forall|i: int, j: int|
        0 <= i <= j < raw.len() implies 0 <= #[trigger] boundary(raw, len, i) <= #[trigger] boundary(
            raw,
            len,
            j,
        ) <= len by {
        lemma_monotone(raw, len, i, j);
    }
    assert forall|i: int| 0 <= i < raw.len() implies bucket_start(raw, len, i) <= bucket_end(
        raw,
        len,
        i,
    ) by {
        lemma_boundary_bounds(raw, len, i);
    }
    lemma_sizes_sum(raw, len, raw.len() as int);
}

proof fn lemma_monotone(raw: Seq<usize>, len: nat, i: int, j: int)
    requires
        0 <= i <= j < raw.len(),
    ensures
        0 <= boundary(raw, len, i) <= boundary(raw, len, j) <= len,
    decreases j - i,
{
    lemma_boundary_bounds(raw, len, j);
    lemma_boundary_bounds(raw, len, i);
    if i < j {
        lemma_monotone(raw, len, i, j - 1);
    }
}

/// A copy of `v[from..to]`.
fn copy_range(v: &Vec<Frame>, from: usize, to: usize) -> (r: Vec<Frame>)
    requires
        from <= to <= v@.len(),
    ensures
        r@ == v@.subrange(from as int, to as int),
{
    let mut r: Vec<Frame> = Vec::new();
    let mut i: usize = from;
    while i < to
        invariant
            from <= i <= to,
            to <= v@.len(),
            r@ == v@.subrange(from as int, i as int),
        decreases to - i,
    {
        r.push(v[i]);
        assert(v@.subrange(from as int, i + 1) =~= v@.subrange(from as int, i as int).push(
            v@[i as int],
        ));
        i = i + 1;
    }
    r
}

/// Splits `frame_seq` into one bucket per entry of `raw`, where `raw[i]` is the cumulative
/// number of frames due by the end of bucket `i` as the intensity curve gives it. Each bucket
/// takes the frames from the previous cumulative position to its own; positions are kept
/// non-decreasing and within the sequence, and the last bucket also takes whatever remains.
pub fn distribute(frame_seq: Vec<Frame>, raw: Vec<usize>) -> (r: Vec<Vec<Frame>>)
    requires
        raw@.len() > 0,
    ensures
        r@.len() == raw@.len(),
        forall|i: int|
            0 <= i < r@.len() ==> r@[i]@ == frame_seq@.subrange(
                bucket_start(raw@, frame_seq@.len(), i),
                bucket_end(raw@, frame_seq@.len(), i),
            ),
        flatten(buckets_view(r@)) == frame_seq@,
{
    let len = frame_seq.len();
    let ghost n = frame_seq@.len();
    let mut buckets: Vec<Vec<Frame>> = Vec::new();
    let mut last_pos: usize = 0;
    let mut i: usize = 0;
    while i < raw.len()
        invariant
            i <= raw@.len(),
            len == n,
            n == frame_seq@.len(),
            buckets@.len() == i,
            i < raw@.len() ==> last_pos == bucket_start(raw@, n, i as int),
            last_pos <= len,
            forall|k: int|
                0 <= k < i ==> buckets@[k]@ == frame_seq@.subrange(
                    bucket_start(raw@, n, k),
                    bucket_end(raw@, n, k),
                ),
            flatten(buckets_view(buckets@)) == frame_seq@.subrange(0, last_pos as int),
            i == raw@.len() ==> last_pos == len,
        decreases raw@.len() - i,
    {
        proof {
            lemma_boundary_bounds(raw@, n, i as int);
        }
        let bound = if raw[i] < last_pos {
            last_pos
        } else if raw[i] > len {
            len
        } else {
            raw[i]
        };
        let end = if i == raw.len() - 1 {
            len
        } else {
            bound
        };
        assert(bound == boundary(raw@, n, i as int));
        assert(last_pos <= end <= len);
        let bucket = copy_range(&frame_seq, last_pos, end);
        let ghost before = buckets@;
        buckets.push(bucket);
        proof {
            assert(buckets_view(buckets@).drop_last() =~= buckets_view(before));
            assert(frame_seq@.subrange(0, end as int) =~= frame_seq@.subrange(0, last_pos as int)
                + frame_seq@.subrange(last_pos as int, end as int));
        }
        last_pos = end;
        i = i + 1;
    }
    assert(frame_seq@.subrange(0, len as int) =~= frame_seq@);
    buckets
}

/// Where the schedule stands after a poll at `elapsed_ms` milliseconds, with buckets before
/// `last` already sent, out of `n` buckets: the buckets before the returned position are
/// due, and `true` says the schedule is over (the clock has passed its end).
pub fn schedule_step(last: usize, elapsed_ms: u64, n: usize) -> (r: (usize, bool))
    requires
        last <= n,
    ensures
        elapsed_ms >= n ==> r == (n, true),
        elapsed_ms < n && elapsed_ms > last ==> r == (elapsed_ms as usize, false),
        elapsed_ms < n && elapsed_ms <= last ==> r == (last, false),
        last <= r.0 <= n,
{
    if elapsed_ms >= n as u64 {
        (n, true)
    } else if elapsed_ms > last as u64 {
        (elapsed_ms as usize, false)
    } else {
        (last, false)
    }
}

/// One `Request` per frame of buckets `from` up to `to`, bucket after bucket, the frames of
/// each bucket in the order it holds them.
pub fn due_requests(buckets: &Vec<Vec<Frame>>, from: usize, to: usize) -> (r: Vec<Event>)
    requires
        from <= to <= buckets@.len(),
    ensures
        r@ == flatten(buckets_view(buckets@).subrange(from as int, to as int)).map_values(
            |f: Frame| Event::Request(f),
        ),
{
    let mut r: Vec<Event> = Vec::new();
    let mut b: usize = from;
    while b < to
        invariant
            from <= b <= to <= buckets@.len(),
            r@ == flatten(buckets_view(buckets@).subrange(from as int, b as int)).map_values(
                |f: Frame| Event::Request(f),
            ),
        decreases to - b,
    {
        let bucket = &buckets[b];
        let ghost r0 = r@;
        let mut j: usize = 0;
        while j < bucket.len()
            invariant
                j <= bucket@.len(),
                r@ == r0 + bucket@.take(j as int).map_values(|f: Frame| Event::Request(f)),
            decreases bucket@.len() - j,
        {
            r.push(Event::Request(bucket[j]));
            assert(bucket@.take(j + 1) =~= bucket@.take(j as int).push(bucket@[j as int]));
            assert(r@ =~= r0 + bucket@.take(j + 1).map_values(|f: Frame| Event::Request(f)));
            j = j + 1;
        }
        proof {
            let s = buckets_view(buckets@);
            assert(s.subrange(from as int, b + 1).drop_last() =~= s.subrange(from as int, b as int));
            assert(bucket@.take(j as int) =~= bucket@);
            assert(flatten(s.subrange(from as int, b + 1)) == flatten(s.subrange(from as int, b as int))
                + bucket@);
            assert(r@ =~= flatten(s.subrange(from as int, b + 1)).map_values(
                |f: Frame| Event::Request(f),
            ));
        }
        b = b + 1;
    }
    r
}

} // verus!
