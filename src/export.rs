use vstd::prelude::*;
use vstd::string::StringExecFns;

use crate::stat::{BridgePendingStat, BridgeStat, Tag, tag_times, latency_pairs};
use crate::text::hex_char;

verus! {

/// The decimal digits of `n`, most significant first, without leading zeros.
pub open spec fn decimal(n: nat) -> Seq<char>
    decreases n,
{
    if n < 10 {
        seq![hex_char(n as u8)]
    } else {
        decimal(n / 10).push(hex_char((n % 10) as u8))
    }
}

/// Numbers in decimal, separated by single spaces.
pub open spec fn spaced(v: Seq<u64>) -> Seq<char>
    decreases v.len(),
{
    if v.len() == 0 {
        Seq::empty()
    } else if v.len() == 1 {
        decimal(v[0] as nat)
    } else {
        spaced(v.drop_last()) + seq![' '] + decimal(v.last() as nat)
    }
}

/// Pairs of numbers in decimal, one pair per line, the two separated by a space.
pub open spec fn lines(v: Seq<(u64, u64)>) -> Seq<char>
    decreases v.len(),
{
    if v.len() == 0 {
        Seq::empty()
    } else {
        let line = decimal(v.last().0 as nat) + seq![' '] + decimal(v.last().1 as nat);
        if v.len() == 1 {
            line
        } else {
            lines(v.drop_last()) + seq!['\n'] + line
        }
    }
}

/// The single digit `d < 10` as a string.
fn digit_str(d: u64) -> (r: &'static str)
    requires
        d < 10,
    ensures
        r@ == seq![hex_char(d as u8)],
{
    proof {
        reveal_strlit("0");
        reveal_strlit("1");
        reveal_strlit("2");
        reveal_strlit("3");
        reveal_strlit("4");
        reveal_strlit("5");
        reveal_strlit("6");
        reveal_strlit("7");
        reveal_strlit("8");
        reveal_strlit("9");
    }
    match d {
        0 => "0",
        1 => "1",
        2 => "2",
        3 => "3",
        4 => "4",
        5 => "5",
        6 => "6",
        7 => "7",
        8 => "8",
        _ => "9",
    }
}

fn push_decimal(s: &mut String, n: u64)
    ensures
        final(s)@ == old(s)@ + decimal(n as nat),
    decreases n,
{
    if n >= 10 {
        push_decimal(s, n / 10);
    }
    s.append(digit_str(n % 10));
    assert(final(s)@ =~= old(s)@ + decimal(n as nat));
}

/// `v` in decimal, separated by single spaces.
pub fn spaced_text(v: &Vec<u64>) -> (r: String)
    ensures
        r@ == spaced(v@),
{
    proof {
        reveal_strlit(" ");
    }
    let mut s = String::new();
    let mut i: usize = 0;
    while i < v.len()
        invariant
            i <= v@.len(),
            s@ == spaced(v@.take(i as int)),
        decreases v@.len() - i,
    {
        proof {
            reveal_strlit(" ");
            reveal_strlit("\n");
        }
        let ghost prev = s@;
        let ghost t = v@.take(i + 1);
        assert(t.drop_last() =~= v@.take(i as int));
        assert(t.last() == v@[i as int]);
        if i > 0 {
            s.append(" ");
        }
        push_decimal(&mut s, v[i]);
        proof {
            if i == 0 {
                assert(prev =~= Seq::<char>::empty());
                assert(spaced(t) == decimal(v@[0] as nat));
            } else {
                assert(spaced(t) == spaced(t.drop_last()) + seq![' '] + decimal(t.last() as nat));
            }
        }
        assert(s@ =~= spaced(v@.take(i + 1)));
        i = i + 1;
    }
    assert(v@.take(i as int) =~= v@);
    s
}

/// `v` as lines of two decimal numbers separated by a space.
pub fn lines_text(v: &Vec<(u64, u64)>) -> (r: String)
    ensures
        r@ == lines(v@),
{
    proof {
        reveal_strlit(" ");
        reveal_strlit("\n");
    }
    let mut s = String::new();
    let mut i: usize = 0;
    while i < v.len()
        invariant
            i <= v@.len(),
            s@ == lines(v@.take(i as int)),
        decreases v@.len() - i,
    {
        proof {
            reveal_strlit(" ");
            reveal_strlit("\n");
        }
        let ghost prev = s@;
        let ghost t = v@.take(i + 1);
        assert(t.drop_last() =~= v@.take(i as int));
        assert(t.last() == v@[i as int]);
        if i > 0 {
            s.append("\n");
        }
        let (a, b) = v[i];
        push_decimal(&mut s, a);
        s.append(" ");
        push_decimal(&mut s, b);
        proof {
            let line = decimal(a as nat) + seq![' '] + decimal(b as nat);
            if i == 0 {
                assert(prev =~= Seq::<char>::empty());
                assert(lines(t) == line);
            } else {
                assert(lines(t) == lines(t.drop_last()) + seq!['\n'] + line);
            }
        }
        assert(s@ =~= lines(v@.take(i + 1)));
        i = i + 1;
    }
    assert(v@.take(i as int) =~= v@);
    s
}

impl BridgeStat {
    /// The activity file for one kind of record: its times, separated by spaces.
    pub fn activity_text(&self, tag: Tag) -> (r: String)
        requires
            self.wf(),
        ensures
            r@ == spaced(tag_times(self.records@, self.times@, tag, self.records@.len() as nat)),
    {
        spaced_text(&self.activity(tag))
    }

    /// The latency file: one `time latency` line per matched broadcast.
    pub fn latency_text(&self) -> (r: String)
        requires
            self.wf(),
        ensures
            r@ == lines(latency_pairs(self.records@, self.times@, self.records@.len() as nat)),
    {
        lines_text(&self.latency_scatter())
    }
}

impl BridgePendingStat {
    /// The congestion file: one `time depth` line per sample.
    pub fn congestion_text(&self) -> (r: String)
        requires
            self.wf(),
        ensures
            r@ == lines(
                Seq::new(self.records@.len(), |i: int| (self.times@[i], self.records@[i] as u64)),
            ),
    {
        let samples = self.congestion_scatter();
        let mut v: Vec<(u64, u64)> = Vec::new();
        let mut i: usize = 0;
        while i < samples.len()
            invariant
                i <= samples@.len(),
                samples@.len() == self.records@.len(),
                forall|k: int| 0 <= k < samples@.len() ==> samples@[k] == (self.times@[k], self.records@[k]),
                v@ == Seq::new(i as nat, |k: int| (self.times@[k], self.records@[k] as u64)),
            decreases samples@.len() - i,
        {
            let (t, d) = samples[i];
            v.push((t, d as u64));
            assert(v@ =~= Seq::new((i + 1) as nat, |k: int| (self.times@[k], self.records@[k] as u64)));
            i = i + 1;
        }
        lines_text(&v)
    }
}

} // verus!
