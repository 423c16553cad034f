use std::collections::BTreeMap;
use vstd::multiset::Multiset;
use vstd::prelude::*;

use crate::types::{Address, Frame, addr_key};

verus! {

broadcast use vstd::seq_lib::group_to_multiset_ensures, vstd::multiset::group_multiset_axioms;

/// Total number of frames held under the listed keys.
pub open spec fn sum_lens(keys: Seq<u32>, m: Map<u32, Seq<Frame>>) -> nat
    decreases keys.len(),
{
    if keys.len() == 0 {
        0
    } else {
        sum_lens(keys.drop_last(), m) + m[keys.last()].len()
    }
}

/// All frames held under the listed keys.
pub open spec fn sum_frames(keys: Seq<u32>, m: Map<u32, Seq<Frame>>) -> Multiset<Frame>
    decreases keys.len(),
{
    if keys.len() == 0 {
        Multiset::empty()
    } else {
        sum_frames(keys.drop_last(), m).add(m[keys.last()].to_multiset())
    }
}

/// The sequence held under `k`, empty where nothing is held.
pub open spec fn held_under(m: Map<u32, Seq<Frame>>, k: u32) -> Seq<Frame> {
    if m.contains_key(k) {
        m[k]
    } else {
        Seq::empty()
    }
}

proof fn lemma_sum_congruent(keys: Seq<u32>, m1: Map<u32, Seq<Frame>>, m2: Map<u32, Seq<Frame>>)
    requires
        forall|i: int| 0 <= i < keys.len() ==> m1[keys[i]] == m2[keys[i]],
    ensures
        sum_lens(keys, m1) == sum_lens(keys, m2),
    decreases keys.len(),
{
    if keys.len() > 0 {
        lemma_sum_congruent(keys.drop_last(), m1, m2);
    }
}

proof fn lemma_frames_congruent(
    keys: Seq<u32>,
    m1: Map<u32, Seq<Frame>>,
    m2: Map<u32, Seq<Frame>>,
)
    requires
        forall|i: int| 0 <= i < keys.len() ==> m1[keys[i]] == m2[keys[i]],
    ensures
        sum_frames(keys, m1) == sum_frames(keys, m2),
    decreases keys.len(),
{
    if keys.len() > 0 {
        lemma_frames_congruent(keys.drop_last(), m1, m2);
    }
}

proof fn lemma_frames_replace(keys: Seq<u32>, m: Map<u32, Seq<Frame>>, k: u32, s: Seq<Frame>)
    requires
        keys.no_duplicates(),
        keys.contains(k),
    ensures
        sum_frames(keys, m.insert(k, s)).add(m[k].to_multiset()) =~= sum_frames(keys, m).add(
            s.to_multiset(),
        ),
    decreases keys.len(),
{
    let rest = keys.drop_last();
    if keys.last() == k {
        assert(!rest.contains(k)) by {
            if rest.contains(k) {
                let j = choose|j: int| 0 <= j < rest.len() && rest[j] == k;
                assert(keys[j] == keys[keys.len() - 1]);
            }
        }
        lemma_frames_congruent(rest, m, m.insert(k, s));
        assert(sum_frames(keys, m.insert(k, s)) == sum_frames(rest, m.insert(k, s)).add(
            s.to_multiset(),
        ));
        assert(sum_frames(keys, m) == sum_frames(rest, m).add(m[k].to_multiset()));
    } else {
        assert(rest.contains(k)) by {
            let j = choose|j: int| 0 <= j < keys.len() && keys[j] == k;
            assert(rest[j] == k);
        }
        lemma_frames_replace(rest, m, k, s);
        let m2 = m.insert(k, s);
        assert(m2[keys.last()] == m[keys.last()]);
        assert(sum_frames(keys, m2) == sum_frames(rest, m2).add(m[keys.last()].to_multiset()));
        assert(sum_frames(keys, m) == sum_frames(rest, m).add(m[keys.last()].to_multiset()));
        assert forall|x: Frame|
            #[trigger] sum_frames(keys, m2).add(m[k].to_multiset()).count(x) == sum_frames(
                keys,
                m,
            ).add(s.to_multiset()).count(x) by {
            assert(sum_frames(rest, m2).add(m[k].to_multiset()).count(x) == sum_frames(
                rest,
                m,
            ).add(s.to_multiset()).count(x));
        }
    }
}

proof fn lemma_frames_remove_at(keys: Seq<u32>, m: Map<u32, Seq<Frame>>, i: int)
    requires
        0 <= i < keys.len(),
    ensures
        sum_frames(keys.remove(i), m).add(m[keys[i]].to_multiset()) =~= sum_frames(keys, m),
    decreases keys.len(),
{
    if i == keys.len() - 1 {
        assert(keys.remove(i) =~= keys.drop_last());
    } else {
        lemma_frames_remove_at(keys.drop_last(), m, i);
        assert(keys.remove(i).drop_last() =~= keys.drop_last().remove(i));
    }
}

proof fn lemma_sum_replace(keys: Seq<u32>, m: Map<u32, Seq<Frame>>, k: u32, s: Seq<Frame>)
    requires
        keys.no_duplicates(),
        keys.contains(k),
    ensures
        sum_lens(keys, m.insert(k, s)) + m[k].len() == sum_lens(keys, m) + s.len(),
    decreases keys.len(),
{
    let rest = keys.drop_last();
    if keys.last() == k {
        assert(!rest.contains(k)) by {
            if rest.contains(k) {
                let j = choose|j: int| 0 <= j < rest.len() && rest[j] == k;
                assert(keys[j] == keys[keys.len() - 1]);
            }
        }
        lemma_sum_congruent(rest, m, m.insert(k, s));
    } else {
        assert(rest.contains(k)) by {
            let j = choose|j: int| 0 <= j < keys.len() && keys[j] == k;
            assert(rest[j] == k);
        }
        lemma_sum_replace(rest, m, k, s);
    }
}

proof fn lemma_sum_remove_at(keys: Seq<u32>, m: Map<u32, Seq<Frame>>, i: int)
    requires
        0 <= i < keys.len(),
    ensures
        sum_lens(keys.remove(i), m) + m[keys[i]].len() == sum_lens(keys, m),
    decreases keys.len(),
{
    if i == keys.len() - 1 {
        assert(keys.remove(i) =~= keys.drop_last());
    } else {
        lemma_sum_remove_at(keys.drop_last(), m, i);
        assert(keys.remove(i).drop_last() =~= keys.drop_last().remove(i));
    }
}

/// Frames awaiting resolution, grouped by destination address in arrival order.
pub struct Holder {
    map: BTreeMap<u32, Vec<Frame>>,
    keys: Ghost<Seq<u32>>,
}

impl Holder {
    /// What is held: destination key to the frames held for it, in arrival order.
    pub closed spec fn view(&self) -> Map<u32, Seq<Frame>> {
        self.map@.map_values(|v: Vec<Frame>| v@)
    }

    /// Every frame held, over all destinations.
    pub closed spec fn held_frames(&self) -> Multiset<Frame> {
        sum_frames(self.keys@, self.view())
    }

    /// Number of frames held over all destinations.
    pub closed spec fn held_count(&self) -> nat {
        sum_lens(self.keys@, self.view())
    }

    pub closed spec fn wf(&self) -> bool {
        &&& self.keys@.no_duplicates()
        &&& forall|k: u32| self.map@.contains_key(k) <==> self.keys@.contains(k)
        &&& forall|k: u32| #[trigger] self.map@.contains_key(k) ==> self.map@[k]@.len() > 0
    }

    pub fn new() -> (r: Holder)
        ensures
            r.wf(),
            r@ == Map::<u32, Seq<Frame>>::empty(),
            r.held_count() == 0,
            r.held_frames() == Multiset::<Frame>::empty(),
    {
        let r = Holder { map: BTreeMap::new(), keys: Ghost(Seq::empty()) };
        assert(r@ =~= Map::<u32, Seq<Frame>>::empty());
        r
    }

    /// Appends `frame` to the frames held for its destination.
    pub fn hold(&mut self, frame: Frame)
        requires
            old(self).wf(),
        ensures
            final(self).wf(),
            final(self)@ == old(self)@.insert(
                addr_key(frame.dst),
                held_under(old(self)@, addr_key(frame.dst)).push(frame),
            ),
            final(self).held_count() == old(self).held_count() + 1,
            final(self).held_frames() == old(self).held_frames().insert(frame),
    {
        let k = frame.dst.key();
        let ghost m0 = self@;
        let mut v = match self.map.remove(&k) {
            Some(v) => v,
            None => Vec::new(),
        };
        assert(v@ == held_under(m0, k));
        v.push(frame);
        self.map.insert(k, v);
        let ghost m1 = self@;
        assert(m1 =~= m0.insert(k, held_under(m0, k).push(frame)));
        proof {
            if m0.contains_key(k) {
                assert(old(self).keys@.contains(k));
                lemma_sum_replace(self.keys@, m0, k, m1[k]);
                lemma_frames_replace(self.keys@, m0, k, m1[k]);
                assert(m1[k].to_multiset() =~= m0[k].to_multiset().insert(frame));
                let a = sum_frames(self.keys@, m1);
                let b = sum_frames(self.keys@, m0);
                assert(a.add(m0[k].to_multiset()) =~= b.add(m1[k].to_multiset()));
                assert forall|x: Frame| #[trigger] a.count(x) == b.insert(frame).count(x) by {
                    assert(a.add(m0[k].to_multiset()).count(x) == b.add(m1[k].to_multiset()).count(
                        x,
                    ));
                }
                assert(a =~= b.insert(frame));
                assert(self.held_frames() =~= old(self).held_frames().insert(frame));
            } else {
                assert(!self.keys@.contains(k));
                lemma_sum_congruent(self.keys@, m0, m1);
                lemma_frames_congruent(self.keys@, m0, m1);
                assert(m1[k] =~= Seq::<Frame>::empty().push(frame));
                assert(m1[k].to_multiset() =~= Multiset::<Frame>::empty().insert(frame));
                let ks0 = self.keys@;
                self.keys@ = ks0.push(k);
                assert(self.keys@.drop_last() =~= ks0);
                assert forall|a: int, b: int|
                    0 <= a < b < self.keys@.len() implies self.keys@[a] != self.keys@[b] by {
                    if b == ks0.len() {
                        assert(ks0[a] == self.keys@[a]);
                        assert(ks0.contains(ks0[a]));
                    }
                }
                assert forall|x: u32| self.map@.contains_key(x) <==> self.keys@.contains(x) by {
                    if self.keys@.contains(x) && x != k {
                        let j = choose|j: int| 0 <= j < self.keys@.len() && self.keys@[j] == x;
                        assert(ks0[j] == x);
                    }
                    if ks0.contains(x) {
                        let j = choose|j: int| 0 <= j < ks0.len() && ks0[j] == x;
                        assert(self.keys@[j] == x);
                    }
                    if x == k {
                        assert(self.keys@[ks0.len() as int] == k);
                    }
                }
            }
        }
    }

    /// Takes out every frame held for `addr`, in arrival order.
    pub fn release(&mut self, addr: Address) -> (r: Vec<Frame>)
        requires
            old(self).wf(),
        ensures
            final(self).wf(),
            r@ == held_under(old(self)@, addr_key(addr)),
            final(self)@ == old(self)@.remove(addr_key(addr)),
            final(self).held_count() + r@.len() == old(self).held_count(),
            final(self).held_frames().add(r@.to_multiset()) == old(self).held_frames(),
    {
        let k = addr.key();
        let ghost m0 = self@;
        let r = match self.map.remove(&k) {
            Some(v) => v,
            None => Vec::new(),
        };
        let ghost m1 = self@;
        assert(m1 =~= m0.remove(k));
        proof {
            if m0.contains_key(k) {
                assert(self.keys@.contains(k));
                let i = choose|i: int| 0 <= i < self.keys@.len() && self.keys@[i] == k;
                lemma_sum_remove_at(self.keys@, m0, i);
                let ks = self.keys@.remove(i);
                assert forall|j: int| 0 <= j < ks.len() implies m0[ks[j]] == m1[ks[j]] by {
                    if j < i {
                        assert(ks[j] == old(self).keys@[j]);
                    } else {
                        assert(ks[j] == old(self).keys@[j + 1]);
                    }
                }
                lemma_sum_congruent(ks, m0, m1);
                lemma_frames_remove_at(self.keys@, m0, i);
                lemma_frames_congruent(ks, m0, m1);
                self.keys@ = ks;
                assert forall|x: u32| self.map@.contains_key(x) <==> self.keys@.contains(x) by {
                    if self.keys@.contains(x) {
                        let j = choose|j: int| 0 <= j < ks.len() && ks[j] == x;
                        assert(old(self).keys@.contains(x));
                    }
                    if old(self).keys@.contains(x) && x != k {
                        let j = choose|j: int| 0 <= j < old(self).keys@.len() && old(self).keys@[j] == x;
                        if j < i {
                            assert(ks[j] == x);
                        } else {
                            assert(ks[j - 1] == x);
                        }
                    }
                }
            } else {
                assert(m1 =~= m0);
                assert(r@.to_multiset() =~= Multiset::<Frame>::empty());
                assert(self.held_frames().add(r@.to_multiset()) =~= old(self).held_frames());
            }
        }
        r
    }

    /// With no destination waiting, no frame is held.
    pub proof fn lemma_empty(&self)
        requires
            self.wf(),
            self@.dom().len() == 0,
        ensures
            self.held_count() == 0,
            self.held_frames() == Multiset::<Frame>::empty(),
    {
        if self.keys@.len() > 0 {
            assert(self.keys@.contains(self.keys@[0]));
            assert(self@.dom().contains(self.keys@[0]));
            assert(self@.dom() =~= self.map@.dom());
            assert(self@.dom().finite());
            vstd::set::axiom_set_remove_len(self@.dom(), self.keys@[0]);
        }
    }

    /// Number of destinations that have frames held.
    pub fn len(&self) -> (r: usize)
        requires
            self.wf(),
        ensures
            r == self@.dom().len(),
    {
        assert(self@.dom() =~= self.map@.dom());
        self.map.len()
    }
}

} // verus!
