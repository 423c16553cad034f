use vstd::prelude::*;

verus! {

/// An endpoint address: four raw bytes.
#[derive(Clone, Copy, Debug, Hash, PartialOrd, Ord)]
pub struct Address {
    pub data: [u8; 4],
}

/// A segment identifier: two raw bytes.
#[derive(Clone, Copy, Debug, Hash, PartialOrd, Ord)]
pub struct Segment {
    pub data: [u8; 2],
}

/// A unit of traffic from `src` to `dst` with a fixed sixteen-byte payload.
#[derive(Clone, Copy, Debug, Hash)]
pub struct Frame {
    pub src: Address,
    pub dst: Address,
    pub data: [u8; 16],
}

/// The integer that orders and indexes addresses: the four bytes read big-endian.
pub open spec fn addr_key(a: Address) -> u32 {
    (a.data[0] as u32 * 16777216u32 + a.data[1] as u32 * 65536u32 + a.data[2] as u32 * 256u32
        + a.data[3] as u32) as u32
}

/// Structural equality of frames: source, destination and payload alike.
pub open spec fn same_frame(a: Frame, b: Frame) -> bool {
    &&& a.src.data@ == b.src.data@
    &&& a.dst.data@ == b.dst.data@
    &&& a.data@ == b.data@
}

impl Address {
    /// The address's bytes read as a big-endian integer.
    pub fn key(&self) -> (r: u32)
        ensures
            r == addr_key(*self),
    {
        self.data[0] as u32 * 16777216u32 + self.data[1] as u32 * 65536u32 + self.data[2] as u32
            * 256u32 + self.data[3] as u32
    }
}

impl PartialEq for Address {
    fn eq(&self, other: &Address) -> (r: bool) {
        let r = self.data[0] == other.data[0] && self.data[1] == other.data[1] && self.data[2]
            == other.data[2] && self.data[3] == other.data[3];
        proof {
            if r {
                assert(self.data@ =~= other.data@);
            }
        }
        r
    }
}

impl vstd::std_specs::cmp::PartialEqSpecImpl for Address {
    open spec fn obeys_eq_spec() -> bool {
        true
    }

    open spec fn eq_spec(&self, other: &Address) -> bool {
        self.data@ == other.data@
    }
}

impl Eq for Address {

}

impl PartialEq for Segment {
    fn eq(&self, other: &Segment) -> (r: bool) {
        let r = self.data[0] == other.data[0] && self.data[1] == other.data[1];
        proof {
            if r {
                assert(self.data@ =~= other.data@);
            }
        }
        r
    }
}

impl vstd::std_specs::cmp::PartialEqSpecImpl for Segment {
    open spec fn obeys_eq_spec() -> bool {
        true
    }

    open spec fn eq_spec(&self, other: &Segment) -> bool {
        self.data@ == other.data@
    }
}

impl Eq for Segment {

}

impl Frame {
    /// Whether two frames agree in source, destination and payload.
    pub fn same(&self, other: &Frame) -> (r: bool)
        ensures
            r == same_frame(*self, *other),
    {
        if !(self.src == other.src) || !(self.dst == other.dst) {
            return false;
        }
        let mut i: usize = 0;
        while i < 16
            invariant
                i <= 16,
                forall|j: int| 0 <= j < i ==> self.data@[j] == other.data@[j],
            decreases 16 - i,
        {
            if self.data[i] != other.data[i] {
                return false;
            }
            i = i + 1;
        }
        assert(self.data@ =~= other.data@);
        true
    }
}

impl PartialEq for Frame {
    fn eq(&self, other: &Frame) -> (r: bool) {
        self.same(other)
    }
}

impl vstd::std_specs::cmp::PartialEqSpecImpl for Frame {
    open spec fn obeys_eq_spec() -> bool {
        true
    }

    open spec fn eq_spec(&self, other: &Frame) -> bool {
        same_frame(*self, *other)
    }
}

impl Eq for Frame {

}

} // verus!
