use vstd::prelude::*;

verus! {

/// An inclusive range of slots, as a caller specifies it.
#[derive(Clone, Copy, PartialEq, Eq, Structural, Debug)]
pub struct SlotRange {
    /// The starting slot of the range, inclusive.
    pub start_slot: u64,
    /// The ending slot of the range, inclusive.
    pub end_slot: u64,
}

impl SlotRange {
    /// The slot lies inside the range.
    pub open spec fn spec_contains(self, slot: u64) -> bool {
        self.start_slot <= slot <= self.end_slot
    }

    /// Whether the slot lies inside the range.
    pub fn contains(&self, slot: u64) -> (r: bool)
        ensures
            r == self.spec_contains(slot),
    {
        self.start_slot <= slot && slot <= self.end_slot
    }
}

} // verus!
