use vstd::prelude::*;

verus! {

/// Fixed-width occupancy bit vector over the grid's cells.
/// Bit index `z*16 + y*4 + x` stands for cell (x, y, z) of the 4x4x4 grid;
/// a value represents either one piece placement's footprint or the board's
/// total set of filled cells.
#[derive(Clone, Copy, Debug, PartialEq, Eq, Structural)]
pub struct Bitset {
    pub bits: u64,
}

impl Bitset {
    /// The all-zero mask: no cell occupied.
    pub fn empty() -> (r: Bitset)
        ensures
            r.bits == 0u64,
    {
        Bitset { bits: 0 }
    }

    /// The all-one mask: every cell of the word occupied.
    pub fn full() -> (r: Bitset)
        ensures
            r.bits == !0u64,
    {
        Bitset { bits: !0u64 }
    }

    /// Bitwise intersection; a nonzero result signals overlapping footprints.
    pub fn and(&self, other: &Bitset) -> (r: Bitset)
        ensures
            r.bits == (self.bits & other.bits),
    {
        Bitset { bits: self.bits & other.bits }
    }

    /// Bitwise union of two cell sets.
    pub fn or(&self, other: &Bitset) -> (r: Bitset)
        ensures
            r.bits == (self.bits | other.bits),
    {
        Bitset { bits: self.bits | other.bits }
    }

    /// Bitwise symmetric difference; used to undo a union of disjoint masks.
    pub fn xor(&self, other: &Bitset) -> (r: Bitset)
        ensures
            r.bits == (self.bits ^ other.bits),
    {
        Bitset { bits: self.bits ^ other.bits }
    }

    /// Bitwise complement.
    pub fn not(&self) -> (r: Bitset)
        ensures
            r.bits == !self.bits,
    {
        Bitset { bits: !self.bits }
    }

    /// Marks one cell as occupied.
    pub fn set(&mut self, index: usize)
        requires
            index < 64,
        ensures
            final(self).bits == (old(self).bits | (1u64 << index)),
    {
        self.bits = self.bits | (1u64 << index);
    }

    /// Reads one cell's occupancy.
    pub fn get(&self, index: usize) -> (r: bool)
        requires
            index < 64,
        ensures
            r == ((self.bits & (1u64 << index)) != 0),
    {
        self.bits & (1u64 << index) != 0
    }
}

impl From<u64> for Bitset {
    /// Constructs the mask from a raw machine word.
    fn from(bits: u64) -> (r: Bitset) {
        Bitset { bits }
    }
}

impl vstd::std_specs::convert::FromSpecImpl<u64> for Bitset {
    open spec fn obeys_from_spec() -> bool {
        true
    }

    open spec fn from_spec(bits: u64) -> Bitset {
        Bitset { bits }
    }
}

} // verus!
