use vstd::prelude::*;
use crate::bitset::Bitset;

verus! {

/// Union of the footprints on a decision stack.
pub open spec fn stack_union(s: Seq<(usize, Bitset)>) -> u64
    decreases s.len(),
{
    if s.len() == 0 {
        0u64
    } else {
        stack_union(s.drop_last()) | s.last().1.bits
    }
}

/// The footprints on a decision stack are pairwise disjoint.
pub open spec fn stack_disjoint(s: Seq<(usize, Bitset)>) -> bool {
    forall|i: int, j: int|
        0 <= i < j < s.len() ==> (s[i].1.bits & s[j].1.bits) == 0u64
}

/// A mask disjoint from the union of a stack is disjoint from every entry.
proof fn lemma_disjoint_from_union(s: Seq<(usize, Bitset)>, m: u64)
    requires
        (m & stack_union(s)) == 0u64,
    ensures
        forall|i: int| 0 <= i < s.len() ==> (s[i].1.bits & m) == 0u64,
    decreases s.len(),
{
    if s.len() > 0 {
        let u = stack_union(s.drop_last());
        let l = s.last().1.bits;
        assert((m & u) == 0u64 && (l & m) == 0u64) by (bit_vector)
            requires
                (m & (u | l)) == 0u64,
        ;
        lemma_disjoint_from_union(s.drop_last(), m);
        assert forall|i: int| 0 <= i < s.len() implies (s[i].1.bits & m) == 0u64 by {
            if i < s.len() - 1 {
                assert(s.drop_last()[i] == s[i]);
            }
        }
    }
}

/// A mask disjoint from every entry of a stack is disjoint from its union.
pub proof fn lemma_union_of_disjoint(s: Seq<(usize, Bitset)>, m: u64)
    requires
        forall|i: int| 0 <= i < s.len() ==> (s[i].1.bits & m) == 0u64,
    ensures
        (stack_union(s) & m) == 0u64,
    decreases s.len(),
{
    if s.len() == 0 {
        assert((0u64 & m) == 0u64) by (bit_vector);
    } else {
        assert(forall|i: int| 0 <= i < s.drop_last().len() ==> (s.drop_last()[i].1.bits & m)
            == 0u64);
        lemma_union_of_disjoint(s.drop_last(), m);
        let u = stack_union(s.drop_last());
        let l = s.last().1.bits;
        assert(((u | l) & m) == 0u64) by (bit_vector)
            requires
                (u & m) == 0u64,
                (l & m) == 0u64,
        ;
    }
}

/// The mutable search state: the board's total occupancy plus the ordered
/// stack of (piece id, footprint) decisions, supporting exact undo.
pub struct Placement {
    pub occupied: Bitset,
    pub placed: Vec<(usize, Bitset)>,
}

impl Placement {
    /// Well-formedness: occupancy is exactly the union of the placed
    /// footprints, and those footprints are pairwise disjoint.
    pub open spec fn inv(&self) -> bool {
        &&& self.occupied.bits == stack_union(self.placed@)
        &&& stack_disjoint(self.placed@)
    }

    /// The empty board: nothing occupied, no decisions taken.
    pub fn new() -> (r: Placement)
        ensures
            r.inv(),
            r.occupied.bits == 0u64,
            r.placed@.len() == 0,
    {
        Placement { occupied: Bitset::empty(), placed: Vec::new() }
    }

    /// A footprint may be placed iff it shares no occupied cell with the board.
    pub fn is_valid(&self, bits: Bitset) -> (r: bool)
        ensures
            r == ((bits.bits & self.occupied.bits) == 0u64),
    {
        bits.and(&self.occupied).bits == 0
    }

    /// Records one decision: unions the footprint into occupancy and pushes
    /// the (id, footprint) pair onto the decision stack.
    pub fn place(&mut self, id: usize, bits: Bitset)
        requires
            old(self).inv(),
            (bits.bits & old(self).occupied.bits) == 0u64,
        ensures
            final(self).inv(),
            final(self).placed@ == old(self).placed@.push((id, bits)),
            final(self).occupied.bits == (old(self).occupied.bits | bits.bits),
    {
        self.occupied = self.occupied.or(&bits);
        self.placed.push((id, bits));
        proof {
            let s = self.placed@;
            assert(s.drop_last() == old(self).placed@);
            lemma_disjoint_from_union(old(self).placed@, bits.bits);
            assert forall|i: int, j: int| 0 <= i < j < s.len() implies (s[i].1.bits
                & s[j].1.bits) == 0u64 by {
                if j < s.len() - 1 {
                    assert(old(self).placed@[i] == s[i] && old(self).placed@[j] == s[j]);
                } else {
                    assert(old(self).placed@[i] == s[i]);
                }
            }
        }
    }

    /// Reverses exactly the last decision, removing its footprint from
    /// occupancy by symmetric difference; `None` on an empty stack.
    pub fn pop(&mut self) -> (r: Option<(usize, Bitset)>)
        requires
            old(self).inv(),
        ensures
            final(self).inv(),
            old(self).placed@.len() == 0 ==> {
                &&& r is None
                &&& final(self).occupied == old(self).occupied
                &&& final(self).placed@ == old(self).placed@
            },
            old(self).placed@.len() > 0 ==> {
                &&& r == Some(old(self).placed@.last())
                &&& final(self).placed@ == old(self).placed@.drop_last()
                &&& final(self).occupied.bits == (old(self).occupied.bits ^ old(self).placed@.last().1.bits)
                &&& final(self).occupied.bits == stack_union(old(self).placed@.drop_last())
            },
    {
        let ghost s = self.placed@;
        match self.placed.pop() {
            Some((id, bits)) => {
                proof {
                    assert(self.placed@ == s.drop_last());
                    let u = stack_union(s.drop_last());
                    let l = s.last().1.bits;
                    assert(forall|i: int| 0 <= i < s.drop_last().len() ==> (
                    #[trigger] s.drop_last()[i].1.bits & l) == 0u64);
                    lemma_union_of_disjoint(s.drop_last(), l);
                    assert(((u | l) ^ l) == u) by (bit_vector)
                        requires
                            (u & l) == 0u64,
                    ;
                }
                self.occupied = self.occupied.xor(&bits);
                Some((id, bits))
            },
            None => None,
        }
    }
}

/// Round-trip law: a pop immediately after a place undoes it exactly.
/// With `place`'s and `pop`'s contracts this says: the stack returns to its
/// old value, the popped pair is the placed one, and removing the placed
/// footprint by symmetric difference restores the old occupancy word.
pub proof fn lemma_place_pop_roundtrip(p: Placement, id: usize, bits: Bitset)
    requires
        p.inv(),
        (bits.bits & p.occupied.bits) == 0u64,
    ensures
        p.placed@.push((id, bits)).drop_last() == p.placed@,
        p.placed@.push((id, bits)).last() == (id, bits),
        ((p.occupied.bits | bits.bits) ^ bits.bits) == p.occupied.bits,
{
    assert(p.placed@.push((id, bits)).drop_last() == p.placed@);
    let o = p.occupied.bits;
    let b = bits.bits;
    assert(((o | b) ^ b) == o) by (bit_vector)
        requires
            (b & o) == 0u64,
    ;
}

} // verus!
