use vstd::prelude::*;
use crate::bitset::Bitset;
use crate::board::Placement;
use crate::board::lemma_union_of_disjoint;
use crate::board::stack_disjoint;
use crate::board::stack_union;
use crate::coord::Coord;
use crate::piece::Piece;

verus! {

/// A puzzle: name, grid dimensions and the pieces, immutable once loaded.
pub struct Puzzle {
    pub name: String,
    pub dim: Coord,
    pub pieces: Vec<Piece>,
}

impl Puzzle {
    /// A grid whose cell count exceeds the 64-bit occupancy word cannot be
    /// represented: such dimensions are rejected here, before any search.
    pub fn new(name: String, dim: Coord, pieces: Vec<Piece>) -> (r: Puzzle)
        requires
            0 <= dim.x && 0 <= dim.y && 0 <= dim.z,
            dim.x * dim.y * dim.z <= 64,
        ensures
            r.name == name,
            r.dim == dim,
            r.pieces@ == pieces@,
    {
        Puzzle { name, dim, pieces }
    }
}

/// One reported solution: the final occupancy word and the ordered list of
/// (piece id, footprint) decisions that produced it.
pub struct Solution {
    pub occupied: Bitset,
    pub placed: Vec<(usize, Bitset)>,
}

/// Piece ids are dense and 0-based: the piece at index i carries id i.
pub open spec fn ids_dense(pieces: Seq<Piece>) -> bool {
    forall|i: int| 0 <= i < pieces.len() ==> (#[trigger] pieces[i]).piece_id == i
}

/// No piece id occurs twice in the remaining set.
pub open spec fn distinct_ids(s: Seq<usize>) -> bool {
    forall|i: int, j: int| 0 <= i < j < s.len() ==> s[i] != s[j]
}

/// The piece has at least one placement disjoint from the occupancy.
pub open spec fn piece_fits(p: Piece, occ: u64) -> bool {
    exists|j: int| 0 <= j < p.placements@.len() && (occ & p.placements@[j].bits) == 0u64
}

/// Every remaining piece, taken alone, still has a disjoint placement.
pub open spec fn all_fit(pieces: Seq<Piece>, occ: u64, rem: Seq<usize>) -> bool {
    forall|i: int| 0 <= i < rem.len() ==> piece_fits(pieces[#[trigger] rem[i] as int], occ)
}

/// The remaining set with every occurrence of one piece id removed, order
/// kept: the model of the filter the search applies before recursing.
pub open spec fn spec_remove(rem: Seq<usize>, id: usize) -> Seq<usize>
    decreases rem.len(),
{
    if rem.len() == 0 {
        Seq::empty()
    } else {
        let rest = spec_remove(rem.drop_first(), id);
        if rem[0] == id {
            rest
        } else {
            seq![rem[0]] + rest
        }
    }
}

/// Removing an id never lengthens the set, and removing a present id
/// strictly shortens it.
pub proof fn lemma_spec_remove_len(rem: Seq<usize>, id: usize)
    ensures
        spec_remove(rem, id).len() <= rem.len(),
        rem.contains(id) ==> spec_remove(rem, id).len() < rem.len(),
    decreases rem.len(),
{
    if rem.len() > 0 {
        lemma_spec_remove_len(rem.drop_first(), id);
        if rem.contains(id) {
            let k = choose|k: int| 0 <= k < rem.len() && rem[k] == id;
            if k > 0 {
                assert(rem.drop_first()[k - 1] == id);
                assert(rem.drop_first().contains(id));
            }
        }
    }
}

/// Removal processed back to front: appending an element commutes with the
/// filter.
proof fn lemma_spec_remove_push(rem: Seq<usize>, v: usize, id: usize)
    ensures
        spec_remove(rem.push(v), id) == if v == id {
            spec_remove(rem, id)
        } else {
            spec_remove(rem, id).push(v)
        },
    decreases rem.len(),
{
    if rem.len() == 0 {
        assert(rem.push(v)[0] == v);
        assert(rem.push(v).drop_first() =~= rem);
        if v == id {
            assert(spec_remove(rem.push(v), id) == spec_remove(rem, id));
        } else {
            assert(spec_remove(rem.push(v), id) == seq![v] + spec_remove(rem, id));
            assert(seq![v] + spec_remove(rem, id) =~= spec_remove(rem, id).push(v));
        }
    } else {
        assert(rem.push(v)[0] == rem[0]);
        assert(rem.push(v).drop_first() =~= rem.drop_first().push(v));
        lemma_spec_remove_push(rem.drop_first(), v, id);
        let df = rem.drop_first();
        if rem[0] == id {
            assert(spec_remove(rem.push(v), id) == spec_remove(df.push(v), id));
            assert(spec_remove(rem, id) == spec_remove(df, id));
        } else {
            assert(spec_remove(rem.push(v), id) == seq![rem[0]] + spec_remove(df.push(v), id));
            assert(spec_remove(rem, id) == seq![rem[0]] + spec_remove(df, id));
            if v != id {
                assert(seq![rem[0]] + spec_remove(df, id).push(v) =~= (seq![rem[0]]
                    + spec_remove(df, id)).push(v));
            }
        }
    }
}

/// The ordered list of the stacks the search reports, starting from the
/// given board stack with the given remaining set: with nothing remaining,
/// the one full stack; otherwise every remaining piece in set order, and for
/// each, every placement of that piece in precomputed order, recursing on
/// those that are disjoint from the board and pass the per-piece pruning
/// check. This is the exact enumeration order of the search engine,
/// duplicate final configurations included.
pub open spec fn search_results(
    pieces: Seq<Piece>,
    stack: Seq<(usize, Bitset)>,
    rem: Seq<usize>,
) -> Seq<Seq<(usize, Bitset)>>
    decreases rem.len(), 2int, 0int,
{
    if rem.len() == 0 {
        seq![stack]
    } else {
        results_from(pieces, stack, rem, 0)
    }
}

/// Results contributed by the remaining pieces from set position `idx` on.
pub open spec fn results_from(
    pieces: Seq<Piece>,
    stack: Seq<(usize, Bitset)>,
    rem: Seq<usize>,
    idx: int,
) -> Seq<Seq<(usize, Bitset)>>
    decreases rem.len(), 1int, rem.len() - idx,
{
    if idx < 0 || idx >= rem.len() {
        Seq::empty()
    } else {
        results_from_masks(pieces, stack, rem, idx, 0) + results_from(pieces, stack, rem, idx + 1)
    }
}

/// Results contributed by the piece at set position `idx`, trying its
/// placement masks from position `j` on.
pub open spec fn results_from_masks(
    pieces: Seq<Piece>,
    stack: Seq<(usize, Bitset)>,
    rem: Seq<usize>,
    idx: int,
    j: int,
) -> Seq<Seq<(usize, Bitset)>>
    decreases rem.len(), 0int, pieces[rem[idx] as int].placements@.len() - j,
    via results_from_masks_decreases
{
    if idx < 0 || idx >= rem.len() || j < 0 || j >= pieces[rem[idx] as int].placements@.len() {
        Seq::empty()
    } else {
        let id = rem[idx];
        let bits = pieces[id as int].placements@[j];
        let rest = results_from_masks(pieces, stack, rem, idx, j + 1);
        if (bits.bits & stack_union(stack)) == 0u64 && all_fit(
            pieces,
            bits.bits | stack_union(stack),
            spec_remove(rem, id),
        ) {
            search_results(pieces, stack.push((id, bits)), spec_remove(rem, id)) + rest
        } else {
            rest
        }
    }
}

#[via_fn]
proof fn results_from_masks_decreases(
    pieces: Seq<Piece>,
    stack: Seq<(usize, Bitset)>,
    rem: Seq<usize>,
    idx: int,
    j: int,
) {
    if 0 <= idx < rem.len() {
        assert(rem.contains(rem[idx]));
        lemma_spec_remove_len(rem, rem[idx]);
    }
}

/// The stacks of a list of recorded solutions, in order.
pub open spec fn stacks_of(sols: Seq<Solution>) -> Seq<Seq<(usize, Bitset)>> {
    sols.map_values(|s: Solution| s.placed@)
}

proof fn lemma_stacks_of_push(sols: Seq<Solution>, sol: Solution)
    ensures
        stacks_of(sols.push(sol)) == stacks_of(sols).push(sol.placed@),
{
    assert(stacks_of(sols.push(sol)) =~= stacks_of(sols).push(sol.placed@));
}

/// The ordered list of the stacks the corner-first search reports: with no
/// corner left it is the unconstrained search; otherwise every remaining
/// piece and placement in order, restricted to placements that also cover
/// the last corner mask of the list, which is consumed on recursion.
pub open spec fn corner_results(
    pieces: Seq<Piece>,
    stack: Seq<(usize, Bitset)>,
    corners: Seq<Bitset>,
    rem: Seq<usize>,
) -> Seq<Seq<(usize, Bitset)>>
    decreases corners.len(), 2int, 0int,
{
    if corners.len() == 0 {
        search_results(pieces, stack, rem)
    } else {
        corner_from(pieces, stack, corners, rem, 0)
    }
}

/// Corner-first results contributed by the remaining pieces from `idx` on.
pub open spec fn corner_from(
    pieces: Seq<Piece>,
    stack: Seq<(usize, Bitset)>,
    corners: Seq<Bitset>,
    rem: Seq<usize>,
    idx: int,
) -> Seq<Seq<(usize, Bitset)>>
    decreases corners.len(), 1int, rem.len() - idx,
{
    if corners.len() == 0 || idx < 0 || idx >= rem.len() {
        Seq::empty()
    } else {
        corner_from_masks(pieces, stack, corners, rem, idx, 0) + corner_from(
            pieces,
            stack,
            corners,
            rem,
            idx + 1,
        )
    }
}

/// Corner-first results of the piece at `idx`, masks from `j` on.
pub open spec fn corner_from_masks(
    pieces: Seq<Piece>,
    stack: Seq<(usize, Bitset)>,
    corners: Seq<Bitset>,
    rem: Seq<usize>,
    idx: int,
    j: int,
) -> Seq<Seq<(usize, Bitset)>>
    decreases corners.len(), 0int, pieces[rem[idx] as int].placements@.len() - j,
{
    if corners.len() == 0 || idx < 0 || idx >= rem.len() || j < 0 || j >= pieces[rem[idx] as int].placements@.len() {
        Seq::empty()
    } else {
        let id = rem[idx];
        let bits = pieces[id as int].placements@[j];
        let rest = corner_from_masks(pieces, stack, corners, rem, idx, j + 1);
        if (bits.bits & stack_union(stack)) == 0u64 && (bits.bits & corners.last().bits) != 0u64
            && all_fit(pieces, bits.bits | stack_union(stack), spec_remove(rem, id)) {
            corner_results(
                pieces,
                stack.push((id, bits)),
                corners.drop_last(),
                spec_remove(rem, id),
            ) + rest
        } else {
            rest
        }
    }
}

/// The stack extends `base` by exactly one placement per piece of `rem`:
/// right length, `base` kept as prefix, every added entry a real placement of
/// a remaining piece, no remaining piece used twice, and every remaining
/// piece actually placed.
pub open spec fn extends_with_remaining(
    stack: Seq<(usize, Bitset)>,
    base: Seq<(usize, Bitset)>,
    rem: Seq<usize>,
    pieces: Seq<Piece>,
) -> bool {
    &&& stack.len() == base.len() + rem.len()
    &&& stack.take(base.len() as int) == base
    &&& forall|k: int|
        base.len() <= k < stack.len() ==> rem.contains((#[trigger] stack[k]).0)
            && stack[k].0 < pieces.len() && pieces[stack[k].0 as int].placements@.contains(
            stack[k].1,
        )
    &&& forall|k1: int, k2: int|
        base.len() <= k1 < k2 < stack.len() ==> stack[k1].0 != stack[k2].0
    &&& forall|id: usize|
        #[trigger] rem.contains(id) ==> exists|k: int|
            base.len() <= k < stack.len() && stack[k].0 == id
}

/// A recorded solution is sound for the board state `base` and the remaining
/// set `rem`: its stack extends `base` exactly by the remaining pieces, all
/// footprints are pairwise disjoint, and its occupancy is their union.
pub open spec fn sol_valid(
    sol: Solution,
    base: Seq<(usize, Bitset)>,
    rem: Seq<usize>,
    pieces: Seq<Piece>,
) -> bool {
    &&& extends_with_remaining(sol.placed@, base, rem, pieces)
    &&& stack_disjoint(sol.placed@)
    &&& sol.occupied.bits == stack_union(sol.placed@)
}

/// Law: a recorded solution exists only where every remaining piece still
/// had a placement disjoint from the entry board occupancy. So the cheap
/// per-piece feasibility filter is sound: it can never cut a branch that
/// leads to a solution, since on any such branch every remaining piece fits.
pub proof fn lemma_solution_implies_all_fit(
    sol: Solution,
    base: Seq<(usize, Bitset)>,
    rem: Seq<usize>,
    pieces: Seq<Piece>,
)
    requires
        sol_valid(sol, base, rem, pieces),
    ensures
        all_fit(pieces, stack_union(base), rem),
{
    assert forall|i: int| 0 <= i < rem.len() implies piece_fits(
        pieces[#[trigger] rem[i] as int],
        stack_union(base),
    ) by {
        let id = rem[i];
        assert(rem.contains(id));
        let k = choose|k: int| base.len() <= k < sol.placed@.len() && sol.placed@[k].0 == id;
        let bits = sol.placed@[k].1;
        assert forall|m: int| 0 <= m < base.len() implies ((#[trigger] base[m]).1.bits
            & bits.bits) == 0u64 by {
            assert(sol.placed@.take(base.len() as int)[m] == base[m]);
        }
        lemma_union_of_disjoint(base, bits.bits);
        assert(pieces[id as int].placements@.contains(bits));
        let j = choose|j: int|
            0 <= j < pieces[id as int].placements@.len() && pieces[id as int].placements@[j]
                == bits;
        assert((stack_union(base) & pieces[id as int].placements@[j].bits) == 0u64);
    }
}

/// A fresh copy of a decision stack.
fn copy_stack(v: &Vec<(usize, Bitset)>) -> (r: Vec<(usize, Bitset)>)
    ensures
        r@ == v@,
{
    let mut r: Vec<(usize, Bitset)> = Vec::new();
    let mut i: usize = 0;
    while i < v.len()
        invariant
            i <= v@.len(),
            r@ == v@.take(i as int),
        decreases v@.len() - i,
    {
        r.push(v[i]);
        proof {
            assert(v@.take(i + 1) =~= v@.take(i as int).push(v@[i as int]));
        }
        i += 1;
    }
    proof {
        assert(v@.take(v@.len() as int) =~= v@);
    }
    r
}

/// A fresh copy of a mask list.
fn copy_masks(v: &Vec<Bitset>) -> (r: Vec<Bitset>)
    ensures
        r@ == v@,
{
    let mut r: Vec<Bitset> = Vec::new();
    let mut i: usize = 0;
    while i < v.len()
        invariant
            i <= v@.len(),
            r@ == v@.take(i as int),
        decreases v@.len() - i,
    {
        r.push(v[i]);
        proof {
            assert(v@.take(i + 1) =~= v@.take(i as int).push(v@[i as int]));
        }
        i += 1;
    }
    proof {
        assert(v@.take(v@.len() as int) =~= v@);
    }
    r
}

/// The remaining set with one piece id removed.
#[verifier::loop_isolation(false)]
fn remove_id(remaining: &Vec<usize>, id: usize) -> (r: Vec<usize>)
    requires
        distinct_ids(remaining@),
    ensures
        distinct_ids(r@),
        forall|k: int| 0 <= k < r@.len() ==> r@[k] != id && remaining@.contains(#[trigger] r@[k]),
        forall|k: int|
            0 <= k < remaining@.len() && remaining@[k] != id ==> r@.contains(
                #[trigger] remaining@[k],
            ),
        remaining@.contains(id) ==> r@.len() == remaining@.len() - 1,
        !remaining@.contains(id) ==> r@.len() == remaining@.len(),
        r@ == spec_remove(remaining@, id),
    decreases remaining@.len(),
{
    let mut r: Vec<usize> = Vec::new();
    let mut i: usize = 0;
    proof {
        assert(remaining@.take(0int) =~= Seq::<usize>::empty());
    }
    while i < remaining.len()
        invariant
            i <= remaining@.len(),
            r@ == spec_remove(remaining@.take(i as int), id),
            distinct_ids(r@),
            forall|k: int|
                0 <= k < r@.len() ==> r@[k] != id && remaining@.contains(#[trigger] r@[k]),
            forall|k: int|
                0 <= k < r@.len() ==> exists|k2: int|
                    0 <= k2 < i && remaining@[k2] == #[trigger] r@[k],
            forall|k: int|
                0 <= k < i && remaining@[k] != id ==> r@.contains(#[trigger] remaining@[k]),
            (exists|k: int| 0 <= k < i && remaining@[k] == id) ==> r@.len() == i - 1,
            (forall|k: int| 0 <= k < i ==> remaining@[k] != id) ==> r@.len() == i,
        decreases remaining@.len() - i,
    {
        let v = remaining[i];
        proof {
            assert(remaining@.take(i + 1) =~= remaining@.take(i as int).push(
                remaining@[i as int],
            ));
            lemma_spec_remove_push(remaining@.take(i as int), remaining@[i as int], id);
        }
        if v != id {
            let ghost old_r = r@;
            r.push(v);
            proof {
                assert(remaining@[i as int] == v);
                assert(remaining@.contains(v));
                assert forall|k: int| 0 <= k < i + 1 && remaining@[k] != id implies r@.contains(
                    #[trigger] remaining@[k],
                ) by {
                    if k < i {
                        let w = choose|w: int|
                            0 <= w < old_r.len() && old_r[w] == remaining@[k];
                        assert(r@[w] == remaining@[k]);
                    } else {
                        assert(r@[r@.len() - 1] == remaining@[k]);
                    }
                }
                assert forall|a: int, b: int| 0 <= a < b < r@.len() implies r@[a] != r@[b] by {
                    if b == r@.len() - 1 {
                        let k2 = choose|k2: int| 0 <= k2 < i && remaining@[k2] == old_r[a];
                        assert(remaining@[k2] != remaining@[i as int]);
                    }
                }
            }
        } else {
            proof {
                assert(remaining@[i as int] == id);
                if exists|k: int| 0 <= k < i && remaining@[k] == id {
                    let k = choose|k: int| 0 <= k < i && remaining@[k] == id;
                    assert(remaining@[k] == remaining@[i as int]);
                    assert(false);
                }
            }
        }
        i += 1;
    }
    proof {
        if remaining@.contains(id) {
            let k = choose|k: int| 0 <= k < remaining@.len() && remaining@[k] == id;
            assert(exists|k: int| 0 <= k < i && remaining@[k] == id);
        }
        assert(remaining@.take(remaining@.len() as int) =~= remaining@);
    }
    r
}

/// The search engine: records each enumerated solution and keeps a running
/// count of them.
pub struct Solver {
    pub num_solutions: usize,
    pub solutions: Vec<Solution>,
}

impl Solver {
    pub fn new() -> (r: Solver)
        ensures
            r.num_solutions == 0,
            r.solutions@.len() == 0,
    {
        Solver { num_solutions: 0, solutions: Vec::new() }
    }

    /// Feasibility pruning: false iff some remaining piece, taken alone, has
    /// no placement disjoint from the hypothetical occupancy. A cheap local
    /// filter, not a full exact-cover test.
    #[verifier::loop_isolation(false)]
    pub fn still_possible(&self, puzzle: &Puzzle, occ: &Bitset, remaining: &Vec<usize>) -> (r:
        bool)
        requires
            forall|i: int| 0 <= i < remaining@.len() ==> remaining@[i] < puzzle.pieces@.len(),
        ensures
            r == all_fit(puzzle.pieces@, occ.bits, remaining@),
    {
        let mut i: usize = 0;
        while i < remaining.len()
            invariant
                i <= remaining@.len(),
                forall|k: int|
                    0 <= k < i ==> piece_fits(
                        puzzle.pieces@[#[trigger] remaining@[k] as int],
                        occ.bits,
                    ),
            decreases remaining@.len() - i,
        {
            let piece_id = remaining[i];
            let piece = &puzzle.pieces[piece_id];
            let mut possible = false;
            let mut j: usize = 0;
            while j < piece.placements.len() && !possible
                invariant
                    j <= piece.placements@.len(),
                    possible ==> piece_fits(puzzle.pieces@[piece_id as int], occ.bits),
                    !possible ==> forall|l: int|
                        0 <= l < j ==> (occ.bits & piece.placements@[l].bits) != 0u64,
                decreases piece.placements@.len() - j,
            {
                if occ.and(&piece.placements[j]).bits == 0 {
                    possible = true;
                }
                j += 1;
            }
            if !possible {
                proof {
                    assert(!piece_fits(puzzle.pieces@[piece_id as int], occ.bits));
                }
                return false;
            }
            i += 1;
        }
        true
    }

    /// Exhaustive backtracking over the remaining pieces: for every remaining
    /// piece and every non-overlapping placement passing the pruning check,
    /// place it, recurse on the rest, and undo. Records one solution per
    /// search leaf reached with no piece remaining; the board state is
    /// restored exactly on return, and every recorded solution extends the
    /// entry board state by exactly one disjoint placement per remaining
    /// piece, its occupancy being their union.
    #[verifier::loop_isolation(false)]
    pub fn solve(&mut self, puzzle: &Puzzle, placement: &mut Placement, remaining: &Vec<usize>)
        requires
            old(placement).inv(),
            ids_dense(puzzle.pieces@),
            forall|i: int| 0 <= i < remaining@.len() ==> remaining@[i] < puzzle.pieces@.len(),
            distinct_ids(remaining@),
            old(self).num_solutions == old(self).solutions@.len(),
        ensures
            final(placement).inv(),
            final(placement).occupied == old(placement).occupied,
            final(placement).placed@ == old(placement).placed@,
            final(self).num_solutions == final(self).solutions@.len(),
            old(self).solutions@.len() <= final(self).solutions@.len(),
            forall|k: int|
                0 <= k < old(self).solutions@.len() ==> final(self).solutions@[k] == old(
                    self,
                ).solutions@[k],
            forall|k: int|
                old(self).solutions@.len() <= k < final(self).solutions@.len() ==> sol_valid(
                    final(self).solutions@[k],
                    old(placement).placed@,
                    remaining@,
                    puzzle.pieces@,
                ),
            remaining@.len() == 0 ==> {
                &&& final(self).solutions@.len() == old(self).solutions@.len() + 1
                &&& final(self).solutions@.last().placed@ == old(placement).placed@
                &&& final(self).solutions@.last().occupied == old(placement).occupied
            },
            stacks_of(final(self).solutions@) == stacks_of(old(self).solutions@)
                + search_results(puzzle.pieces@, old(placement).placed@, remaining@),
        decreases remaining@.len(),
    {
        let ghost base = old(placement).placed@;
        let ghost base_occ = old(placement).occupied;
        if remaining.len() == 0 {
            let occupied = placement.occupied;
            let placed = copy_stack(&placement.placed);
            let sol = Solution { occupied, placed };
            proof {
                assert(sol.placed@.take(base.len() as int) =~= base);
                assert(sol_valid(sol, base, remaining@, puzzle.pieces@));
            }
            self.solutions.push(sol);
            self.num_solutions = self.solutions.len();
            proof {
                lemma_stacks_of_push(old(self).solutions@, sol);
                assert(search_results(puzzle.pieces@, base, remaining@) == seq![base]);
                assert(stacks_of(old(self).solutions@).push(base) =~= stacks_of(
                    old(self).solutions@,
                ) + seq![base]);
            }
            return ;
        }
        let mut idx: usize = 0;
        proof {
            assert(search_results(puzzle.pieces@, base, remaining@) == results_from(
                puzzle.pieces@,
                base,
                remaining@,
                0,
            ));
        }
        while idx < remaining.len()
            invariant
                idx <= remaining@.len(),
                stacks_of(self.solutions@) + results_from(
                    puzzle.pieces@,
                    base,
                    remaining@,
                    idx as int,
                ) == stacks_of(old(self).solutions@) + search_results(
                    puzzle.pieces@,
                    base,
                    remaining@,
                ),
                placement.inv(),
                placement.occupied == base_occ,
                placement.placed@ == base,
                self.num_solutions == self.solutions@.len(),
                old(self).solutions@.len() <= self.solutions@.len(),
                forall|k: int|
                    0 <= k < old(self).solutions@.len() ==> self.solutions@[k] == old(
                        self,
                    ).solutions@[k],
                forall|k: int|
                    old(self).solutions@.len() <= k < self.solutions@.len() ==> sol_valid(
                        self.solutions@[k],
                        base,
                        remaining@,
                        puzzle.pieces@,
                    ),
            decreases remaining@.len() - idx,
        {
            let piece_id = remaining[idx];
            let new_remaining = remove_id(remaining, piece_id);
            proof {
                assert(remaining@[idx as int] == piece_id);
                assert(remaining@.contains(piece_id));
                assert forall|k: int| 0 <= k < new_remaining@.len() implies new_remaining@[k]
                    < puzzle.pieces@.len() by {
                    let w = choose|w: int|
                        0 <= w < remaining@.len() && remaining@[w] == new_remaining@[k];
                }
                assert(results_from(puzzle.pieces@, base, remaining@, idx as int)
                    == results_from_masks(puzzle.pieces@, base, remaining@, idx as int, 0)
                    + results_from(puzzle.pieces@, base, remaining@, idx as int + 1));
                assert(stacks_of(self.solutions@) + (results_from_masks(
                    puzzle.pieces@,
                    base,
                    remaining@,
                    idx as int,
                    0,
                ) + results_from(puzzle.pieces@, base, remaining@, idx as int + 1))
                    =~= stacks_of(self.solutions@) + results_from_masks(
                    puzzle.pieces@,
                    base,
                    remaining@,
                    idx as int,
                    0,
                ) + results_from(puzzle.pieces@, base, remaining@, idx as int + 1));
            }
            let mut j: usize = 0;
            while j < puzzle.pieces[piece_id].placements.len()
                invariant
                    j <= puzzle.pieces@[piece_id as int].placements@.len(),
                    remaining@[idx as int] == piece_id,
                    idx < remaining@.len(),
                    new_remaining@ == spec_remove(remaining@, piece_id),
                    stacks_of(self.solutions@) + results_from_masks(
                        puzzle.pieces@,
                        base,
                        remaining@,
                        idx as int,
                        j as int,
                    ) + results_from(puzzle.pieces@, base, remaining@, idx as int + 1)
                        == stacks_of(old(self).solutions@) + search_results(
                        puzzle.pieces@,
                        base,
                        remaining@,
                    ),
                    placement.inv(),
                    placement.occupied == base_occ,
                    placement.placed@ == base,
                    self.num_solutions == self.solutions@.len(),
                    old(self).solutions@.len() <= self.solutions@.len(),
                    forall|k: int|
                        0 <= k < old(self).solutions@.len() ==> self.solutions@[k] == old(
                            self,
                        ).solutions@[k],
                    forall|k: int|
                        old(self).solutions@.len() <= k < self.solutions@.len() ==> sol_valid(
                            self.solutions@[k],
                            base,
                            remaining@,
                            puzzle.pieces@,
                        ),
                decreases puzzle.pieces@[piece_id as int].placements@.len() - j,
            {
                let piece = &puzzle.pieces[piece_id];
                let bits = piece.placements[j];
                let occ = bits.or(&placement.occupied);
                if placement.is_valid(bits) && self.still_possible(puzzle, &occ, &new_remaining) {
                    placement.place(piece.piece_id, bits);
                    proof {
                        assert(piece.piece_id == piece_id);
                    }
                    let ghost pre_sols = self.solutions@;
                    self.solve(puzzle, placement, &new_remaining);
                    placement.pop();
                    proof {
                        let ghost ext = base.push((piece_id, bits));
                        assert(ext.drop_last() =~= base);
                        assert(placement.placed@ == base);
                        assert(placement.occupied.bits == stack_union(base));
                        assert(placement.occupied == base_occ);
                        assert forall|k: int|
                            pre_sols.len() <= k < self.solutions@.len() implies sol_valid(
                            self.solutions@[k],
                            base,
                            remaining@,
                            puzzle.pieces@,
                        ) by {
                            let sol = self.solutions@[k];
                            assert(sol_valid(sol, ext, new_remaining@, puzzle.pieces@));
                            assert(new_remaining@.len() == remaining@.len() - 1);
                            assert forall|i: int| 0 <= i < base.len() implies sol.placed@[i]
                                == base[i] by {
                                assert(sol.placed@.take(ext.len() as int)[i] == ext[i]);
                            }
                            assert(sol.placed@.take(base.len() as int) =~= base);
                            assert(sol.placed@.take(ext.len() as int)[base.len() as int] == ext[base.len() as int]);
                            assert(sol.placed@[base.len() as int] == (piece_id, bits));
                            assert(puzzle.pieces@[piece_id as int].placements@[j as int] == bits);
                            assert(puzzle.pieces@[piece_id as int].placements@.contains(bits));
                            assert forall|k2: int|
                                base.len() <= k2 < sol.placed@.len() implies remaining@.contains(
                                (#[trigger] sol.placed@[k2]).0,
                            ) && sol.placed@[k2].0 < puzzle.pieces@.len()
                                && puzzle.pieces@[sol.placed@[k2].0 as int].placements@.contains(
                                sol.placed@[k2].1,
                            ) by {
                                if k2 == base.len() {
                                } else {
                                    assert(new_remaining@.contains(sol.placed@[k2].0));
                                    let w = choose|w: int|
                                        0 <= w < new_remaining@.len() && new_remaining@[w]
                                            == sol.placed@[k2].0;
                                    assert(remaining@.contains(new_remaining@[w]));
                                }
                            }
                            assert forall|k1: int, k2: int|
                                base.len() <= k1 < k2 < sol.placed@.len() implies sol.placed@[k1].0
                                != sol.placed@[k2].0 by {
                                if k1 == base.len() {
                                    assert(new_remaining@.contains(sol.placed@[k2].0));
                                    let w = choose|w: int|
                                        0 <= w < new_remaining@.len() && new_remaining@[w]
                                            == sol.placed@[k2].0;
                                    assert(new_remaining@[w] != piece_id);
                                }
                            }
                            assert forall|id: usize| #[trigger] remaining@.contains(id)
                                implies exists|k2: int|
                                base.len() <= k2 < sol.placed@.len() && sol.placed@[k2].0
                                    == id by {
                                if id == piece_id {
                                    assert(sol.placed@[base.len() as int].0 == id);
                                } else {
                                    let w = choose|w: int|
                                        0 <= w < remaining@.len() && remaining@[w] == id;
                                    assert(new_remaining@.contains(remaining@[w]));
                                    let k3 = choose|k3: int|
                                        ext.len() <= k3 < sol.placed@.len() && sol.placed@[k3].0
                                            == id;
                                    assert(base.len() <= k3 < sol.placed@.len());
                                }
                            }
                            assert(extends_with_remaining(
                                sol.placed@,
                                base,
                                remaining@,
                                puzzle.pieces@,
                            ));
                        }
                    }
                    proof {
                        let ext = base.push((piece_id, bits));
                        let nr = new_remaining@;
                        let sr = search_results(puzzle.pieces@, ext, nr);
                        assert(stacks_of(self.solutions@) == stacks_of(pre_sols) + sr);
                        assert(base_occ.bits == stack_union(base));
                        assert((bits.bits & stack_union(base)) == 0u64);
                        assert(occ.bits == (bits.bits | stack_union(base)));
                        assert(all_fit(
                            puzzle.pieces@,
                            bits.bits | stack_union(base),
                            spec_remove(remaining@, piece_id),
                        ));
                        assert(puzzle.pieces@[remaining@[idx as int] as int].placements@[j as int]
                            == bits);
                        assert(results_from_masks(
                            puzzle.pieces@,
                            base,
                            remaining@,
                            idx as int,
                            j as int,
                        ) == search_results(
                            puzzle.pieces@,
                            base.push((remaining@[idx as int], bits)),
                            spec_remove(remaining@, remaining@[idx as int]),
                        ) + results_from_masks(
                            puzzle.pieces@,
                            base,
                            remaining@,
                            idx as int,
                            j as int + 1,
                        ));
                        assert(base.push((remaining@[idx as int], bits)) == ext);
                        assert(spec_remove(remaining@, remaining@[idx as int]) == nr);
                        assert(stacks_of(self.solutions@) + results_from_masks(
                            puzzle.pieces@,
                            base,
                            remaining@,
                            idx as int,
                            j as int + 1,
                        ) + results_from(puzzle.pieces@, base, remaining@, idx as int + 1)
                            =~= stacks_of(pre_sols) + results_from_masks(
                            puzzle.pieces@,
                            base,
                            remaining@,
                            idx as int,
                            j as int,
                        ) + results_from(puzzle.pieces@, base, remaining@, idx as int + 1));
                    }
                } else {
                    proof {
                        assert(base_occ.bits == stack_union(base));
                        assert(occ.bits == (bits.bits | stack_union(base)));
                        assert(!((bits.bits & stack_union(base)) == 0u64 && all_fit(
                            puzzle.pieces@,
                            bits.bits | stack_union(base),
                            spec_remove(remaining@, piece_id),
                        )));
                        assert(results_from_masks(
                            puzzle.pieces@,
                            base,
                            remaining@,
                            idx as int,
                            j as int,
                        ) == results_from_masks(
                            puzzle.pieces@,
                            base,
                            remaining@,
                            idx as int,
                            j as int + 1,
                        ));
                    }
                }
                j += 1;
            }
            proof {
                assert(results_from_masks(
                    puzzle.pieces@,
                    base,
                    remaining@,
                    idx as int,
                    j as int,
                ) == Seq::<Seq<(usize, Bitset)>>::empty());
                assert(stacks_of(self.solutions@) + Seq::<Seq<(usize, Bitset)>>::empty()
                    =~= stacks_of(self.solutions@));
                assert(stacks_of(self.solutions@) + Seq::<Seq<(usize, Bitset)>>::empty()
                    + results_from(puzzle.pieces@, base, remaining@, idx as int + 1)
                    =~= stacks_of(self.solutions@) + results_from(
                    puzzle.pieces@,
                    base,
                    remaining@,
                    idx as int + 1,
                ));
            }
            idx += 1;
        }
        proof {
            assert(results_from(puzzle.pieces@, base, remaining@, remaining@.len() as int)
                == Seq::<Seq<(usize, Bitset)>>::empty());
            assert(stacks_of(self.solutions@) + Seq::<Seq<(usize, Bitset)>>::empty()
                =~= stacks_of(self.solutions@));
        }
    }

    /// Corner-first search: while designated corner masks remain, force the
    /// next placement to cover the last corner of the list, then recurse with
    /// the shortened list; with no corner left, delegate entirely to the
    /// unconstrained search. Restores the board state and records only sound
    /// solutions, exactly as `solve` does.
    #[verifier::loop_isolation(false)]
    pub fn corner_solve(
        &mut self,
        puzzle: &Puzzle,
        placement: &mut Placement,
        corners: &Vec<Bitset>,
        remaining: &Vec<usize>,
    )
        requires
            old(placement).inv(),
            ids_dense(puzzle.pieces@),
            forall|i: int| 0 <= i < remaining@.len() ==> remaining@[i] < puzzle.pieces@.len(),
            distinct_ids(remaining@),
            old(self).num_solutions == old(self).solutions@.len(),
        ensures
            final(placement).inv(),
            final(placement).occupied == old(placement).occupied,
            final(placement).placed@ == old(placement).placed@,
            final(self).num_solutions == final(self).solutions@.len(),
            old(self).solutions@.len() <= final(self).solutions@.len(),
            forall|k: int|
                0 <= k < old(self).solutions@.len() ==> final(self).solutions@[k] == old(
                    self,
                ).solutions@[k],
            forall|k: int|
                old(self).solutions@.len() <= k < final(self).solutions@.len() ==> sol_valid(
                    final(self).solutions@[k],
                    old(placement).placed@,
                    remaining@,
                    puzzle.pieces@,
                ),
            stacks_of(final(self).solutions@) == stacks_of(old(self).solutions@)
                + corner_results(
                puzzle.pieces@,
                old(placement).placed@,
                corners@,
                remaining@,
            ),
            corners@.len() == 0 ==> stacks_of(final(self).solutions@) == stacks_of(
                old(self).solutions@,
            ) + search_results(puzzle.pieces@, old(placement).placed@, remaining@),
        decreases corners@.len(),
    {
        if corners.len() == 0 {
            self.solve(puzzle, placement, remaining);
            proof {
                assert(corner_results(
                    puzzle.pieces@,
                    old(placement).placed@,
                    corners@,
                    remaining@,
                ) == search_results(puzzle.pieces@, old(placement).placed@, remaining@));
            }
            return ;
        }
        let ghost base = old(placement).placed@;
        let ghost base_occ = old(placement).occupied;
        let mut new_corners = copy_masks(corners);
        let corner = new_corners.pop().unwrap();
        let mut idx: usize = 0;
        proof {
            assert(corner_results(puzzle.pieces@, base, corners@, remaining@) == corner_from(
                puzzle.pieces@,
                base,
                corners@,
                remaining@,
                0,
            ));
        }
        while idx < remaining.len()
            invariant
                idx <= remaining@.len(),
                new_corners@ == corners@.drop_last(),
                corner == corners@.last(),
                corners@.len() > 0,
                stacks_of(self.solutions@) + corner_from(
                    puzzle.pieces@,
                    base,
                    corners@,
                    remaining@,
                    idx as int,
                ) == stacks_of(old(self).solutions@) + corner_results(
                    puzzle.pieces@,
                    base,
                    corners@,
                    remaining@,
                ),
                placement.inv(),
                placement.occupied == base_occ,
                placement.placed@ == base,
                self.num_solutions == self.solutions@.len(),
                old(self).solutions@.len() <= self.solutions@.len(),
                forall|k: int|
                    0 <= k < old(self).solutions@.len() ==> self.solutions@[k] == old(
                        self,
                    ).solutions@[k],
                forall|k: int|
                    old(self).solutions@.len() <= k < self.solutions@.len() ==> sol_valid(
                        self.solutions@[k],
                        base,
                        remaining@,
                        puzzle.pieces@,
                    ),
            decreases remaining@.len() - idx,
        {
            let piece_id = remaining[idx];
            let new_remaining = remove_id(remaining, piece_id);
            proof {
                assert(remaining@[idx as int] == piece_id);
                assert(remaining@.contains(piece_id));
                assert forall|k: int| 0 <= k < new_remaining@.len() implies new_remaining@[k]
                    < puzzle.pieces@.len() by {
                    let w = choose|w: int|
                        0 <= w < remaining@.len() && remaining@[w] == new_remaining@[k];
                }
                assert(corner_from(puzzle.pieces@, base, corners@, remaining@, idx as int)
                    == corner_from_masks(
                    puzzle.pieces@,
                    base,
                    corners@,
                    remaining@,
                    idx as int,
                    0,
                ) + corner_from(puzzle.pieces@, base, corners@, remaining@, idx as int + 1));
                assert(stacks_of(self.solutions@) + (corner_from_masks(
                    puzzle.pieces@,
                    base,
                    corners@,
                    remaining@,
                    idx as int,
                    0,
                ) + corner_from(puzzle.pieces@, base, corners@, remaining@, idx as int + 1))
                    =~= stacks_of(self.solutions@) + corner_from_masks(
                    puzzle.pieces@,
                    base,
                    corners@,
                    remaining@,
                    idx as int,
                    0,
                ) + corner_from(puzzle.pieces@, base, corners@, remaining@, idx as int + 1));
            }
            let mut j: usize = 0;
            while j < puzzle.pieces[piece_id].placements.len()
                invariant
                    j <= puzzle.pieces@[piece_id as int].placements@.len(),
                    new_corners@ == corners@.drop_last(),
                    corner == corners@.last(),
                    corners@.len() > 0,
                    remaining@[idx as int] == piece_id,
                    idx < remaining@.len(),
                    new_remaining@ == spec_remove(remaining@, piece_id),
                    stacks_of(self.solutions@) + corner_from_masks(
                        puzzle.pieces@,
                        base,
                        corners@,
                        remaining@,
                        idx as int,
                        j as int,
                    ) + corner_from(puzzle.pieces@, base, corners@, remaining@, idx as int + 1)
                        == stacks_of(old(self).solutions@) + corner_results(
                        puzzle.pieces@,
                        base,
                        corners@,
                        remaining@,
                    ),
                    placement.inv(),
                    placement.occupied == base_occ,
                    placement.placed@ == base,
                    self.num_solutions == self.solutions@.len(),
                    old(self).solutions@.len() <= self.solutions@.len(),
                    forall|k: int|
                        0 <= k < old(self).solutions@.len() ==> self.solutions@[k] == old(
                            self,
                        ).solutions@[k],
                    forall|k: int|
                        old(self).solutions@.len() <= k < self.solutions@.len() ==> sol_valid(
                            self.solutions@[k],
                            base,
                            remaining@,
                            puzzle.pieces@,
                        ),
                decreases puzzle.pieces@[piece_id as int].placements@.len() - j,
            {
                let piece = &puzzle.pieces[piece_id];
                let bits = piece.placements[j];
                let occ = bits.or(&placement.occupied);
                if placement.is_valid(bits) && bits.and(&corner).bits != 0 && self.still_possible(
                    puzzle,
                    &occ,
                    &new_remaining,
                ) {
                    placement.place(piece.piece_id, bits);
                    proof {
                        assert(piece.piece_id == piece_id);
                    }
                    let ghost pre_sols = self.solutions@;
                    self.corner_solve(puzzle, placement, &new_corners, &new_remaining);
                    placement.pop();
                    proof {
                        let ghost ext = base.push((piece_id, bits));
                        assert(ext.drop_last() =~= base);
                        assert(placement.placed@ == base);
                        assert(placement.occupied.bits == stack_union(base));
                        assert(placement.occupied == base_occ);
                        assert forall|k: int|
                            pre_sols.len() <= k < self.solutions@.len() implies sol_valid(
                            self.solutions@[k],
                            base,
                            remaining@,
                            puzzle.pieces@,
                        ) by {
                            let sol = self.solutions@[k];
                            assert(sol_valid(sol, ext, new_remaining@, puzzle.pieces@));
                            assert(new_remaining@.len() == remaining@.len() - 1);
                            assert forall|i: int| 0 <= i < base.len() implies sol.placed@[i]
                                == base[i] by {
                                assert(sol.placed@.take(ext.len() as int)[i] == ext[i]);
                            }
                            assert(sol.placed@.take(base.len() as int) =~= base);
                            assert(sol.placed@.take(ext.len() as int)[base.len() as int] == ext[base.len() as int]);
                            assert(sol.placed@[base.len() as int] == (piece_id, bits));
                            assert(puzzle.pieces@[piece_id as int].placements@[j as int] == bits);
                            assert(puzzle.pieces@[piece_id as int].placements@.contains(bits));
                            assert forall|k2: int|
                                base.len() <= k2 < sol.placed@.len() implies remaining@.contains(
                                (#[trigger] sol.placed@[k2]).0,
                            ) && sol.placed@[k2].0 < puzzle.pieces@.len()
                                && puzzle.pieces@[sol.placed@[k2].0 as int].placements@.contains(
                                sol.placed@[k2].1,
                            ) by {
                                if k2 == base.len() {
                                } else {
                                    assert(new_remaining@.contains(sol.placed@[k2].0));
                                    let w = choose|w: int|
                                        0 <= w < new_remaining@.len() && new_remaining@[w]
                                            == sol.placed@[k2].0;
                                    assert(remaining@.contains(new_remaining@[w]));
                                }
                            }
                            assert forall|k1: int, k2: int|
                                base.len() <= k1 < k2 < sol.placed@.len() implies sol.placed@[k1].0
                                != sol.placed@[k2].0 by {
                                if k1 == base.len() {
                                    assert(new_remaining@.contains(sol.placed@[k2].0));
                                    let w = choose|w: int|
                                        0 <= w < new_remaining@.len() && new_remaining@[w]
                                            == sol.placed@[k2].0;
                                    assert(new_remaining@[w] != piece_id);
                                }
                            }
                            assert forall|id: usize| #[trigger] remaining@.contains(id)
                                implies exists|k2: int|
                                base.len() <= k2 < sol.placed@.len() && sol.placed@[k2].0
                                    == id by {
                                if id == piece_id {
                                    assert(sol.placed@[base.len() as int].0 == id);
                                } else {
                                    let w = choose|w: int|
                                        0 <= w < remaining@.len() && remaining@[w] == id;
                                    assert(new_remaining@.contains(remaining@[w]));
                                    let k3 = choose|k3: int|
                                        ext.len() <= k3 < sol.placed@.len() && sol.placed@[k3].0
                                            == id;
                                    assert(base.len() <= k3 < sol.placed@.len());
                                }
                            }
                            assert(extends_with_remaining(
                                sol.placed@,
                                base,
                                remaining@,
                                puzzle.pieces@,
                            ));
                        }
                    }
                    proof {
                        let ext = base.push((piece_id, bits));
                        let nr = new_remaining@;
                        let sr = corner_results(puzzle.pieces@, ext, new_corners@, nr);
                        assert(stacks_of(self.solutions@) == stacks_of(pre_sols) + sr);
                        assert(base_occ.bits == stack_union(base));
                        assert((bits.bits & stack_union(base)) == 0u64);
                        assert((bits.bits & corners@.last().bits) != 0u64);
                        assert(occ.bits == (bits.bits | stack_union(base)));
                        assert(all_fit(
                            puzzle.pieces@,
                            bits.bits | stack_union(base),
                            spec_remove(remaining@, piece_id),
                        ));
                        assert(puzzle.pieces@[remaining@[idx as int] as int].placements@[j as int]
                            == bits);
                        assert(corner_from_masks(
                            puzzle.pieces@,
                            base,
                            corners@,
                            remaining@,
                            idx as int,
                            j as int,
                        ) == corner_results(
                            puzzle.pieces@,
                            base.push((remaining@[idx as int], bits)),
                            corners@.drop_last(),
                            spec_remove(remaining@, remaining@[idx as int]),
                        ) + corner_from_masks(
                            puzzle.pieces@,
                            base,
                            corners@,
                            remaining@,
                            idx as int,
                            j as int + 1,
                        ));
                        assert(base.push((remaining@[idx as int], bits)) == ext);
                        assert(spec_remove(remaining@, remaining@[idx as int]) == nr);
                        assert(corners@.drop_last() == new_corners@);
                        assert(stacks_of(self.solutions@) + corner_from_masks(
                            puzzle.pieces@,
                            base,
                            corners@,
                            remaining@,
                            idx as int,
                            j as int + 1,
                        ) + corner_from(puzzle.pieces@, base, corners@, remaining@, idx as int + 1)
                            =~= stacks_of(pre_sols) + corner_from_masks(
                            puzzle.pieces@,
                            base,
                            corners@,
                            remaining@,
                            idx as int,
                            j as int,
                        ) + corner_from(puzzle.pieces@, base, corners@, remaining@, idx as int + 1));
                    }
                } else {
                    proof {
                        assert(base_occ.bits == stack_union(base));
                        assert(occ.bits == (bits.bits | stack_union(base)));
                        assert(!((bits.bits & stack_union(base)) == 0u64 && (bits.bits
                            & corners@.last().bits) != 0u64 && all_fit(
                            puzzle.pieces@,
                            bits.bits | stack_union(base),
                            spec_remove(remaining@, piece_id),
                        )));
                        assert(corner_from_masks(
                            puzzle.pieces@,
                            base,
                            corners@,
                            remaining@,
                            idx as int,
                            j as int,
                        ) == corner_from_masks(
                            puzzle.pieces@,
                            base,
                            corners@,
                            remaining@,
                            idx as int,
                            j as int + 1,
                        ));
                    }
                }
                j += 1;
            }
            proof {
                assert(corner_from_masks(
                    puzzle.pieces@,
                    base,
                    corners@,
                    remaining@,
                    idx as int,
                    j as int,
                ) == Seq::<Seq<(usize, Bitset)>>::empty());
                assert(stacks_of(self.solutions@) + Seq::<Seq<(usize, Bitset)>>::empty()
                    + corner_from(puzzle.pieces@, base, corners@, remaining@, idx as int + 1)
                    =~= stacks_of(self.solutions@) + corner_from(
                    puzzle.pieces@,
                    base,
                    corners@,
                    remaining@,
                    idx as int + 1,
                ));
            }
            idx += 1;
        }
        proof {
            assert(corner_from(
                puzzle.pieces@,
                base,
                corners@,
                remaining@,
                remaining@.len() as int,
            ) == Seq::<Seq<(usize, Bitset)>>::empty());
            assert(stacks_of(self.solutions@) + Seq::<Seq<(usize, Bitset)>>::empty()
                =~= stacks_of(self.solutions@));
        }
    }
}

} // verus!
