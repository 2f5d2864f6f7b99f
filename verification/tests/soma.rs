use soma_solver::bitset::Bitset;
use soma_solver::board::Placement;
use soma_solver::coord::{Block, Coord};
use soma_solver::orientation::Orintaion;
use soma_solver::piece::{Color, Piece};
use soma_solver::solver::{Puzzle, Solver};

fn coords(v: &[(i32, i32, i32)]) -> Vec<Coord> {
    v.iter().map(|&(x, y, z)| Coord::new(x, y, z)).collect()
}

fn piece(id: usize, name: &str, blocks: &[(i32, i32, i32)]) -> Piece {
    Piece::new(id, name.to_string(), Color::Red, Orintaion::new(coords(blocks)))
}

fn sorted_blocks(o: &Orintaion) -> Vec<(i32, i32, i32)> {
    let mut v: Vec<(i32, i32, i32)> = o.blocks.iter().map(|c| (c.x, c.y, c.z)).collect();
    v.sort();
    v
}

#[test]
fn bitset_ops() {
    let a = Bitset::from(0b1100u64);
    let b = Bitset::from(0b1010u64);
    assert_eq!(a.and(&b).bits, 0b1000u64);
    assert_eq!(a.or(&b).bits, 0b1110u64);
    assert_eq!(a.xor(&b).bits, 0b0110u64);
    assert_eq!(a.not().bits, !0b1100u64);
    assert_eq!(Bitset::empty().bits, 0u64);
    assert_eq!(Bitset::full().bits, !0u64);
}

#[test]
fn bitset_set_get() {
    let mut m = Bitset::empty();
    m.set(0);
    m.set(63);
    assert!(m.get(0));
    assert!(m.get(63));
    assert!(!m.get(1));
    assert_eq!(m.bits, (1u64 << 63) | 1u64);
}

#[test]
fn block_offset_formula() {
    let b = Block::new(Coord::new(1, 2, 3), 4);
    assert_eq!(b.offset, 1 + 2 * 4 + 3 * 16);
    assert_eq!(Block::to_offset(Coord::new(3, 3, 3), 4), 63);
    assert_eq!(Block::to_offset(Coord::new(0, 0, 0), 4), 0);
}

#[test]
fn normalise_anchors_at_origin() {
    let o = Orintaion::new(coords(&[(2, 3, 5), (3, 3, 5), (2, 4, 7)]));
    let n = o.normalise();
    assert_eq!(sorted_blocks(&n), vec![(0, 0, 0), (0, 1, 2), (1, 0, 0)]);
}

#[test]
fn char_id_digits_and_letters() {
    assert_eq!(piece(0, "a", &[(0, 0, 0)]).char_id(), '0');
    assert_eq!(piece(9, "b", &[(0, 0, 0)]).char_id(), '9');
    assert_eq!(piece(10, "c", &[(0, 0, 0)]).char_id(), 'A');
    assert_eq!(piece(35, "d", &[(0, 0, 0)]).char_id(), 'Z');
}

#[test]
fn colored_id_carries_the_character() {
    let p = piece(7, "seven", &[(0, 0, 0)]);
    assert!(p.colored_id().contains('7'));
}

#[test]
fn colored_name_carries_the_name() {
    let p = piece(1, "tee", &[(0, 0, 0)]);
    assert!(p.colored_name().contains("tee"));
}

#[test]
fn color_color_carries_text() {
    assert!(Color::Blue.color("hello").contains("hello"));
}

// Unit cube: exactly one orientation, and one placement per grid cell.
#[test]
fn unit_cube_orientations_and_placements() {
    let p = piece(0, "cube", &[(0, 0, 0)]);
    assert_eq!(p.orintations.len(), 1);
    assert_eq!(p.placements.len(), 64);
}

// All orientations: between 1 and 24 results, pairwise distinct as sets.
#[test]
fn orientation_count_bounds_and_distinct() {
    let shapes: Vec<Vec<Coord>> = vec![
        coords(&[(0, 0, 0)]),
        coords(&[(0, 0, 0), (1, 0, 0), (2, 0, 0)]),
        coords(&[(0, 0, 0), (1, 0, 0), (0, 1, 0)]),
        coords(&[(0, 0, 0), (1, 0, 0), (0, 1, 0), (0, 0, 1)]),
        coords(&[(0, 0, 0), (1, 0, 0), (2, 0, 0), (2, 1, 0), (2, 1, 1)]),
    ];
    for blocks in shapes {
        let oris = Orintaion::new(blocks).all_orintations();
        assert!(1 <= oris.len() && oris.len() <= 24);
        for i in 0..oris.len() {
            for j in (i + 1)..oris.len() {
                assert_ne!(sorted_blocks(&oris[i]), sorted_blocks(&oris[j]));
            }
        }
    }
}

// Re-running the enumeration from any returned orientation yields the same
// set of orientations.
#[test]
fn orientation_set_independent_of_start() {
    let oris = Orintaion::new(coords(&[(0, 0, 0), (1, 0, 0), (0, 1, 0)])).all_orintations();
    let mut base: Vec<Vec<(i32, i32, i32)>> = oris.iter().map(sorted_blocks).collect();
    base.sort();
    for o in &oris {
        let rerun = Orintaion::new(o.blocks.clone()).all_orintations();
        let mut again: Vec<Vec<(i32, i32, i32)>> = rerun.iter().map(sorted_blocks).collect();
        again.sort();
        assert_eq!(base, again);
    }
}

// A shape with 4-fold rotational symmetry about one axis (the plus-shaped
// flat pentomino): at most 24/4 = 6 distinct orientations, strictly fewer
// than 24, and the count divides the group order 24.
#[test]
fn symmetric_piece_has_few_orientations() {
    let plus = coords(&[(1, 0, 0), (0, 1, 0), (1, 1, 0), (2, 1, 0), (1, 2, 0)]);
    let oris = Orintaion::new(plus).all_orintations();
    let n = oris.len();
    assert!(n <= 6);
    assert!(n < 24);
    assert_eq!(24 % n, 0);
}

// Equal placement masks of the same piece are no false collision: the unit
// cube's 64 placements are pairwise distinct masks on distinct cells.
#[test]
fn unit_cube_placements_distinct() {
    let p = piece(0, "cube", &[(0, 0, 0)]);
    for i in 0..p.placements.len() {
        for j in (i + 1)..p.placements.len() {
            assert_ne!(p.placements[i].bits, p.placements[j].bits);
        }
    }
}

// A shape that cannot fit the grid at any translation degrades gracefully to
// zero placements.
#[test]
fn oversized_piece_has_no_placement() {
    let line5 = Orintaion::new(coords(&[(0, 0, 0), (1, 0, 0), (2, 0, 0), (3, 0, 0), (4, 0, 0)]));
    assert_eq!(line5.placements().len(), 0);
}

// Push-then-pop is a no-op on occupancy and decision stack.
#[test]
fn place_pop_roundtrip() {
    let mut p = Placement::new();
    p.place(3, Bitset::from(0x0Fu64));
    let occ_before = p.occupied.bits;
    let len_before = p.placed.len();
    p.place(5, Bitset::from(0xF0u64));
    let popped = p.pop().unwrap();
    assert_eq!(popped.0, 5);
    assert_eq!(popped.1.bits, 0xF0u64);
    assert_eq!(p.occupied.bits, occ_before);
    assert_eq!(p.placed.len(), len_before);
    assert_eq!(p.pop().unwrap().0, 3);
    assert_eq!(p.occupied.bits, 0);
    assert!(p.pop().is_none());
}

// is_valid rejects any mask sharing a set bit with occupancy, accepts any
// sharing none.
#[test]
fn is_valid_exact() {
    let mut p = Placement::new();
    assert!(p.is_valid(Bitset::full()));
    p.place(0, Bitset::from(0x0Fu64));
    assert!(!p.is_valid(Bitset::from(0x08u64)));
    assert!(!p.is_valid(Bitset::full()));
    assert!(p.is_valid(Bitset::from(0xF0u64)));
    assert!(p.is_valid(Bitset::empty()));
}

#[test]
fn still_possible_detects_blocked_piece() {
    let pieces = vec![piece(0, "cube", &[(0, 0, 0)])];
    let puzzle = Puzzle::new("t".to_string(), Coord::new(4, 4, 4), pieces);
    let solver = Solver::new();
    let remaining = vec![0usize];
    assert!(solver.still_possible(&puzzle, &Bitset::empty(), &remaining));
    assert!(solver.still_possible(&puzzle, &Bitset::from(!1u64), &remaining));
    assert!(!solver.still_possible(&puzzle, &Bitset::full(), &remaining));
}

// Mask of all cells outside the 2x2x2 corner region x,y,z in {0,1}.
fn blocker_outside_corner_cube() -> u64 {
    !0x0033_0033u64
}

// A single piece covering the whole free region in one fixed orientation:
// exactly one solution report, with occupancy equal to the full-grid mask.
#[test]
fn single_piece_fills_region_once() {
    let cube8 = piece(
        0,
        "cube8",
        &[
            (0, 0, 0),
            (1, 0, 0),
            (0, 1, 0),
            (1, 1, 0),
            (0, 0, 1),
            (1, 0, 1),
            (0, 1, 1),
            (1, 1, 1),
        ],
    );
    assert_eq!(cube8.orintations.len(), 1);
    assert_eq!(cube8.placements.len(), 27);
    let puzzle = Puzzle::new("t".to_string(), Coord::new(4, 4, 4), vec![cube8]);
    let mut placement = Placement::new();
    placement.place(9, Bitset::from(blocker_outside_corner_cube()));
    let mut solver = Solver::new();
    solver.solve(&puzzle, &mut placement, &vec![0usize]);
    assert_eq!(solver.num_solutions, 1);
    assert_eq!(solver.solutions.len(), 1);
    assert_eq!(solver.solutions[0].occupied.bits, !0u64);
    assert_eq!(solver.solutions[0].placed.last().unwrap().1.bits, 0x0033_0033u64);
    // the board state is restored after the search
    assert_eq!(placement.placed.len(), 1);
    assert_eq!(placement.occupied.bits, blocker_outside_corner_cube());
}

// Unit cubes filling a small free region: exactly one distinct final
// occupancy (the full grid), reported once per (piece order, cell order)
// insertion path: (3!)^2 = 36 literal reports for three cubes on three cells.
#[test]
fn interchangeable_unit_cubes_duplicate_reports() {
    let pieces = vec![
        piece(0, "a", &[(0, 0, 0)]),
        piece(1, "b", &[(0, 0, 0)]),
        piece(2, "c", &[(0, 0, 0)]),
    ];
    let puzzle = Puzzle::new("t".to_string(), Coord::new(4, 4, 4), pieces);
    let free_cells = 0b10011u64;  // cells 0, 1, 4
    let mut placement = Placement::new();
    placement.place(9, Bitset::from(!free_cells));
    let mut solver = Solver::new();
    solver.solve(&puzzle, &mut placement, &vec![0usize, 1, 2]);
    assert_eq!(solver.num_solutions, 36);
    for sol in &solver.solutions {
        assert_eq!(sol.occupied.bits, !0u64);
        assert_eq!(sol.placed.len(), 4);
    }
    // the enumeration order is fixed: pieces in set order, placements in
    // precomputed order (cell 0 first, then cell 4, then cell 1)
    assert_eq!(solver.solutions[0].placed[1], (0, Bitset::from(0x01u64)));
    assert_eq!(solver.solutions[0].placed[2], (1, Bitset::from(0x10u64)));
    assert_eq!(solver.solutions[0].placed[3], (2, Bitset::from(0x02u64)));
}

// corner_solve with an empty corner list behaves exactly as solve.
#[test]
fn empty_corner_list_equals_plain_solve() {
    let pieces = vec![
        piece(0, "a", &[(0, 0, 0)]),
        piece(1, "b", &[(0, 0, 0)]),
        piece(2, "c", &[(0, 0, 0)]),
    ];
    let puzzle = Puzzle::new("t".to_string(), Coord::new(4, 4, 4), pieces);
    let free_cells = 0b10011u64;
    let remaining = vec![0usize, 1, 2];

    let mut placement1 = Placement::new();
    placement1.place(9, Bitset::from(!free_cells));
    let mut solver1 = Solver::new();
    solver1.solve(&puzzle, &mut placement1, &remaining);

    let mut placement2 = Placement::new();
    placement2.place(9, Bitset::from(!free_cells));
    let mut solver2 = Solver::new();
    solver2.corner_solve(&puzzle, &mut placement2, &vec![], &remaining);

    assert_eq!(solver1.num_solutions, solver2.num_solutions);
    for (a, b) in solver1.solutions.iter().zip(solver2.solutions.iter()) {
        assert_eq!(a.occupied.bits, b.occupied.bits);
        assert_eq!(a.placed, b.placed);
    }
}

// A corner mask forces the first placement to cover that cell; the reachable
// final occupancies stay the same, only the report count narrows.
#[test]
fn corner_solve_forces_corner_first() {
    let pieces = vec![
        piece(0, "a", &[(0, 0, 0)]),
        piece(1, "b", &[(0, 0, 0)]),
        piece(2, "c", &[(0, 0, 0)]),
    ];
    let puzzle = Puzzle::new("t".to_string(), Coord::new(4, 4, 4), pieces);
    let free_cells = 0b10011u64;
    let mut placement = Placement::new();
    placement.place(9, Bitset::from(!free_cells));
    let mut solver = Solver::new();
    solver.corner_solve(
        &puzzle,
        &mut placement,
        &vec![Bitset::from(1u64)],
        &vec![0usize, 1, 2],
    );
    // 3 choices of piece for cell 0, then (2!)^2 orderings of the rest
    assert_eq!(solver.num_solutions, 12);
    for sol in &solver.solutions {
        assert_eq!(sol.occupied.bits, !0u64);
        // the placement made at the corner level covers cell 0
        assert_ne!(sol.placed[1].1.bits & 1u64, 0u64);
    }
}
