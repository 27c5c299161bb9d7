use cube_solver::coverage::build_coverage_index;
use cube_solver::search::{search, Solution, ALL_PIECES};
use cube_solver::stats::Stats;

/// Thirteen masks that tile the cube: twelve of five cells and one of four.
fn strips() -> [u64; 13] {
    let mut masks = [0u64; 13];
    for p in 0..12 {
        masks[p] = 0b11111u64 << (5 * p);
    }
    masks[12] = 0b1111u64 << 60;
    masks
}

fn run(placements: &Vec<Vec<u64>>) -> (Vec<Solution>, Stats) {
    let index = build_coverage_index(placements);
    let mut picks = [0u64; 13];
    let mut stats = Stats::new();
    let mut solutions: Vec<Solution> = Vec::new();
    search(0, 0, &index, &mut picks, &mut stats, &mut solutions);
    (solutions, stats)
}

fn assert_exact_cover(solution: &Solution) {
    let mut union: u64 = 0;
    for p in 0..13 {
        for q in (p + 1)..13 {
            assert_eq!(solution.0[p] & solution.0[q], 0);
        }
        union |= solution.0[p];
    }
    assert_eq!(union, u64::MAX);
}

#[test]
fn all_pieces_mask_has_thirteen_bits() {
    assert_eq!(ALL_PIECES, (1 << 13) - 1);
}

#[test]
fn default_solution_is_empty() {
    assert_eq!(Solution::default(), Solution([0; 13]));
}

#[test]
fn one_placement_each_gives_the_one_solution() {
    let masks = strips();
    let placements: Vec<Vec<u64>> = masks.iter().map(|m| vec![*m]).collect();
    let (solutions, stats) = run(&placements);
    assert_eq!(solutions, vec![Solution(masks)]);
    assert_exact_cover(&solutions[0]);
    // Thirteen states that were extended, and the solution.
    assert_eq!(stats.num_permutations, 14);
    assert_eq!(stats.num_solutions, 1);
}

#[test]
fn pieces_are_found_whatever_their_numbers() {
    let mut masks = strips();
    masks.reverse();
    let placements: Vec<Vec<u64>> = masks.iter().map(|m| vec![*m]).collect();
    let (solutions, stats) = run(&placements);
    assert_eq!(solutions, vec![Solution(masks)]);
    assert_eq!((stats.num_permutations, stats.num_solutions), (14, 1));
}

#[test]
fn placements_that_overlap_or_lead_nowhere_are_dead_ends() {
    let masks = strips();
    let mut placements: Vec<Vec<u64>> = masks.iter().map(|m| vec![*m]).collect();
    // A second placement for piece 0 that covers cell 0 but blocks piece 1.
    placements[0].push(0b100111);
    // A second placement for piece 3 that overlaps piece 2.
    placements[3].push(0b11111u64 << 14);
    let (solutions, stats) = run(&placements);
    assert_eq!(solutions, vec![Solution(masks)]);
    // The root, twelve more states on the way to the solution and the
    // solution; the state after the blocking placement, where piece 1 is
    // tried at cell 3 and does not fit; nothing for the overlapping one.
    assert_eq!(stats.num_permutations, 15);
    assert_eq!(stats.num_solutions, 1);
}

#[test]
fn two_ways_to_fill_a_gap_give_two_solutions() {
    let mut masks = strips();
    // Pieces 11 and 12 share the last nine cells in two ways.
    masks[11] = 0b11111u64 << 55;
    masks[12] = 0b1111u64 << 60;
    let mut placements: Vec<Vec<u64>> = masks.iter().map(|m| vec![*m]).collect();
    placements[11].push(0b11111u64 << 59);
    placements[12].push(0b1111u64 << 55);
    let (solutions, stats) = run(&placements);
    let mut other = masks;
    other[11] = 0b11111u64 << 59;
    other[12] = 0b1111u64 << 55;
    assert_eq!(solutions, vec![Solution(masks), Solution(other)]);
    for solution in solutions.iter() {
        assert_exact_cover(solution);
    }
    // Eleven states up to the gap, then for each way a state and a solution,
    // and the state where the gap opens.
    assert_eq!(stats.num_permutations, 16);
    assert_eq!(stats.num_solutions, 2);
}

#[test]
fn a_cube_not_filled_by_all_pieces_is_no_solution() {
    // The pieces have 63 cells between them: the last cell stays empty.
    let mut masks = strips();
    masks[12] = 0b111u64 << 60;
    let placements: Vec<Vec<u64>> = masks.iter().map(|m| vec![*m]).collect();
    let (solutions, stats) = run(&placements);
    assert!(solutions.is_empty());
    // The state with every piece used counts as a dead end like the others.
    assert_eq!((stats.num_permutations, stats.num_solutions), (14, 0));
}

#[test]
fn thirteen_single_cells_are_no_solution() {
    // Piece p can only cover the cell p; the cells from 13 on stay empty.
    let placements: Vec<Vec<u64>> = (0..13).map(|p| vec![1u64 << p]).collect();
    let (solutions, stats) = run(&placements);
    assert!(solutions.is_empty());
    assert_eq!((stats.num_permutations, stats.num_solutions), (14, 0));
}

#[test]
fn a_full_state_with_every_piece_used_is_recorded_as_it_stands() {
    let index: Vec<Vec<Vec<u64>>> = vec![vec![Vec::new(); 13]; 64];
    let mut picks = [7u64; 13];
    let mut stats = Stats::new();
    let mut solutions: Vec<Solution> = Vec::new();
    search(u64::MAX, ALL_PIECES, &index, &mut picks, &mut stats, &mut solutions);
    assert_eq!(solutions, vec![Solution([7; 13])]);
    assert_eq!((stats.num_permutations, stats.num_solutions), (1, 1));
    assert_eq!(picks, [7u64; 13]);
}

#[test]
fn a_state_with_every_piece_used_and_a_cell_empty_is_a_dead_end() {
    let index: Vec<Vec<Vec<u64>>> = vec![vec![Vec::new(); 13]; 64];
    let mut picks = [7u64; 13];
    let mut stats = Stats::new();
    let mut solutions: Vec<Solution> = Vec::new();
    search(u64::MAX >> 1, ALL_PIECES, &index, &mut picks, &mut stats, &mut solutions);
    assert!(solutions.is_empty());
    assert_eq!((stats.num_permutations, stats.num_solutions), (1, 0));
    assert_eq!(picks, [7u64; 13]);
}

#[test]
fn pieces_with_more_than_64_cells_are_never_all_placed() {
    let mut masks = strips();
    masks[12] = 0b11111u64 << 59;
    let placements: Vec<Vec<u64>> = masks.iter().map(|m| vec![*m]).collect();
    let (solutions, stats) = run(&placements);
    assert!(solutions.is_empty());
    // The state with twelve pieces placed is the last: piece 12 does not fit.
    assert_eq!((stats.num_permutations, stats.num_solutions), (13, 0));
}

#[test]
fn a_full_cube_with_a_piece_left_over_is_no_solution() {
    let mut masks = strips();
    masks[11] = 0b111111111u64 << 55;
    masks[12] = 0;
    let placements: Vec<Vec<u64>> = masks.iter().map(|m| vec![*m]).collect();
    let (solutions, stats) = run(&placements);
    assert!(solutions.is_empty());
    assert_eq!((stats.num_permutations, stats.num_solutions), (13, 0));
}

#[test]
fn an_empty_index_gives_one_dead_end() {
    let placements: Vec<Vec<u64>> = vec![Vec::new(); 13];
    let (solutions, stats) = run(&placements);
    assert!(solutions.is_empty());
    assert_eq!((stats.num_permutations, stats.num_solutions), (1, 0));
}

#[test]
fn search_adds_to_what_was_found_and_counted_before() {
    let masks = strips();
    let placements: Vec<Vec<u64>> = masks.iter().map(|m| vec![*m]).collect();
    let index = build_coverage_index(&placements);
    let mut picks = [0u64; 13];
    let mut stats = Stats { num_permutations: 100, num_solutions: 7 };
    let earlier = Solution([9; 13]);
    let mut solutions: Vec<Solution> = vec![earlier];
    search(0, 0, &index, &mut picks, &mut stats, &mut solutions);
    assert_eq!(solutions, vec![earlier, Solution(masks)]);
    assert_eq!((stats.num_permutations, stats.num_solutions), (114, 8));
}

#[test]
fn search_from_a_partial_state_keeps_the_picks_made() {
    let masks = strips();
    let placements: Vec<Vec<u64>> = masks.iter().map(|m| vec![*m]).collect();
    let index = build_coverage_index(&placements);
    let mut picks = [0u64; 13];
    picks[0] = masks[0];
    picks[1] = masks[1];
    let mut stats = Stats::new();
    let mut solutions: Vec<Solution> = Vec::new();
    search(masks[0] | masks[1], 0b11, &index, &mut picks, &mut stats, &mut solutions);
    assert_eq!(solutions, vec![Solution(masks)]);
    assert_eq!((stats.num_permutations, stats.num_solutions), (12, 1));
    assert_eq!(picks[0], masks[0]);
    assert_eq!(picks[1], masks[1]);
}
