use cube_solver::dedup::filter_unique_solutions;
use cube_solver::placements::generate_placements;
use cube_solver::search::Solution;
use cube_solver::solver::find_solutions;
use cube_solver::text::{parse_pieces, write_solution};

/// Thirteen pieces that tile the cube in one way, up to rotation of the
/// cube. Each spans the cube along every axis, so it can only be turned.
fn rigid_pieces() -> Vec<u64> {
    vec![
        0x1000020000400008,
        0x0001083000008000,
        0x0800000002012040,
        0x01200040000a4000,
        0x8200400004000001,
        0x0004140400000480,
        0x0002800020000210,
        0x2000000108800800,
        0x0400208001040020,
        0x4000000a40000100,
        0x0080000010000004,
        0x0048000000301000,
        0x0010010080000002,
    ]
}

fn assert_tiling(pieces: &[u64], solution: &Solution) {
    let mut union: u64 = 0;
    for p in 0..13 {
        for q in (p + 1)..13 {
            assert_eq!(solution.0[p] & solution.0[q], 0);
        }
        union |= solution.0[p];
        assert!(generate_placements(pieces[p]).contains(&solution.0[p]));
    }
    assert_eq!(union, u64::MAX);
}

#[test]
fn the_rigid_pieces_partition_the_cube() {
    let pieces = rigid_pieces();
    let mut union: u64 = 0;
    let mut cells: u32 = 0;
    for piece in pieces.iter() {
        assert_eq!(union & piece, 0);
        union |= piece;
        cells += piece.count_ones();
    }
    assert_eq!(union, u64::MAX);
    assert_eq!(cells, 64);
}

#[test]
fn pieces_with_one_fit_give_one_unique_solution() {
    let pieces = rigid_pieces();
    let (solutions, stats) = find_solutions(&pieces);
    // The one tiling, found in each of the 24 rotations of the cube.
    assert_eq!(solutions.len(), 24);
    assert_eq!(stats.num_solutions, 24);
    assert_eq!(stats.num_permutations, 1_994_417);
    assert!(solutions.contains(&Solution(<[u64; 13]>::try_from(pieces.clone()).unwrap())));
    for solution in solutions.iter() {
        assert_tiling(&pieces, solution);
    }
    for (i, a) in solutions.iter().enumerate() {
        for b in solutions[i + 1..].iter() {
            assert_ne!(a, b);
        }
    }
    let unique = filter_unique_solutions(&solutions);
    assert_eq!(unique.len(), 1);
    assert_eq!(unique[0], solutions[0]);
}

#[test]
fn pieces_with_too_few_cells_give_no_solution() {
    // Thirteen times the four corners of a tetrahedron: 52 cells. A piece
    // fits in two ways, and no piece covers the cell next to a corner.
    let pieces: Vec<u64> = vec![0x1008_0000_0000_8001; 13];
    for piece in generate_placements(pieces[0]) {
        assert_eq!(piece.count_ones(), 4);
    }
    let (solutions, stats) = find_solutions(&pieces);
    assert!(solutions.is_empty());
    // The empty cube, and each piece in turn on the first cell.
    assert_eq!((stats.num_permutations, stats.num_solutions), (14, 0));
    assert!(filter_unique_solutions(&solutions).is_empty());
}

#[test]
fn pieces_that_fit_together_but_leave_a_cell_empty_give_no_solution() {
    // The rigid pieces, one of them without one of its cells: 63 cells.
    let mut pieces = rigid_pieces();
    pieces[3] = 0x0120_0040_0002_4000;
    assert_eq!(pieces.iter().map(|p| p.count_ones()).sum::<u32>(), 63);
    let (solutions, stats) = find_solutions(&pieces);
    assert!(solutions.is_empty());
    assert_eq!((stats.num_permutations, stats.num_solutions), (2_988_616, 0));
}

#[test]
fn pieces_without_a_cell_leave_too_few_cells() {
    // Three layers and ten pieces without a cell: 48 cells.
    let mut pieces: Vec<u64> = vec![0xffff; 3];
    pieces.resize(13, 0);
    let (solutions, stats) = find_solutions(&pieces);
    assert!(solutions.is_empty());
    assert_eq!((stats.num_permutations, stats.num_solutions), (46, 0));
}

#[test]
fn pieces_with_too_many_cells_give_no_solution() {
    // Thirteen layers: 208 cells.
    let pieces: Vec<u64> = vec![0xffff; 13];
    let (solutions, stats) = find_solutions(&pieces);
    assert!(solutions.is_empty());
    assert_eq!((stats.num_permutations, stats.num_solutions), (57_136, 0));
}

#[test]
fn a_piece_without_a_cell_is_never_placed() {
    // Four layers fill the cube, but nine pieces stay unused.
    let mut pieces: Vec<u64> = vec![0xffff; 4];
    pieces.resize(13, 0);
    let (solutions, stats) = find_solutions(&pieces);
    assert!(solutions.is_empty());
    assert_eq!((stats.num_permutations, stats.num_solutions), (193, 0));
}

#[test]
fn pieces_read_from_text_are_searched() {
    let layer = "layer\n1111\n1111\n1111\n1111\n0000\n0000\n0000\n0000\n";
    let nothing = "nothing\n0000\n0000\n0000\n0000\n0000\n0000\n0000\n0000\n";
    let text = format!("{}{}", layer.repeat(4), nothing.repeat(9));
    let pieces = parse_pieces(text.as_bytes()).unwrap();
    assert_eq!(pieces.len(), 13);
    assert_eq!(pieces[0], 0x1111_1111_1111_1111);
    assert_eq!(pieces[3], 0x1111_1111_1111_1111);
    assert_eq!(pieces[4], 0);
    let (solutions, stats) = find_solutions(&pieces);
    assert!(solutions.is_empty());
    assert_eq!((stats.num_permutations, stats.num_solutions), (193, 0));
}

#[test]
fn the_unique_solution_is_written_with_a_letter_for_each_piece() {
    let pieces = rigid_pieces();
    let (solutions, _) = find_solutions(&pieces);
    let unique = filter_unique_solutions(&solutions);
    let mut text: Vec<u8> = Vec::new();
    write_solution(&unique[0], &mut text);
    assert_eq!(text.len(), 4 * 29);
    for p in 0..13u8 {
        let letter = b'A' + p;
        let written = text.iter().filter(|b| **b == letter).count() as u32;
        assert_eq!(written, pieces[p as usize].count_ones());
    }
    assert!(!text.contains(&b'0'));
}
