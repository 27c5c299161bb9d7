use cube_solver::geometry::{count_cells, pack_bit, Axis};
use cube_solver::placements::{
    generate_all_placements, generate_orientations, generate_placements, MaskSet,
};
use cube_solver::transform::{rotate_piece_90, translate};

fn sorted(mut v: Vec<u64>) -> Vec<u64> {
    v.sort();
    v
}

fn has_duplicates(v: &[u64]) -> bool {
    let s = sorted(v.to_vec());
    s.windows(2).any(|w| w[0] == w[1])
}

fn l_tromino() -> u64 {
    pack_bit(true, 0, 0, 0) | pack_bit(true, 1, 0, 0) | pack_bit(true, 0, 1, 0)
}

fn screw() -> u64 {
    pack_bit(true, 0, 0, 0)
        | pack_bit(true, 1, 0, 0)
        | pack_bit(true, 1, 1, 0)
        | pack_bit(true, 1, 1, 1)
}

#[test]
fn mask_set_keeps_the_first_of_equal_masks() {
    let mut set = MaskSet::new();
    assert!(set.insert(5));
    assert!(set.insert(3));
    assert!(!set.insert(5));
    assert!(set.insert(9));
    assert!(!set.insert(3));
    assert_eq!(set.into_vec(), vec![5, 3, 9]);
}

#[test]
fn empty_mask_set_gives_an_empty_list() {
    assert_eq!(MaskSet::new().into_vec(), Vec::<u64>::new());
}

#[test]
fn orientations_of_a_corner_cell_are_the_corners() {
    let corners: Vec<u64> = vec![
        pack_bit(true, 0, 0, 0),
        pack_bit(true, 0, 0, 3),
        pack_bit(true, 0, 3, 0),
        pack_bit(true, 0, 3, 3),
        pack_bit(true, 3, 0, 0),
        pack_bit(true, 3, 0, 3),
        pack_bit(true, 3, 3, 0),
        pack_bit(true, 3, 3, 3),
    ];
    assert_eq!(sorted(generate_orientations(1)), sorted(corners));
}

#[test]
fn orientations_of_the_l_tromino() {
    let expected: Vec<u64> = vec![
        0x10001100, 0x10003, 0x10003000, 0x10011, 0x11000100000000, 0x1100100000000000, 0x13,
        0x13000000000000, 0x3000100000000, 0x3000100000000000, 0x3100, 0x3100000000000000,
        0x80008800, 0x8000c, 0x8000c000, 0x80088, 0x88000800000000, 0x8800800000000000, 0x8c,
        0x8c000000000000, 0xc000800000000, 0xc000800000000000, 0xc800, 0xc800000000000000,
    ];
    assert_eq!(sorted(generate_orientations(l_tromino())), sorted(expected));
}

#[test]
fn orientations_of_symmetric_volumes_are_few() {
    assert_eq!(generate_orientations(0), vec![0]);
    assert_eq!(generate_orientations(u64::MAX), vec![u64::MAX]);
    assert_eq!(generate_orientations(0xffff).len(), 6);
    assert_eq!(generate_orientations(0b1111).len(), 12);
}

#[test]
fn orientations_hold_every_rotation_of_the_piece() {
    let piece = screw();
    let orientations = generate_orientations(piece);
    assert_eq!(orientations.len(), 24);
    assert!(!has_duplicates(&orientations));
    assert!(orientations.contains(&piece));
    for o in orientations.iter() {
        for axis in [Axis::X, Axis::Y, Axis::Z] {
            assert!(orientations.contains(&rotate_piece_90(*o, axis)));
        }
    }
}

#[test]
fn placements_of_a_single_cell_are_the_cells() {
    let placements = generate_placements(1);
    let cells: Vec<u64> = (0..64).map(|c| 1u64 << c).collect();
    assert_eq!(sorted(placements), cells);
}

#[test]
fn placements_of_a_single_cell_elsewhere_are_the_same() {
    let cells: Vec<u64> = (0..64).map(|c| 1u64 << c).collect();
    assert_eq!(sorted(generate_placements(pack_bit(true, 2, 1, 3))), cells);
}

#[test]
fn placements_of_a_layer_are_the_twelve_layers() {
    let expected: Vec<u64> = vec![
        0x1111111111111111,
        0x2222222222222222,
        0x4444444444444444,
        0x8888888888888888,
        0x000f000f000f000f,
        0x00f000f000f000f0,
        0x0f000f000f000f00,
        0xf000f000f000f000,
        0x000000000000ffff,
        0x00000000ffff0000,
        0x0000ffff00000000,
        0xffff000000000000,
    ];
    assert_eq!(sorted(generate_placements(0xffff)), sorted(expected));
}

#[test]
fn placements_of_the_empty_piece_and_of_the_full_cube() {
    assert_eq!(generate_placements(0), vec![0]);
    assert_eq!(generate_placements(u64::MAX), vec![u64::MAX]);
}

#[test]
fn numbers_of_placements_of_small_pieces() {
    assert_eq!(generate_placements(0b11).len(), 144);
    assert_eq!(generate_placements(0b1111).len(), 48);
    assert_eq!(generate_placements(l_tromino()).len(), 432);
    assert_eq!(generate_placements(0x1_0011_0001).len(), 288);
    assert_eq!(generate_placements(screw()).len(), 324);
}

#[test]
fn every_placement_keeps_the_number_of_cells() {
    for piece in [1u64, 0b11, l_tromino(), screw(), 0xffff, 0x0033_0033] {
        let placements = generate_placements(piece);
        assert!(!placements.is_empty());
        for m in placements.iter() {
            assert_eq!(count_cells(*m), count_cells(piece));
        }
    }
}

#[test]
fn placements_hold_no_mask_twice() {
    for piece in [1u64, 0b11, l_tromino(), screw(), 0xffff, u64::MAX, 0] {
        assert!(!has_duplicates(&generate_placements(piece)));
    }
}

#[test]
fn placements_are_the_orientations_moved_without_loss() {
    let piece = screw();
    let mut expected: Vec<u64> = Vec::new();
    for o in generate_orientations(piece) {
        for dx in -4..4 {
            for dy in -4..4 {
                for dz in -4..4 {
                    let m = translate(o, dx, dy, dz);
                    if m.count_ones() == piece.count_ones() && !expected.contains(&m) {
                        expected.push(m);
                    }
                }
            }
        }
    }
    assert_eq!(sorted(generate_placements(piece)), sorted(expected));
}

#[test]
fn placements_do_not_depend_on_where_the_piece_was_drawn() {
    let piece = l_tromino();
    let elsewhere = translate(rotate_piece_90(piece, Axis::Y), 0, 2, 0);
    assert_eq!(elsewhere.count_ones(), 3);
    assert_eq!(sorted(generate_placements(piece)), sorted(generate_placements(elsewhere)));
}

#[test]
fn all_placements_are_those_of_each_piece_in_turn() {
    let pieces: Vec<u64> = vec![1, 0xffff, l_tromino()];
    let all = generate_all_placements(&pieces);
    assert_eq!(all.len(), 3);
    for (p, piece) in pieces.iter().enumerate() {
        assert_eq!(all[p], generate_placements(*piece));
    }
    assert!(generate_all_placements(&Vec::new()).is_empty());
}
