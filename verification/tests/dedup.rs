use cube_solver::dedup::{filter_unique_solutions, hash_solution, is_rotation_of, rotate_all};
use cube_solver::geometry::Axis;
use cube_solver::search::Solution;
use cube_solver::transform::rotate_piece_90;

/// Thirteen masks that tile the cube: twelve of five cells and one of four.
fn strips() -> Solution {
    let mut masks = [0u64; 13];
    for p in 0..12 {
        masks[p] = 0b11111u64 << (5 * p);
    }
    masks[12] = 0b1111u64 << 60;
    Solution(masks)
}

/// The tiling `strips` with the masks of the pieces 0 and 1 exchanged.
fn swapped() -> Solution {
    let mut masks = strips().0;
    masks.swap(0, 1);
    Solution(masks)
}

fn turned(solution: Solution, axes: &[Axis]) -> Solution {
    let mut masks = solution.0;
    for axis in axes {
        rotate_all(&mut masks, *axis);
    }
    Solution(masks)
}

#[test]
fn fingerprint_of_the_empty_solution_is_zero() {
    assert_eq!(hash_solution(&Solution([0; 13])), 0);
}

#[test]
fn fingerprint_shifts_each_mask_by_the_number_of_its_piece() {
    let mut masks = [0u64; 13];
    masks[0] = 1;
    masks[1] = 1;
    masks[2] = 1;
    assert_eq!(hash_solution(&Solution(masks)), 0b111);
    for p in 0..13 {
        let mut one = [0u64; 13];
        one[p] = 0b101;
        assert_eq!(hash_solution(&Solution(one)), 0b101 << p);
    }
}

#[test]
fn fingerprint_combines_by_exclusive_or() {
    let mut masks = [0u64; 13];
    masks[0] = 0b110;
    masks[1] = 0b011;
    // 0b110 ^ (0b011 << 1) = 0b110 ^ 0b110
    assert_eq!(hash_solution(&Solution(masks)), 0);
}

#[test]
fn fingerprint_loses_the_bits_shifted_out() {
    let mut masks = [0u64; 13];
    masks[1] = 1 << 63;
    masks[3] = 0xff;
    assert_eq!(hash_solution(&Solution(masks)), 0x7f8);
    let mut high = [0u64; 13];
    high[12] = 0xfff0_0000_0000_000f;
    assert_eq!(hash_solution(&Solution(high)), 0xf000);
}

#[test]
fn fingerprint_depends_on_which_piece_has_which_mask() {
    assert_eq!(hash_solution(&strips()), 0xf7df_7df7_df7d_f7df);
    assert_eq!(hash_solution(&swapped()), 0xf7df_7df7_df7d_f3de);
}

#[test]
fn rotate_all_turns_every_mask() {
    let before = strips().0;
    for axis in [Axis::X, Axis::Y, Axis::Z] {
        let mut masks = before;
        rotate_all(&mut masks, axis);
        for p in 0..13 {
            assert_eq!(masks[p], rotate_piece_90(before[p], axis));
        }
    }
}

#[test]
fn rotate_all_about_x_of_a_given_solution() {
    let mut masks = strips().0;
    rotate_all(&mut masks, Axis::X);
    let expected: [u64; 13] = [
        0x888c,
        0x4462,
        0x2311,
        0x88881000,
        0x44460000,
        0x22310000,
        0x88811000000,
        0xc44400000000,
        0x222300000000,
        0x88111000000000,
        0x8c44000000000000,
        0x6222000000000000,
        0x1111000000000000,
    ];
    assert_eq!(masks, expected);
}

#[test]
fn no_solutions_give_no_unique_solutions() {
    assert_eq!(filter_unique_solutions(&Vec::new()), Vec::<Solution>::new());
}

#[test]
fn a_single_solution_is_unique() {
    assert_eq!(filter_unique_solutions(&vec![strips()]), vec![strips()]);
}

#[test]
fn a_repeated_solution_is_kept_once() {
    let a = strips();
    assert_eq!(filter_unique_solutions(&vec![a, a, a]), vec![a]);
}

#[test]
fn a_rotation_of_a_kept_solution_is_dropped() {
    let a = strips();
    let b = swapped();
    let ra = turned(a, &[Axis::X]);
    let rb = turned(b, &[Axis::Z, Axis::Y]);
    assert_eq!(filter_unique_solutions(&vec![a, ra, b, a, rb]), vec![a, b]);
    assert_eq!(filter_unique_solutions(&vec![ra, b, a]), vec![ra, b]);
    assert_eq!(filter_unique_solutions(&vec![b, rb, rb, a, ra, b]), vec![b, a]);
}

#[test]
fn every_rotation_of_a_solution_is_a_duplicate_of_it() {
    let a = strips();
    let mut all: Vec<Solution> = vec![a];
    let mut masks = a.0;
    for _ in 0..4 {
        for _ in 0..4 {
            for _ in 0..4 {
                rotate_all(&mut masks, Axis::X);
                all.push(Solution(masks));
            }
            rotate_all(&mut masks, Axis::Y);
            all.push(Solution(masks));
        }
        rotate_all(&mut masks, Axis::Z);
        all.push(Solution(masks));
    }
    assert_eq!(all.len(), 85);
    assert_eq!(filter_unique_solutions(&all), vec![a]);
    for rotated in all.iter() {
        assert_eq!(filter_unique_solutions(&vec![a, *rotated]), vec![a]);
    }
}

#[test]
fn solutions_that_are_no_rotations_of_each_other_are_both_kept() {
    let a = strips();
    let b = swapped();
    assert_eq!(filter_unique_solutions(&vec![a, b]), vec![a, b]);
    assert_eq!(filter_unique_solutions(&vec![b, a]), vec![b, a]);
}

#[test]
fn solutions_with_one_fingerprint_are_told_apart_by_their_masks() {
    // The same tiling of the cells, but the pieces 11 and 12 cover other
    // cells; what tells the two apart is shifted out of the fingerprint.
    let a = strips();
    let mut masks = a.0;
    masks[11] = 0b11111u64 << 59;
    masks[12] = 0b1111u64 << 55;
    let c = Solution(masks);
    assert_ne!(a, c);
    assert_eq!(hash_solution(&a), hash_solution(&c));
    assert_eq!(filter_unique_solutions(&vec![a, c]), vec![a, c]);
    assert_eq!(filter_unique_solutions(&vec![c, a]), vec![c, a]);
    assert_eq!(filter_unique_solutions(&vec![a, c, a, c]), vec![a, c]);
}

#[test]
fn a_clash_of_fingerprints_merges_nothing() {
    let mut first = [0u64; 13];
    first[0] = 2;
    let mut second = [0u64; 13];
    second[1] = 1;
    // The cell 0 of the second, turned to the opposite corner of the cube.
    let mut third = [0u64; 13];
    third[1] = 1 << 63;
    let (first, second, third) = (Solution(first), Solution(second), Solution(third));
    assert_eq!(hash_solution(&first), 2);
    assert_eq!(hash_solution(&second), 2);
    assert!(is_rotation_of(&second, &third));
    assert!(!is_rotation_of(&first, &second));
    assert_eq!(filter_unique_solutions(&vec![first, second]), vec![first, second]);
    assert_eq!(filter_unique_solutions(&vec![first, second, third]), vec![first, second]);
    assert_eq!(filter_unique_solutions(&vec![second, third, first]), vec![second, first]);
}

#[test]
fn a_solution_is_a_rotation_of_itself_and_of_its_turns() {
    let a = strips();
    assert!(is_rotation_of(&a, &a));
    assert!(is_rotation_of(&a, &turned(a, &[Axis::X])));
    assert!(is_rotation_of(&a, &turned(a, &[Axis::Z, Axis::Y, Axis::X, Axis::X])));
    assert!(is_rotation_of(&turned(a, &[Axis::Y]), &a));
    assert!(!is_rotation_of(&a, &swapped()));
    assert!(!is_rotation_of(&swapped(), &turned(a, &[Axis::Z])));
}

#[test]
fn a_rotation_is_looked_for_among_all_kept_solutions() {
    let a = strips();
    let b = swapped();
    let rb = turned(b, &[Axis::Y, Axis::Y]);
    let ra = turned(a, &[Axis::Z]);
    assert_eq!(filter_unique_solutions(&vec![a, rb]), vec![a, rb]);
    assert_eq!(filter_unique_solutions(&vec![a, b, rb, ra]), vec![a, b]);
    assert_eq!(filter_unique_solutions(&vec![b, a, ra, rb, a, b]), vec![b, a]);
}

#[test]
fn many_solutions_with_one_fingerprint_are_all_kept() {
    // Piece 0 on one cell after the other, shifted to the same fingerprint.
    let mut all: Vec<Solution> = Vec::new();
    for p in 0..13 {
        let mut masks = [0u64; 13];
        masks[p] = 1 << (20 - p);
        all.push(Solution(masks));
    }
    for solution in all.iter() {
        assert_eq!(hash_solution(solution), 1 << 20);
    }
    assert_eq!(filter_unique_solutions(&all), all);
    let mut twice = all.clone();
    twice.extend(all.iter().copied());
    assert_eq!(filter_unique_solutions(&twice), all);
}
