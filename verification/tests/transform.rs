use cube_solver::geometry::{count_cells, pack_bit, unpack_bit, Axis};
use cube_solver::transform::{rotate_piece_90, translate};

fn samples() -> Vec<u64> {
    let mut out: Vec<u64> =
        vec![0, 1, 1 << 63, u64::MAX, 0xffff, 0x0001_0001_0001_0001, 0b0111_0010];
    let mut v: u64 = 0x2545_f491_4f6c_dd1d;
    for _ in 0..40 {
        v ^= v << 13;
        v ^= v >> 7;
        v ^= v << 17;
        out.push(v);
    }
    out
}

#[test]
fn rotation_about_x_moves_a_cell() {
    // The cell (1, 0, 0) is the source of the cell (1, 0, 3).
    assert_eq!(rotate_piece_90(pack_bit(true, 1, 0, 0), Axis::X), pack_bit(true, 1, 0, 3));
    assert_eq!(rotate_piece_90(pack_bit(true, 2, 1, 3), Axis::X), pack_bit(true, 2, 3, 2));
}

#[test]
fn rotation_about_y_moves_a_cell() {
    // The cell (1, 0, 0) is the source of the cell (0, 0, 2).
    assert_eq!(rotate_piece_90(pack_bit(true, 1, 0, 0), Axis::Y), pack_bit(true, 0, 0, 2));
    assert_eq!(rotate_piece_90(pack_bit(true, 2, 1, 3), Axis::Y), pack_bit(true, 3, 1, 1));
}

#[test]
fn rotation_about_z_moves_a_cell() {
    // The cell (1, 0, 0) is the source of the cell (0, 2, 0).
    assert_eq!(rotate_piece_90(pack_bit(true, 1, 0, 0), Axis::Z), pack_bit(true, 0, 2, 0));
    assert_eq!(rotate_piece_90(pack_bit(true, 2, 1, 3), Axis::Z), pack_bit(true, 1, 1, 3));
}

#[test]
fn rotation_reads_each_cell_from_its_source() {
    for v in samples() {
        let rx = rotate_piece_90(v, Axis::X);
        let ry = rotate_piece_90(v, Axis::Y);
        let rz = rotate_piece_90(v, Axis::Z);
        for x in 0..4 {
            for y in 0..4 {
                for z in 0..4 {
                    assert_eq!(unpack_bit(rx, x, y, z), unpack_bit(v, x, 3 - z, y));
                    assert_eq!(unpack_bit(ry, x, y, z), unpack_bit(v, 3 - z, y, x));
                    assert_eq!(unpack_bit(rz, x, y, z), unpack_bit(v, 3 - y, x, z));
                }
            }
        }
    }
}

#[test]
fn four_rotations_about_one_axis_give_the_volume_back() {
    for v in samples() {
        for axis in [Axis::X, Axis::Y, Axis::Z] {
            let mut r = v;
            for _ in 0..4 {
                r = rotate_piece_90(r, axis);
            }
            assert_eq!(r, v);
        }
    }
}

#[test]
fn two_rotations_of_an_asymmetric_piece_differ_from_it() {
    let v: u64 = pack_bit(true, 0, 0, 0) | pack_bit(true, 1, 0, 0) | pack_bit(true, 0, 2, 0);
    for axis in [Axis::X, Axis::Y, Axis::Z] {
        let once = rotate_piece_90(v, axis);
        let twice = rotate_piece_90(once, axis);
        assert_ne!(once, v);
        assert_ne!(twice, v);
    }
}

#[test]
fn rotation_keeps_the_number_of_cells() {
    for v in samples() {
        for axis in [Axis::X, Axis::Y, Axis::Z] {
            assert_eq!(count_cells(rotate_piece_90(v, axis)), count_cells(v));
        }
    }
}

#[test]
fn rotation_of_the_empty_and_the_full_cube() {
    for axis in [Axis::X, Axis::Y, Axis::Z] {
        assert_eq!(rotate_piece_90(0, axis), 0);
        assert_eq!(rotate_piece_90(u64::MAX, axis), u64::MAX);
    }
}

#[test]
fn translation_moves_a_cell() {
    assert_eq!(translate(pack_bit(true, 0, 0, 0), 1, 2, 3), pack_bit(true, 1, 2, 3));
    assert_eq!(translate(pack_bit(true, 3, 3, 3), -3, -2, -1), pack_bit(true, 0, 1, 2));
    assert_eq!(translate(pack_bit(true, 1, 1, 1), 0, 0, 0), pack_bit(true, 1, 1, 1));
}

#[test]
fn translation_drops_cells_that_leave_the_cube() {
    assert_eq!(translate(pack_bit(true, 0, 0, 0), -1, 0, 0), 0);
    assert_eq!(translate(pack_bit(true, 3, 0, 0), 1, 0, 0), 0);
    assert_eq!(translate(pack_bit(true, 0, 3, 0), 0, 1, 0), 0);
    assert_eq!(translate(pack_bit(true, 0, 0, 3), 0, 0, 1), 0);
    let pair: u64 = pack_bit(true, 2, 0, 0) | pack_bit(true, 3, 0, 0);
    assert_eq!(translate(pair, 1, 0, 0), pack_bit(true, 3, 0, 0));
    assert_eq!(translate(u64::MAX, 4, 0, 0), 0);
    assert_eq!(translate(u64::MAX, 0, -4, 0), 0);
}

#[test]
fn translation_by_a_huge_offset_empties_the_cube() {
    assert_eq!(translate(u64::MAX, i32::MAX, 0, 0), 0);
    assert_eq!(translate(u64::MAX, 0, i32::MIN, 0), 0);
    assert_eq!(translate(u64::MAX, i32::MIN, i32::MAX, i32::MIN), 0);
    assert_eq!(translate(1, 0, 0, i32::MAX), 0);
}

#[test]
fn translation_of_a_layer() {
    // The layer x = 0 moved by one along x is the layer x = 1.
    assert_eq!(translate(0xffff, 1, 0, 0), 0xffff_0000);
    // The full cube moved by one along z loses the layer that leaves.
    assert_eq!(translate(u64::MAX, 0, 0, 1), 0xeeee_eeee_eeee_eeee);
    assert_eq!(translate(u64::MAX, 0, 1, 0), 0xfff0_fff0_fff0_fff0);
}

#[test]
fn translation_never_adds_a_cell() {
    for v in samples() {
        for dx in -4..5 {
            for dy in [-4, -1, 0, 2, 4] {
                for dz in [-3, 0, 1] {
                    assert!(count_cells(translate(v, dx, dy, dz)) <= count_cells(v));
                }
            }
        }
    }
}

#[test]
fn translation_keeps_the_count_exactly_when_no_cell_leaves() {
    for v in samples() {
        for dx in -4i32..4 {
            for dy in -4i32..4 {
                for dz in -4i32..4 {
                    let mut fits = true;
                    for x in 0..4i32 {
                        for y in 0..4i32 {
                            for z in 0..4i32 {
                                if unpack_bit(v, x as usize, y as usize, z as usize) {
                                    let (tx, ty, tz) = (x + dx, y + dy, z + dz);
                                    if !(0..4).contains(&tx)
                                        || !(0..4).contains(&ty)
                                        || !(0..4).contains(&tz)
                                    {
                                        fits = false;
                                    }
                                }
                            }
                        }
                    }
                    let moved = translate(v, dx, dy, dz);
                    assert_eq!(count_cells(moved) == count_cells(v), fits);
                }
            }
        }
    }
}
