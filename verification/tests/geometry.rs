use cube_solver::geometry::{
    count_cells, pack_bit, unpack_bit, BlockIndex, Coords, CUBE_NUM_BITS, CUBE_SIZE, FULL_CUBE,
    NUM_PIECES,
};

#[test]
fn constants_describe_the_cube() {
    assert_eq!(CUBE_SIZE, 4);
    assert_eq!(CUBE_NUM_BITS, CUBE_SIZE * CUBE_SIZE * CUBE_SIZE);
    assert_eq!(NUM_PIECES, 13);
    assert_eq!(FULL_CUBE, u64::MAX);
}

#[test]
fn pack_bit_sets_the_bit_of_the_cell() {
    assert_eq!(pack_bit(true, 0, 0, 0), 1);
    assert_eq!(pack_bit(true, 0, 0, 3), 1 << 3);
    assert_eq!(pack_bit(true, 0, 2, 0), 1 << 8);
    assert_eq!(pack_bit(true, 1, 2, 3), 1 << 27);
    assert_eq!(pack_bit(true, 3, 3, 3), 1 << 63);
}

#[test]
fn pack_bit_of_false_is_empty() {
    for x in 0..4 {
        for y in 0..4 {
            for z in 0..4 {
                assert_eq!(pack_bit(false, x, y, z), 0);
            }
        }
    }
}

#[test]
fn unpack_bit_reads_what_pack_bit_wrote() {
    for x in 0..4 {
        for y in 0..4 {
            for z in 0..4 {
                let mask = pack_bit(true, x, y, z);
                for x2 in 0..4 {
                    for y2 in 0..4 {
                        for z2 in 0..4 {
                            assert_eq!(
                                unpack_bit(mask, x2, y2, z2),
                                (x, y, z) == (x2, y2, z2)
                            );
                        }
                    }
                }
            }
        }
    }
}

#[test]
fn unpack_bit_of_a_given_mask() {
    let mask: u64 = (1 << 27) | (1 << 5);
    assert!(unpack_bit(mask, 1, 2, 3));
    assert!(unpack_bit(mask, 0, 1, 1));
    assert!(!unpack_bit(mask, 0, 0, 0));
    assert!(!unpack_bit(mask, 3, 2, 1));
}

#[test]
fn count_cells_counts_the_set_bits() {
    assert_eq!(count_cells(0), 0);
    assert_eq!(count_cells(1), 1);
    assert_eq!(count_cells(1 << 63), 1);
    assert_eq!(count_cells(0b1011), 3);
    assert_eq!(count_cells(0xffff), 16);
    assert_eq!(count_cells(u64::MAX), 64);
    assert_eq!(count_cells(0x8000_0000_0000_0001), 2);
}

#[test]
fn count_cells_agrees_with_the_machine() {
    let mut v: u64 = 0x9e37_79b9_7f4a_7c15;
    for _ in 0..200 {
        assert_eq!(count_cells(v), v.count_ones());
        v = v.wrapping_mul(6364136223846793005).wrapping_add(1442695040888963407);
    }
}

#[test]
fn a_mask_is_indexed_by_coordinates() {
    let mask: u64 = pack_bit(true, 2, 1, 3) | pack_bit(true, 0, 0, 1);
    assert!(mask.index(Coords(2, 1, 3)));
    assert!(mask.index(Coords(0, 0, 1)));
    assert!(!mask.index(Coords(1, 2, 3)));
    assert!(!mask.index(Coords(3, 1, 2)));
}

#[test]
fn an_array_is_indexed_by_layer_then_row_then_column() {
    let mut grid = [[[false; 4]; 4]; 4];
    grid[3][1][2] = true;
    grid[0][2][0] = true;
    let block = &grid;
    assert!(block.index(Coords(2, 1, 3)));
    assert!(block.index(Coords(0, 2, 0)));
    assert!(!block.index(Coords(3, 1, 2)));
    assert!(!block.index(Coords(0, 0, 0)));
}

#[test]
fn mask_and_array_agree_on_every_cell() {
    let mask: u64 = 0x0123_4567_89ab_cdef;
    let mut grid = [[[false; 4]; 4]; 4];
    for x in 0..4 {
        for y in 0..4 {
            for z in 0..4 {
                grid[z][y][x] = unpack_bit(mask, x, y, z);
            }
        }
    }
    let block = &grid;
    for x in 0..4 {
        for y in 0..4 {
            for z in 0..4 {
                assert_eq!(mask.index(Coords(x, y, z)), block.index(Coords(x, y, z)));
            }
        }
    }
}
