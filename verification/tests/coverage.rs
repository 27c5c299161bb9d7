use cube_solver::coverage::build_coverage_index;
use cube_solver::placements::generate_placements;

fn thirteen(lists: Vec<Vec<u64>>) -> Vec<Vec<u64>> {
    let mut all = lists;
    while all.len() < 13 {
        all.push(Vec::new());
    }
    all
}

#[test]
fn index_has_a_list_for_every_cell_and_piece() {
    let index = build_coverage_index(&thirteen(Vec::new()));
    assert_eq!(index.len(), 64);
    for row in index.iter() {
        assert_eq!(row.len(), 13);
        for list in row.iter() {
            assert!(list.is_empty());
        }
    }
}

#[test]
fn index_lists_a_placement_under_each_cell_that_it_covers() {
    let placements = thirteen(vec![vec![0b0101, 0b0110], vec![1 << 63, 0b0001]]);
    let index = build_coverage_index(&placements);
    assert_eq!(index[0][0], vec![0b0101]);
    assert_eq!(index[1][0], vec![0b0110]);
    assert_eq!(index[2][0], vec![0b0101, 0b0110]);
    assert_eq!(index[3][0], Vec::<u64>::new());
    assert_eq!(index[0][1], vec![0b0001]);
    assert_eq!(index[63][1], vec![1 << 63]);
    assert_eq!(index[63][0], Vec::<u64>::new());
    assert_eq!(index[2][1], Vec::<u64>::new());
}

#[test]
fn index_keeps_the_order_of_the_placements() {
    let placements = thirteen(vec![vec![0b111, 0b011, 0b101, 0b001, 0b110]]);
    let index = build_coverage_index(&placements);
    assert_eq!(index[0][0], vec![0b111, 0b011, 0b101, 0b001]);
    assert_eq!(index[1][0], vec![0b111, 0b011, 0b110]);
    assert_eq!(index[2][0], vec![0b111, 0b101, 0b110]);
}

#[test]
fn index_is_complete_and_holds_nothing_else() {
    let mut placements: Vec<Vec<u64>> = Vec::new();
    let pieces: [u64; 13] = [
        1, 0b11, 0b1111, 0xffff, 0x1_0011, 0x31_0001, 0x33, 0x1_0011_0001, 0x1_0001, 0x3_0003,
        0x111, 0x1_0000_0001, 0x7,
    ];
    for piece in pieces {
        placements.push(generate_placements(piece));
    }
    let index = build_coverage_index(&placements);
    for c in 0..64 {
        for p in 0..13 {
            let expected: Vec<u64> =
                placements[p].iter().copied().filter(|m| m & (1u64 << c) != 0).collect();
            assert_eq!(index[c][p], expected);
            for m in placements[p].iter() {
                assert_eq!(index[c][p].contains(m), m & (1u64 << c) != 0);
            }
        }
    }
}

#[test]
fn the_empty_placement_is_listed_nowhere() {
    let index = build_coverage_index(&thirteen(vec![vec![0]]));
    for c in 0..64 {
        assert!(index[c][0].is_empty());
    }
}
