//! From thirteen pieces to the tilings of the cube.

use vstd::prelude::*;
use crate::coverage::{build_coverage_index, index_wf, lemma_coverage_index_wf, offered};
use crate::geometry::{lemma_zero_bits, NUM_PIECES};
use crate::placements::{generate_all_placements, is_placement};
use crate::search::{
    appended, found, is_exact_cover, lemma_packing_count, masks_of, pairwise_disjoint, search,
    total_cells, visits, Solution,
};
use crate::stats::{added, Stats};

verus! {

/// Whether `sol` packs the pieces into the cube: no two of its masks share a
/// cell, and its mask for each piece is a placement of that piece that
/// covers a cell.
pub open spec fn is_packing_of(pieces: Seq<u64>, sol: Solution) -> bool {
    &&& pairwise_disjoint(sol.0@)
    &&& forall|p: int|
        0 <= p < 13 ==> (#[trigger] sol.0@[p]) != 0 && is_placement(pieces[p], sol.0@[p])
}

/// Whether `sol` tiles the cube with the pieces: it packs them into the
/// cube, and its masks cover the cube.
pub open spec fn is_tiling(pieces: Seq<u64>, sol: Solution) -> bool {
    is_packing_of(pieces, sol) && is_exact_cover(sol.0@)
}

/// Whether `index` is a coverage index of the pieces: it can serve a search,
/// and what it lists for a piece are the placements of the piece that cover a cell.
pub open spec fn indexes_pieces(index: &Vec<Vec<Vec<u64>>>, pieces: Seq<u64>) -> bool {
    &&& index_wf(index)
    &&& forall|p: int, m: u64|
        0 <= p < 13 ==> (#[trigger] offered(index, p, m) <==> (is_placement(pieces[p], m) && m
            != 0))
}

proof fn lemma_same_counts(pieces: Seq<u64>, s: Seq<u64>, n: nat)
    requires
        n <= 13,
        forall|p: int| 0 <= p < 13 ==> is_placement(pieces[p], #[trigger] s[p]),
    ensures
        total_cells(pieces, n) == total_cells(s, n),
    decreases n,
{
    if n > 0 {
        lemma_same_counts(pieces, s, (n - 1) as nat);
        assert(is_placement(pieces[n - 1], s[n - 1]));
    }
}

/// Pieces that are packed into the cube have at most 64 cells between them,
/// and the packing is a tiling if and only if they have 64.
pub proof fn lemma_packing_cells(pieces: Seq<u64>, sol: Solution)
    requires
        is_packing_of(pieces, sol),
    ensures
        total_cells(pieces, 13) <= 64,
        total_cells(pieces, 13) == 64 <==> is_tiling(pieces, sol),
{
    lemma_packing_count(sol.0@);
    lemma_same_counts(pieces, sol.0@, 13);
}

/// Finds every tiling of the cube by the thirteen pieces, each once, and
/// counts the states that the search went through. There is no tiling
/// unless the pieces have 64 cells between them.
pub fn find_solutions(pieces: &Vec<u64>) -> (r: (Vec<Solution>, Stats))
    requires
        pieces.len() == NUM_PIECES,
    ensures
        r.0@.no_duplicates(),
        forall|sol: Solution| #[trigger] r.0@.contains(sol) <==> is_tiling(pieces@, sol),
        total_cells(pieces@, 13) != 64 ==> r.0@.len() == 0,
        r.1.num_solutions == r.0@.len(),
        exists|index: Vec<Vec<Vec<u64>>>| #[trigger]
            indexes_pieces(&index, pieces@) && masks_of(r.0@) == found(
                &index,
                0,
                0,
                Seq::new(13, |p: int| 0u64),
            ) && r.1.num_permutations == added(0, visits(&index, 0, 0)),
{
    let piece_placements: Vec<Vec<u64>> = generate_all_placements(pieces);
    let bit_map: Vec<Vec<Vec<u64>>> = build_coverage_index(&piece_placements);
    let mut stats: Stats = Stats::new();
    // The pick of each piece along the path of the search.
    let mut picks: [u64; NUM_PIECES] = [0u64;13];
    let mut solutions: Vec<Solution> = Vec::new();
    proof {
        lemma_coverage_index_wf(&bit_map, &piece_placements);
        lemma_zero_bits();
    }
    let ghost picks_before = picks@;
    search(0, 0, &bit_map, &mut picks, &mut stats, &mut solutions);
    proof {
        assert(appended(Seq::<Solution>::empty(), solutions@) =~= solutions@);
        assert(picks_before =~= Seq::new(13, |p: int| 0u64));
        assert(solutions@.len() == solutions.len());
        assert(indexes_pieces(&bit_map, pieces@));
        assert forall|sol: Solution| #[trigger] solutions@.contains(sol) <==> is_tiling(
            pieces@,
            sol,
        ) by {
            if is_tiling(pieces@, sol) {
                assert forall|p: int| 0 <= p < 13 implies offered(
                    &bit_map,
                    p,
                    #[trigger] sol.0@[p],
                ) by {}
            }
            if solutions@.contains(sol) {
                assert forall|p: int| 0 <= p < 13 implies (#[trigger] sol.0@[p]) != 0
                    && is_placement(pieces[p], sol.0@[p]) by {
                    assert(offered(&bit_map, p, sol.0@[p]));
                }
            }
        }
        if solutions@.len() > 0 {
            assert(solutions@.contains(solutions@[0]));
            lemma_packing_cells(pieces@, solutions@[0]);
        }
    }
    (solutions, stats)
}

} // verus!
