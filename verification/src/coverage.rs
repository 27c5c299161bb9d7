//! The coverage index: for each cell and piece, the placements of the piece
//! that cover the cell.

use vstd::prelude::*;
use crate::geometry::{has_bit, lemma_bit_test, CUBE_NUM_BITS, NUM_PIECES};

verus! {

/// The test "covers cell `c`" on masks.
pub open spec fn covers(c: int) -> spec_fn(u64) -> bool {
    |m: u64| has_bit(m, c)
}

/// Whether `index` is the coverage index of `placements`: for each cell `c`
/// and piece `p`, the list `index[c][p]` holds the placements of `p` that
/// cover `c`, in the order in which `placements[p]` has them.
pub open spec fn is_coverage_index(index: &Vec<Vec<Vec<u64>>>, placements: &Vec<Vec<u64>>) -> bool {
    &&& index.len() == 64
    &&& forall|c: int| 0 <= c < 64 ==> (#[trigger] index[c]).len() == placements.len()
    &&& forall|c: int, p: int|
        0 <= c < 64 && 0 <= p < placements.len() ==> (#[trigger] index[c][p])@
            == placements[p]@.filter(covers(c))
}

/// Whether `index` can serve a search: it has a list for each of the 64 cells
/// and 13 pieces, no list holds a mask twice, every mask listed under a cell
/// covers that cell, and a mask listed for a piece is listed under every cell
/// that it covers.
pub open spec fn index_wf(index: &Vec<Vec<Vec<u64>>>) -> bool {
    &&& index.len() == 64
    &&& forall|c: int| 0 <= c < 64 ==> (#[trigger] index[c]).len() == 13
    &&& forall|c: int, p: int|
        0 <= c < 64 && 0 <= p < 13 ==> (#[trigger] index[c][p])@.no_duplicates()
    &&& forall|c: int, p: int, k: int|
        0 <= c < 64 && 0 <= p < 13 && 0 <= k < index[c][p].len() ==> has_bit(
            #[trigger] index[c][p][k],
            c,
        )
    &&& forall|c: int, p: int, k: int, c2: int|
        0 <= c < 64 && 0 <= p < 13 && 0 <= k < index[c][p].len() && has_bit(
            #[trigger] index[c][p][k],
            c2,
        ) ==> (#[trigger] index[c2][p])@.contains(index[c][p][k])
}

/// Whether `index` lists the mask `m` for the piece `p` under some cell.
pub open spec fn offered(index: &Vec<Vec<Vec<u64>>>, p: int, m: u64) -> bool {
    exists|c: int| 0 <= c < 64 && (#[trigger] index[c][p])@.contains(m)
}

/// A list without repetition stays so when filtered.
pub proof fn lemma_filter_no_duplicates(s: Seq<u64>, pred: spec_fn(u64) -> bool)
    requires
        s.no_duplicates(),
    ensures
        s.filter(pred).no_duplicates(),
    decreases s.len(),
{
    reveal(Seq::filter);
    if s.len() > 0 {
        let rest = s.drop_last();
        lemma_filter_no_duplicates(rest, pred);
        if pred(s.last()) {
            let kept = rest.filter(pred);
            if kept.contains(s.last()) {
                rest.lemma_filter_contains_rev(pred, s.last());
                let i = choose|i: int| 0 <= i < rest.len() && rest[i] == s.last();
                assert(s[i] == s[s.len() - 1]);
            }
            assert forall|i: int, j: int|
                0 <= i < kept.push(s.last()).len() && 0 <= j < kept.push(s.last()).len() && i
                    != j implies kept.push(s.last())[i] != kept.push(s.last())[j] by {
                if i == kept.len() {
                    assert(kept.contains(kept[j]));
                } else if j == kept.len() {
                    assert(kept.contains(kept[i]));
                }
            }
        }
    }
}

/// What a filtered list holds: the items of the list that pass the test.
pub proof fn lemma_filter_membership(s: Seq<u64>, pred: spec_fn(u64) -> bool)
    ensures
        forall|m: u64| #[trigger] s.filter(pred).contains(m) <==> (s.contains(m) && pred(m)),
{
    assert forall|m: u64| #[trigger] s.filter(pred).contains(m) <==> (s.contains(m) && pred(
        m,
    )) by {
        if s.filter(pred).contains(m) {
            s.lemma_filter_contains_rev(pred, m);
            let i = choose|i: int| 0 <= i < s.filter(pred).len() && s.filter(pred)[i] == m;
            s.lemma_filter_pred(pred, i);
        }
        if s.contains(m) && pred(m) {
            let i = choose|i: int| 0 <= i < s.len() && s[i] == m;
            s.lemma_filter_contains(pred, i);
        }
    }
}

/// Completeness of the coverage index: the list for cell `c` and piece `p`
/// holds every placement of `p` that covers `c`, and no other mask.
pub proof fn lemma_coverage_complete(
    index: &Vec<Vec<Vec<u64>>>,
    placements: &Vec<Vec<u64>>,
    c: int,
    p: int,
    m: u64,
)
    requires
        is_coverage_index(index, placements),
        0 <= c < 64,
        0 <= p < placements.len(),
    ensures
        index[c][p]@.contains(m) <==> (placements[p]@.contains(m) && has_bit(m, c)),
{
    lemma_filter_membership(placements[p]@, covers(c));
}

/// The coverage index of thirteen placement lists without repetition can
/// serve a search, and offers for each piece its non-empty placements.
pub proof fn lemma_coverage_index_wf(index: &Vec<Vec<Vec<u64>>>, placements: &Vec<Vec<u64>>)
    requires
        is_coverage_index(index, placements),
        placements.len() == 13,
        forall|p: int| 0 <= p < 13 ==> (#[trigger] placements[p])@.no_duplicates(),
    ensures
        index_wf(index),
        forall|p: int, m: u64|
            0 <= p < 13 ==> (#[trigger] offered(index, p, m) <==> (placements[p]@.contains(m)
                && m != 0)),
{
    assert forall|c: int, p: int| 0 <= c < 64 && 0 <= p < 13 implies (#[trigger] index[c][p])@
        .no_duplicates() by {
        lemma_filter_no_duplicates(placements[p]@, covers(c));
    }
    assert forall|c: int, p: int, k: int|
        0 <= c < 64 && 0 <= p < 13 && 0 <= k < index[c][p].len() implies has_bit(
        #[trigger] index[c][p][k],
        c,
    ) by {
        assert(index[c][p]@.contains(index[c][p][k]));
        lemma_coverage_complete(index, placements, c, p, index[c][p][k]);
    }
    assert forall|c: int, p: int, k: int, c2: int|
        0 <= c < 64 && 0 <= p < 13 && 0 <= k < index[c][p].len() && has_bit(
            #[trigger] index[c][p][k],
            c2,
        ) implies (#[trigger] index[c2][p])@.contains(index[c][p][k]) by {
        assert(index[c][p]@.contains(index[c][p][k]));
        lemma_coverage_complete(index, placements, c, p, index[c][p][k]);
        lemma_coverage_complete(index, placements, c2, p, index[c][p][k]);
    }
    assert forall|p: int, m: u64| 0 <= p < 13 implies (#[trigger] offered(index, p, m) <==> (
    placements[p]@.contains(m) && m != 0)) by {
        crate::geometry::lemma_zero_bits();
        if offered(index, p, m) {
            let c = choose|c: int| 0 <= c < 64 && (#[trigger] index[c][p])@.contains(m);
            lemma_coverage_complete(index, placements, c, p, m);
        }
        if placements[p]@.contains(m) && m != 0 {
            if forall|i: int| 0 <= i < 64 ==> !#[trigger] has_bit(m, i) {
                crate::geometry::lemma_bits_extensional(m, 0);
            }
            let c = choose|c: int| 0 <= c < 64 && #[trigger] has_bit(m, c);
            lemma_coverage_complete(index, placements, c, p, m);
            assert(index[c][p]@.contains(m));
        }
    }
}

/// Builds the coverage index of the placements of the thirteen pieces: for
/// every cell and every piece, the placements of the piece that cover the cell.
pub fn build_coverage_index(piece_placements: &Vec<Vec<u64>>) -> (bit_map: Vec<Vec<Vec<u64>>>)
    requires
        piece_placements.len() == NUM_PIECES,
    ensures
        is_coverage_index(&bit_map, piece_placements),
        forall|c: int, p: int, m: u64|
            0 <= c < 64 && 0 <= p < 13 ==> (#[trigger] bit_map[c][p]@.contains(m) <==> (
            piece_placements[p]@.contains(m) && has_bit(m, c))),
{
    let mut bit_map: Vec<Vec<Vec<u64>>> = Vec::new();
    let mut bi: usize = 0;
    while bi < CUBE_NUM_BITS
        invariant
            bi <= 64,
            piece_placements.len() == 13,
            bit_map.len() == bi,
            forall|c: int| 0 <= c < bi ==> (#[trigger] bit_map[c]).len() == 13,
            forall|c: int, p: int|
                0 <= c < bi && 0 <= p < 13 ==> (#[trigger] bit_map[c][p])@
                    == piece_placements[p]@.filter(covers(c)),
        decreases 64 - bi,
    {
        let mut row: Vec<Vec<u64>> = Vec::new();
        let mut pi: usize = 0;
        while pi < NUM_PIECES
            invariant
                bi < 64,
                pi <= 13,
                piece_placements.len() == 13,
                row.len() == pi,
                forall|p: int|
                    0 <= p < pi ==> (#[trigger] row[p])@ == piece_placements[p]@.filter(
                        covers(bi as int),
                    ),
            decreases 13 - pi,
        {
            let source: &Vec<u64> = &piece_placements[pi];
            let mut list: Vec<u64> = Vec::new();
            let mut k: usize = 0;
            proof {
                reveal(Seq::filter);
                assert(source@.take(0).filter(covers(bi as int)) =~= Seq::<u64>::empty());
            }
            while k < source.len()
                invariant
                    bi < 64,
                    k <= source.len(),
                    list@ == source@.take(k as int).filter(covers(bi as int)),
                decreases source.len() - k,
            {
                let placement: u64 = source[k];
                proof {
                    lemma_bit_test(placement, bi as int);
                    assert(source@.take(k + 1) =~= source@.take(k as int).push(placement));
                    source@.take(k as int).lemma_filter_push(placement, covers(bi as int));
                }
                if placement & (1u64 << bi) != 0 {
                    list.push(placement);
                }
                k += 1;
            }
            proof {
                assert(source@.take(source.len() as int) =~= source@);
            }
            row.push(list);
            pi += 1;
        }
        bit_map.push(row);
        bi += 1;
    }
    proof {
        assert forall|c: int, p: int, m: u64| 0 <= c < 64 && 0 <= p < 13 implies (
        #[trigger] bit_map[c][p]@.contains(m) <==> (piece_placements[p]@.contains(m) && has_bit(
            m,
            c,
        ))) by {
            lemma_coverage_complete(&bit_map, piece_placements, c, p, m);
        }
    }
    bit_map
}

} // verus!
