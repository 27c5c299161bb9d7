//! Depth-first search for the exact covers of the cube.
//!
//! A search state is a mask of occupied cells, a mask of used pieces and an
//! array of picks, one per piece. The search always extends the state at an
//! empty cell, by a placement of an unused piece that covers the cell and
//! fits into what is free.

use vstd::prelude::*;
use crate::coverage::{index_wf, offered};
use crate::geometry::{
    cell_count, cells, has_bit, lemma_bits_extensional, lemma_cells_finite, lemma_disjoint_bits,
    lemma_full_bits, lemma_or_bits, lemma_single_bits, lemma_zero_bits, single_cell, FULL_CUBE,
    NUM_PIECES,
};
use crate::stats::{added, Stats};

verus! {

/// The mask of used pieces when every piece is used.
pub const ALL_PIECES: u64 = 0x1fff;

/// One placement for each piece, indexed by the number of the piece.
#[derive(Clone, Copy, Debug, PartialEq, Eq)]
pub struct Solution(pub [u64; NUM_PIECES]);

impl Default for Solution {
    fn default() -> (s: Self)
        ensures
            forall|p: int| 0 <= p < 13 ==> #[trigger] s.0[p] == 0,
    {
        Solution([0u64;13])
    }
}

/// The union of the first `n` masks of `s`.
pub open spec fn union_below(s: Seq<u64>, n: nat) -> u64
    decreases n,
{
    if n == 0 {
        0
    } else {
        union_below(s, (n - 1) as nat) | s[n - 1]
    }
}

/// Whether no two masks of `s` share a cell.
pub open spec fn pairwise_disjoint(s: Seq<u64>) -> bool {
    forall|p: int, q: int| #![trigger s[p], s[q]] 0 <= p < q < s.len() ==> s[p] & s[q] == 0
}

/// Whether `s` tiles the cube: thirteen masks, no two of which share a cell,
/// whose union is the whole cube.
pub open spec fn is_exact_cover(s: Seq<u64>) -> bool {
    &&& s.len() == 13
    &&& pairwise_disjoint(s)
    &&& union_below(s, 13) == FULL_CUBE
}

/// Whether `s` is a packing over `index`: thirteen masks, no two of which
/// share a cell, each one that the index lists for its piece.
pub open spec fn is_packing(index: &Vec<Vec<Vec<u64>>>, s: Seq<u64>) -> bool {
    &&& s.len() == 13
    &&& pairwise_disjoint(s)
    &&& forall|p: int| 0 <= p < 13 ==> offered(index, p, #[trigger] s[p])
}

/// Whether `s` is a solution over `index`: it tiles the cube, and its mask
/// for each piece is one that the index lists for that piece.
pub open spec fn is_solution(index: &Vec<Vec<Vec<u64>>>, s: Seq<u64>) -> bool {
    &&& is_exact_cover(s)
    &&& forall|p: int| 0 <= p < 13 ==> offered(index, p, #[trigger] s[p])
}

/// Whether `s` keeps the pick of every used piece.
pub open spec fn extends(s: Seq<u64>, used: u64, picks: Seq<u64>) -> bool {
    forall|p: int| 0 <= p < 13 && has_bit(used, p) ==> #[trigger] s[p] == picks[p]
}

/// Whether the pick of some used piece covers the cell `c`.
pub open spec fn covered_by_used(used: u64, picks: Seq<u64>, c: int) -> bool {
    exists|p: int| 0 <= p < 13 && has_bit(used, p) && #[trigger] has_bit(picks[p], c)
}

/// The invariant of a search path: only pieces are marked as used, the pick
/// of each used piece is one that the index lists for it, no two such picks
/// share a cell, and `state` is their union.
pub open spec fn path_ok(
    index: &Vec<Vec<Vec<u64>>>,
    state: u64,
    used: u64,
    picks: Seq<u64>,
) -> bool {
    &&& picks.len() == 13
    &&& used <= ALL_PIECES
    &&& forall|p: int| 0 <= p < 13 && has_bit(used, p) ==> offered(index, p, #[trigger] picks[p])
    &&& forall|p: int, q: int, c: int|
        #![trigger has_bit(picks[p], c), has_bit(picks[q], c)]
        0 <= p < 13 && 0 <= q < 13 && p != q && has_bit(used, p) && has_bit(used, q) && has_bit(
            picks[p],
            c,
        ) ==> !has_bit(picks[q], c)
    &&& forall|c: int|
        0 <= c < 64 ==> (#[trigger] has_bit(state, c) <==> covered_by_used(used, picks, c))
}

/// Whether `sol` completes the partial assignment `(used, picks)` to a solution over `index`.
pub open spec fn completes(
    index: &Vec<Vec<Vec<u64>>>,
    used: u64,
    picks: Seq<u64>,
    sol: Solution,
) -> bool {
    extends(sol.0@, used, picks) && is_solution(index, sol.0@)
}

/// Number of cells of the first `n` masks of `s`, taken together.
pub open spec fn total_cells(s: Seq<u64>, n: nat) -> nat
    decreases n,
{
    if n == 0 {
        0
    } else {
        total_cells(s, (n - 1) as nat) + cell_count(s[n - 1])
    }
}

/// Whether one of the first `n` masks of `s` covers the cell `c`.
pub open spec fn covered_below(s: Seq<u64>, n: int, c: int) -> bool {
    exists|p: int| 0 <= p < n && #[trigger] has_bit(s[p], c)
}

/// Disjointness, said cell by cell: no cell belongs to two of the thirteen masks.
pub open spec fn no_cell_twice(s: Seq<u64>) -> bool {
    &&& s.len() == 13
    &&& forall|p: int, q: int, c: int|
        #![trigger has_bit(s[p], c), has_bit(s[q], c)]
        0 <= p < 13 && 0 <= q < 13 && p != q && has_bit(s[p], c) ==> !has_bit(s[q], c)
}

/// Tiling, said cell by cell: each cell of the cube belongs to exactly one mask.
pub open spec fn each_cell_once(s: Seq<u64>) -> bool {
    &&& no_cell_twice(s)
    &&& forall|c: int| 0 <= c < 64 ==> #[trigger] covered_below(s, 13, c)
}

/// The cells of a union are the cells of its members.
pub proof fn lemma_union_bits(s: Seq<u64>, n: nat)
    ensures
        forall|c: int| #[trigger] has_bit(union_below(s, n), c) <==> covered_below(s, n as int, c),
    decreases n,
{
    if n == 0 {
        lemma_zero_bits();
    } else {
        lemma_union_bits(s, (n - 1) as nat);
        lemma_or_bits(union_below(s, (n - 1) as nat), s[n - 1]);
        assert forall|c: int| #[trigger]
            has_bit(union_below(s, n), c) <==> covered_below(s, n as int, c) by {
            if covered_below(s, n as int, c) {
                let p = choose|p: int| 0 <= p < n && #[trigger] has_bit(s[p], c);
                if p < n - 1 {
                    assert(covered_below(s, n - 1, c));
                }
            }
            if covered_below(s, n - 1, c) {
                let p = choose|p: int| 0 <= p < n - 1 && #[trigger] has_bit(s[p], c);
                assert(0 <= p < n);
            }
        }
    }
}

/// Thirteen masks are disjoint in pairs if and only if no cell belongs to two of them.
pub proof fn lemma_disjoint_cells(s: Seq<u64>)
    requires
        s.len() == 13,
    ensures
        pairwise_disjoint(s) <==> no_cell_twice(s),
{
    if pairwise_disjoint(s) {
        assert forall|p: int, q: int, c: int|
            #![trigger has_bit(s[p], c), has_bit(s[q], c)]
            0 <= p < 13 && 0 <= q < 13 && p != q && has_bit(s[p], c) implies !has_bit(s[q], c) by {
            if p < q {
                assert(s[p] & s[q] == 0);
                lemma_disjoint_bits(s[p], s[q]);
            } else {
                assert(s[q] & s[p] == 0);
                lemma_disjoint_bits(s[q], s[p]);
            }
        }
    }
    if no_cell_twice(s) {
        assert forall|p: int, q: int| #![trigger s[p], s[q]] 0 <= p < q < s.len() implies s[p]
            & s[q] == 0 by {
            lemma_disjoint_bits(s[p], s[q]);
            assert forall|i: int|
                #![trigger has_bit(s[p], i)]
                #![trigger has_bit(s[q], i)]
                !(has_bit(s[p], i) && has_bit(s[q], i)) by {
                if has_bit(s[p], i) {
                    assert(!has_bit(s[q], i));
                }
            }
        }
    }
}

/// A list of thirteen masks tiles the cube if and only if each cell of the
/// cube belongs to exactly one of them.
pub proof fn lemma_exact_cover_cells(s: Seq<u64>)
    requires
        s.len() == 13,
    ensures
        is_exact_cover(s) <==> each_cell_once(s),
{
    lemma_union_bits(s, 13);
    lemma_full_bits();
    lemma_disjoint_cells(s);
    if is_exact_cover(s) {
        assert forall|c: int| 0 <= c < 64 implies #[trigger] covered_below(s, 13, c) by {
            assert(has_bit(union_below(s, 13), c));
        }
    }
    if each_cell_once(s) {
        assert forall|c: int| 0 <= c < 64 implies (#[trigger] has_bit(union_below(s, 13), c)
            <==> has_bit(FULL_CUBE, c)) by {
            assert(covered_below(s, 13, c));
        }
        lemma_bits_extensional(union_below(s, 13), FULL_CUBE);
    }
}

/// Masks that share no cell have, taken together, as many cells as their union.
proof fn lemma_disjoint_union_count(s: Seq<u64>, n: nat)
    requires
        n <= 13,
        no_cell_twice(s),
    ensures
        cell_count(union_below(s, n)) == total_cells(s, n),
    decreases n,
{
    if n == 0 {
        lemma_zero_bits();
        assert(cells(0) =~= Set::<int>::empty());
    } else {
        let rest = union_below(s, (n - 1) as nat);
        let last = s[n - 1];
        lemma_disjoint_union_count(s, (n - 1) as nat);
        lemma_union_bits(s, (n - 1) as nat);
        lemma_or_bits(rest, last);
        lemma_cells_finite(rest);
        lemma_cells_finite(last);
        assert(cells(rest | last) =~= cells(rest) + cells(last));
        assert(cells(rest).disjoint(cells(last))) by {
            assert forall|c: int| !(cells(rest).contains(c) && cells(last).contains(c)) by {
                if has_bit(rest, c) && has_bit(last, c) {
                    assert(covered_below(s, n - 1, c));
                    let p = choose|p: int| 0 <= p < n - 1 && #[trigger] has_bit(s[p], c);
                    assert(has_bit(s[p], c) && has_bit(s[n - 1], c));
                }
            }
        }
        vstd::set_lib::lemma_set_disjoint_lens(cells(rest), cells(last));
    }
}

/// Thirteen masks that are disjoint in pairs have at most 64 cells between
/// them, and tile the cube if and only if they have 64.
pub proof fn lemma_packing_count(s: Seq<u64>)
    requires
        s.len() == 13,
        pairwise_disjoint(s),
    ensures
        total_cells(s, 13) <= 64,
        total_cells(s, 13) == 64 <==> is_exact_cover(s),
{
    let all = union_below(s, 13);
    let cube = vstd::set_lib::set_int_range(0, 64);
    lemma_disjoint_cells(s);
    lemma_disjoint_union_count(s, 13);
    lemma_cells_finite(all);
    lemma_full_bits();
    vstd::set_lib::lemma_int_range(0, 64);
    assert(cells(FULL_CUBE) =~= cube);
    if total_cells(s, 13) == 64 {
        assert(cells(all).subset_of(cube));
        vstd::set_lib::lemma_subset_equality(cells(all), cube);
        assert forall|c: int| 0 <= c < 64 implies (#[trigger] has_bit(all, c) <==> has_bit(
            FULL_CUBE,
            c,
        )) by {
            assert(cube.contains(c));
            assert(cells(all).contains(c));
        }
        lemma_bits_extensional(all, FULL_CUBE);
    }
}

proof fn lemma_used_high_bit(used: u64, j: u64)
    by (bit_vector)
    requires
        used <= 0x1fff,
        13 <= j < 64,
    ensures
        (used >> j) & 1 == 0,
{
}

proof fn lemma_all_pieces_bit(j: u64)
    by (bit_vector)
    requires
        j < 64,
    ensures
        (0x1fffu64 >> j) & 1 == 1 <==> j < 13,
{
}

proof fn lemma_mark_piece(used: u64, p: u64)
    by (bit_vector)
    requires
        used <= 0x1fff,
        p < 13,
        (used >> p) & 1 != 1,
    ensures
        used < (used | (1u64 << p)),
        (used | (1u64 << p)) <= 0x1fff,
{
}

/// When every piece is used, each of the thirteen is.
pub proof fn lemma_all_pieces_bits()
    ensures
        forall|p: int| #[trigger] has_bit(ALL_PIECES, p) <==> 0 <= p < 13,
{
    assert forall|p: int| #[trigger] has_bit(ALL_PIECES, p) <==> 0 <= p < 13 by {
        if 0 <= p < 64 {
            lemma_all_pieces_bit(p as u64);
        }
    }
}

/// While not every piece is used, some piece is free.
pub proof fn lemma_free_piece(used: u64) -> (p: int)
    requires
        used <= ALL_PIECES,
        used != ALL_PIECES,
    ensures
        0 <= p < 13,
        !has_bit(used, p),
{
    if forall|q: int| 0 <= q < 13 ==> #[trigger] has_bit(used, q) {
        lemma_all_pieces_bits();
        assert forall|i: int| 0 <= i < 64 implies (#[trigger] has_bit(used, i) <==> has_bit(
            ALL_PIECES,
            i,
        )) by {
            if i >= 13 {
                lemma_used_high_bit(used, i as u64);
            }
        }
        lemma_bits_extensional(used, ALL_PIECES);
    }
    choose|q: int| 0 <= q < 13 && !has_bit(used, q)
}

/// Marking a free piece as used marks that piece and no other, and leaves fewer pieces free.
pub proof fn lemma_mark_used(used: u64, p: int)
    requires
        used <= ALL_PIECES,
        0 <= p < 13,
        !has_bit(used, p),
    ensures
        used < (used | single_cell(p)) <= ALL_PIECES,
        forall|q: int|
            #[trigger] has_bit(used | single_cell(p), q) <==> (has_bit(used, q) || q == p),
{
    lemma_mark_piece(used, p as u64);
    lemma_or_bits(used, single_cell(p));
    lemma_single_bits(p);
}

/// With every piece used, the picks are the one candidate, and they are a
/// solution exactly when the cube is full.
proof fn lemma_all_used(
    index: &Vec<Vec<Vec<u64>>>,
    state: u64,
    used: u64,
    picks: Seq<u64>,
    s: Seq<u64>,
)
    requires
        path_ok(index, state, used, picks),
        used == ALL_PIECES,
        s.len() == 13,
        extends(s, used, picks),
    ensures
        s == picks,
        is_packing(index, s),
        is_solution(index, s) <==> state == FULL_CUBE,
{
    lemma_all_pieces_bits();
    assert forall|p: int| 0 <= p < 13 implies s[p] == picks[p] by {
        assert(has_bit(used, p));
    }
    assert(s =~= picks);
    lemma_exact_cover_cells(picks);
    lemma_full_bits();
    assert forall|c: int| 0 <= c < 64 implies (covered_below(picks, 13, c) <==> has_bit(
        state,
        c,
    )) by {
        if covered_below(picks, 13, c) {
            let p = choose|p: int| 0 <= p < 13 && #[trigger] has_bit(picks[p], c);
            assert(has_bit(used, p));
            assert(covered_by_used(used, picks, c));
        }
        if has_bit(state, c) {
            assert(covered_by_used(used, picks, c));
            let p = choose|p: int|
                0 <= p < 13 && has_bit(used, p) && #[trigger] has_bit(picks[p], c);
            assert(0 <= p < 13 && has_bit(picks[p], c));
        }
    }
    assert forall|p: int, q: int, c: int|
        #![trigger has_bit(picks[p], c), has_bit(picks[q], c)]
        0 <= p < 13 && 0 <= q < 13 && p != q && has_bit(picks[p], c) implies !has_bit(
        picks[q],
        c,
    ) by {
        assert(has_bit(used, p) && has_bit(used, q));
    }
    assert(no_cell_twice(picks));
    lemma_disjoint_cells(picks);
    assert forall|p: int| 0 <= p < 13 implies offered(index, p, #[trigger] picks[p]) by {
        assert(has_bit(used, p));
    }
    if state == FULL_CUBE {
        assert forall|c: int| 0 <= c < 64 implies #[trigger] covered_below(picks, 13, c) by {
            assert(has_bit(state, c));
        }
        assert(each_cell_once(picks));
    }
    if is_solution(index, picks) {
        assert forall|c: int| 0 <= c < 64 implies (#[trigger] has_bit(state, c) <==> has_bit(
            FULL_CUBE,
            c,
        )) by {
            assert(covered_below(picks, 13, c));
        }
        lemma_bits_extensional(state, FULL_CUBE);
    }
}

/// A full cube with a piece left over cannot be completed: the piece would
/// have to share a cell with a pick.
proof fn lemma_full_cube_dead_end(
    index: &Vec<Vec<Vec<u64>>>,
    state: u64,
    used: u64,
    picks: Seq<u64>,
    s: Seq<u64>,
)
    requires
        index_wf(index),
        path_ok(index, state, used, picks),
        used != ALL_PIECES,
        state == FULL_CUBE,
        s.len() == 13,
        extends(s, used, picks),
    ensures
        !is_solution(index, s),
{
    if is_solution(index, s) {
        let p = lemma_free_piece(used);
        assert(offered(index, p, s[p]));
        let c = choose|c: int| 0 <= c < 64 && (#[trigger] index[c][p])@.contains(s[p]);
        let k = choose|k: int| 0 <= k < index[c][p]@.len() && index[c][p]@[k] == s[p];
        assert(has_bit(index[c][p][k], c));
        lemma_full_bits();
        assert(has_bit(state, c));
        assert(covered_by_used(used, picks, c));
        let q = choose|q: int| 0 <= q < 13 && has_bit(used, q) && #[trigger] has_bit(picks[q], c);
        assert(s[q] == picks[q]);
        lemma_exact_cover_cells(s);
        assert(has_bit(s[p], c) && has_bit(s[q], c));
    }
}

/// Taking a fitting placement of a free piece keeps the invariant of the path.
proof fn lemma_child_path(
    index: &Vec<Vec<Vec<u64>>>,
    state: u64,
    used: u64,
    picks: Seq<u64>,
    c: int,
    p: int,
    k: int,
)
    requires
        index_wf(index),
        path_ok(index, state, used, picks),
        0 <= c < 64,
        0 <= p < 13,
        !has_bit(used, p),
        0 <= k < index[c][p].len(),
        index[c][p][k] & state == 0,
    ensures
        path_ok(
            index,
            state | index[c][p][k],
            used | single_cell(p),
            picks.update(p, index[c][p][k]),
        ),
{
    let m = index[c][p][k];
    let used2 = used | single_cell(p);
    let picks2 = picks.update(p, m);
    let state2 = state | m;
    lemma_mark_used(used, p);
    lemma_or_bits(state, m);
    lemma_disjoint_bits(m, state);
    assert(index[c][p]@.contains(m));
    assert(offered(index, p, m));
    assert forall|q: int| 0 <= q < 13 && has_bit(used2, q) implies offered(
        index,
        q,
        #[trigger] picks2[q],
    ) by {
        if q != p {
            assert(offered(index, q, picks[q]));
        }
    }
    assert forall|q: int, r: int, b: int|
        #![trigger has_bit(picks2[q], b), has_bit(picks2[r], b)]
        0 <= q < 13 && 0 <= r < 13 && q != r && has_bit(used2, q) && has_bit(used2, r) && has_bit(
            picks2[q],
            b,
        ) implies !has_bit(picks2[r], b) by {
        if q == p {
            if has_bit(picks[r], b) {
                assert(covered_by_used(used, picks, b));
                assert(has_bit(state, b));
            }
        } else if r == p {
            assert(has_bit(picks[q], b));
            assert(covered_by_used(used, picks, b));
            assert(has_bit(state, b));
        } else {
            assert(has_bit(picks[q], b));
            assert(!has_bit(picks[r], b));
        }
    }
    assert forall|b: int| 0 <= b < 64 implies (#[trigger] has_bit(state2, b) <==> covered_by_used(
        used2,
        picks2,
        b,
    )) by {
        if has_bit(state, b) {
            assert(covered_by_used(used, picks, b));
            let q = choose|q: int|
                0 <= q < 13 && has_bit(used, q) && #[trigger] has_bit(picks[q], b);
            assert(has_bit(used2, q) && has_bit(picks2[q], b));
        }
        if has_bit(m, b) {
            assert(has_bit(used2, p) && has_bit(picks2[p], b));
        }
        if covered_by_used(used2, picks2, b) {
            let q = choose|q: int|
                0 <= q < 13 && has_bit(used2, q) && #[trigger] has_bit(picks2[q], b);
            if q != p {
                assert(has_bit(used, q) && has_bit(picks[q], b));
                assert(covered_by_used(used, picks, b));
            }
        }
    }
}

/// To keep the picks with one more piece used is to keep the picks and to
/// give that piece its new pick.
proof fn lemma_extends_child(used: u64, picks: Seq<u64>, p: int, m: u64, s: Seq<u64>)
    requires
        used <= ALL_PIECES,
        0 <= p < 13,
        !has_bit(used, p),
        picks.len() == 13,
        s.len() == 13,
    ensures
        extends(s, used | single_cell(p), picks.update(p, m)) <==> (extends(s, used, picks) && s[p]
            == m),
{
    let used2 = used | single_cell(p);
    let picks2 = picks.update(p, m);
    lemma_mark_used(used, p);
    if extends(s, used2, picks2) {
        assert(has_bit(used2, p));
        assert(s[p] == picks2[p]);
        assert forall|q: int| 0 <= q < 13 && has_bit(used, q) implies #[trigger] s[q]
            == picks[q] by {
            assert(has_bit(used2, q));
            assert(s[q] == picks2[q]);
        }
    }
    if extends(s, used, picks) && s[p] == m {
        assert forall|q: int| 0 <= q < 13 && has_bit(used2, q) implies #[trigger] s[q]
            == picks2[q] by {
            if q != p {
                assert(s[q] == picks[q]);
            }
        }
    }
}

/// Picks that agree on the used pieces stand for the same path.
proof fn lemma_path_agrees(
    index: &Vec<Vec<Vec<u64>>>,
    state: u64,
    used: u64,
    picks: Seq<u64>,
    picks2: Seq<u64>,
)
    requires
        path_ok(index, state, used, picks),
        picks2.len() == 13,
        extends(picks2, used, picks),
    ensures
        path_ok(index, state, used, picks2),
        forall|s: Seq<u64>| #[trigger] extends(s, used, picks2) <==> extends(s, used, picks),
{
    assert forall|p: int| 0 <= p < 13 && has_bit(used, p) implies offered(
        index,
        p,
        #[trigger] picks2[p],
    ) by {
        assert(picks2[p] == picks[p]);
        assert(offered(index, p, picks[p]));
    }
    assert forall|p: int, q: int, c: int|
        #![trigger has_bit(picks2[p], c), has_bit(picks2[q], c)]
        0 <= p < 13 && 0 <= q < 13 && p != q && has_bit(used, p) && has_bit(used, q) && has_bit(
            picks2[p],
            c,
        ) implies !has_bit(picks2[q], c) by {
        assert(picks2[p] == picks[p] && picks2[q] == picks[q]);
        assert(has_bit(picks[p], c));
        assert(!has_bit(picks[q], c));
    }
    assert forall|c: int| 0 <= c < 64 implies (#[trigger] has_bit(state, c) <==> covered_by_used(
        used,
        picks2,
        c,
    )) by {
        if covered_by_used(used, picks, c) {
            let p = choose|p: int|
                0 <= p < 13 && has_bit(used, p) && #[trigger] has_bit(picks[p], c);
            assert(picks2[p] == picks[p]);
            assert(has_bit(picks2[p], c));
        }
        if covered_by_used(used, picks2, c) {
            let p = choose|p: int|
                0 <= p < 13 && has_bit(used, p) && #[trigger] has_bit(picks2[p], c);
            assert(picks2[p] == picks[p]);
            assert(has_bit(picks[p], c));
        }
    }
    assert forall|s: Seq<u64>| #[trigger] extends(s, used, picks2) <==> extends(s, used, picks) by {
        if extends(s, used, picks2) {
            assert forall|p: int| 0 <= p < 13 && has_bit(used, p) implies #[trigger] s[p]
                == picks[p] by {
                assert(picks2[p] == picks[p]);
            }
        }
        if extends(s, used, picks) {
            assert forall|p: int| 0 <= p < 13 && has_bit(used, p) implies #[trigger] s[p]
                == picks2[p] by {
                assert(picks2[p] == picks[p]);
            }
        }
    }
}

/// Whether a search that fills the cell `c`, and has come to the `k`-th
/// listed placement of the piece `piece`, has already tried what `s` puts
/// on the cell: a placement of an earlier piece, or an earlier placement of
/// this piece.
pub open spec fn tried(
    index: &Vec<Vec<Vec<u64>>>,
    s: Seq<u64>,
    c: int,
    piece: int,
    k: int,
) -> bool {
    ||| covered_below(s, piece, c)
    ||| (0 <= piece < 13 && exists|j: int|
        0 <= j < k && j < index[c][piece].len() && s[piece] == #[trigger] index[c][piece][j])
}

/// What was added to `before` to give `after`.
pub open spec fn appended(before: Seq<Solution>, after: Seq<Solution>) -> Seq<Solution> {
    after.subrange(before.len() as int, after.len() as int)
}

proof fn lemma_covered_below_next(s: Seq<u64>, p: int, c: int)
    requires
        0 <= p,
    ensures
        covered_below(s, p + 1, c) <==> (covered_below(s, p, c) || has_bit(s[p], c)),
{
    if covered_below(s, p + 1, c) {
        let q = choose|q: int| 0 <= q < p + 1 && #[trigger] has_bit(s[q], c);
        if q < p {
            assert(covered_below(s, p, c));
        }
    }
    if covered_below(s, p, c) {
        let q = choose|q: int| 0 <= q < p && #[trigger] has_bit(s[q], c);
        assert(0 <= q < p + 1);
    }
}

/// A used piece has no part in filling an empty cell.
proof fn lemma_skip_used(
    index: &Vec<Vec<Vec<u64>>>,
    state: u64,
    used: u64,
    picks: Seq<u64>,
    c: int,
    p: int,
    s: Seq<u64>,
)
    requires
        path_ok(index, state, used, picks),
        0 <= c < 64,
        !has_bit(state, c),
        0 <= p < 13,
        has_bit(used, p),
        s.len() == 13,
        extends(s, used, picks),
    ensures
        tried(index, s, c, p + 1, 0) <==> tried(index, s, c, p, 0),
{
    lemma_covered_below_next(s, p, c);
    if has_bit(s[p], c) {
        assert(s[p] == picks[p]);
        assert(covered_by_used(used, picks, c));
    }
}

/// A placement that overlaps the occupied cells is the choice of no completion.
proof fn lemma_skip_overlap(
    index: &Vec<Vec<Vec<u64>>>,
    state: u64,
    used: u64,
    picks: Seq<u64>,
    c: int,
    p: int,
    k: int,
    s: Seq<u64>,
)
    requires
        path_ok(index, state, used, picks),
        0 <= c < 64,
        0 <= p < 13,
        !has_bit(used, p),
        0 <= k < index[c][p].len(),
        index[c][p][k] & state != 0,
        s.len() == 13,
        extends(s, used, picks),
        is_exact_cover(s),
    ensures
        tried(index, s, c, p, k + 1) <==> tried(index, s, c, p, k),
{
    let m = index[c][p][k];
    if s[p] == m {
        lemma_disjoint_bits(m, state);
        let b = choose|b: int| has_bit(m, b) && has_bit(state, b);
        assert(covered_by_used(used, picks, b));
        let q = choose|q: int| 0 <= q < 13 && has_bit(used, q) && #[trigger] has_bit(picks[q], b);
        assert(s[q] == picks[q]);
        lemma_exact_cover_cells(s);
        assert(has_bit(s[p], b) && has_bit(s[q], b));
    }
    if tried(index, s, c, p, k + 1) && !covered_below(s, p, c) {
        let j = choose|j: int|
            0 <= j < k + 1 && j < index[c][p].len() && s[p] == #[trigger] index[c][p][j];
        assert(j < k);
    }
    if tried(index, s, c, p, k) && !covered_below(s, p, c) {
        let j = choose|j: int|
            0 <= j < k && j < index[c][p].len() && s[p] == #[trigger] index[c][p][j];
        assert(0 <= j < k + 1);
    }
}

/// When the list of a piece is through, every packing in which the piece
/// fills the cell has been tried.
proof fn lemma_list_done(index: &Vec<Vec<Vec<u64>>>, c: int, p: int, s: Seq<u64>)
    requires
        index_wf(index),
        is_packing(index, s),
        0 <= c < 64,
        0 <= p < 13,
    ensures
        tried(index, s, c, p + 1, 0) <==> tried(index, s, c, p, index[c][p].len() as int),
{
    lemma_covered_below_next(s, p, c);
    if has_bit(s[p], c) {
        assert(offered(index, p, s[p]));
        let c0 = choose|c0: int| 0 <= c0 < 64 && (#[trigger] index[c0][p])@.contains(s[p]);
        let k0 = choose|k0: int| 0 <= k0 < index[c0][p]@.len() && index[c0][p]@[k0] == s[p];
        assert(has_bit(index[c0][p][k0], c));
        assert(index[c][p]@.contains(index[c0][p][k0]));
        let j = choose|j: int| 0 <= j < index[c][p]@.len() && index[c][p]@[j] == s[p];
        assert(s[p] == index[c][p][j]);
    }
    if tried(index, s, c, p, index[c][p].len() as int) && !covered_below(s, p, c) {
        let j = choose|j: int|
            0 <= j < index[c][p].len() && j < index[c][p].len() && s[p]
                == #[trigger] index[c][p][j];
        assert(has_bit(index[c][p][j], c));
    }
}

/// A packing that takes the `k`-th listed placement of a piece for the cell
/// was not tried before that placement, and is tried with it.
proof fn lemma_choice_fresh(index: &Vec<Vec<Vec<u64>>>, c: int, p: int, k: int, s: Seq<u64>)
    requires
        index_wf(index),
        s.len() == 13,
        pairwise_disjoint(s),
        0 <= c < 64,
        0 <= p < 13,
        0 <= k < index[c][p].len(),
        s[p] == index[c][p][k],
    ensures
        !tried(index, s, c, p, k),
        tried(index, s, c, p, k + 1),
{
    lemma_disjoint_cells(s);
    assert(has_bit(index[c][p][k], c));
    if covered_below(s, p, c) {
        let q = choose|q: int| 0 <= q < p && #[trigger] has_bit(s[q], c);
        assert(has_bit(s[q], c) && has_bit(s[p], c));
    }
    if exists|j: int| 0 <= j < k && j < index[c][p].len() && s[p] == #[trigger] index[c][p][j] {
        let j = choose|j: int|
            0 <= j < k && j < index[c][p].len() && s[p] == #[trigger] index[c][p][j];
        assert(index[c][p]@[j] == index[c][p]@[k]);
    }
}

/// One more placement tried: what was tried before, or that placement.
proof fn lemma_tried_next(index: &Vec<Vec<Vec<u64>>>, c: int, p: int, k: int, s: Seq<u64>)
    requires
        0 <= p < 13,
        0 <= k < index[c][p].len(),
    ensures
        tried(index, s, c, p, k + 1) <==> (tried(index, s, c, p, k) || s[p] == index[c][p][k]),
{
    if tried(index, s, c, p, k + 1) && !covered_below(s, p, c) {
        let j = choose|j: int|
            0 <= j < k + 1 && j < index[c][p].len() && s[p] == #[trigger] index[c][p][j];
        if j < k {
            assert(tried(index, s, c, p, k));
        }
    }
    if tried(index, s, c, p, k) && !covered_below(s, p, c) {
        let j = choose|j: int|
            0 <= j < k && j < index[c][p].len() && s[p] == #[trigger] index[c][p][j];
        assert(0 <= j < k + 1);
    }
}

/// The cell that the search fills next: the lowest one that `state` leaves
/// empty, or 64 when the cube is full.
pub open spec fn first_empty(state: u64) -> int {
    vstd::std_specs::bits::u64_trailing_ones(state) as int
}

/// The first empty cell is empty, and every cell before it is occupied.
pub proof fn lemma_first_empty(state: u64)
    requires
        state != FULL_CUBE,
    ensures
        0 <= first_empty(state) < 64,
        !has_bit(state, first_empty(state)),
        forall|c: int| 0 <= c < first_empty(state) ==> #[trigger] has_bit(state, c),
{
    vstd::std_specs::bits::axiom_u64_trailing_ones(state);
    assert forall|c: int| 0 <= c < first_empty(state) implies #[trigger] has_bit(state, c) by {
        let j: u64 = c as u64;
        assert((state >> j) & 1u64 == 1u64);
    }
}

/// Number of states that the search tries from `(state, used)`, that state included.
pub open spec fn visits(index: &Vec<Vec<Vec<u64>>>, state: u64, used: u64) -> nat
    decreases ALL_PIECES - used, 2int, 0int,
{
    if used >= ALL_PIECES || state == FULL_CUBE {
        1
    } else {
        1 + visits_below(index, state, used, first_empty(state), 13)
    }
}

/// Number of states tried below `(state, used)` through the first `pieces` pieces.
pub open spec fn visits_below(
    index: &Vec<Vec<Vec<u64>>>,
    state: u64,
    used: u64,
    c: int,
    pieces: nat,
) -> nat
    decreases ALL_PIECES - used, 1int, pieces,
{
    if pieces == 0 || used >= ALL_PIECES {
        0
    } else {
        let p = pieces - 1;
        visits_below(index, state, used, c, p as nat) + (if has_bit(used, p) {
            0
        } else {
            visits_in_list(index, state, used, c, p, index[c][p].len() as nat)
        })
    }
}

/// Number of states tried below `(state, used)` through the first `n`
/// placements that the index lists for the free piece `p` under the cell `c`.
pub open spec fn visits_in_list(
    index: &Vec<Vec<Vec<u64>>>,
    state: u64,
    used: u64,
    c: int,
    p: int,
    n: nat,
) -> nat
    decreases ALL_PIECES - used, 0int, n,
{
    if n == 0 || used >= ALL_PIECES || !(0 <= p < 13) || has_bit(used, p) {
        0
    } else {
        let m = index[c][p][n - 1];
        visits_in_list(index, state, used, c, p, (n - 1) as nat) + (if m & state == 0 {
            proof {
                lemma_mark_used(used, p);
            }
            visits(index, state | m, used | single_cell(p))
        } else {
            0
        })
    }
}

/// The masks of each of `sols`.
pub open spec fn masks_of(sols: Seq<Solution>) -> Seq<Seq<u64>> {
    sols.map_values(|sol: Solution| sol.0@)
}

/// The solutions that the search finds from `(state, used, picks)`, in the
/// order in which it finds them.
pub open spec fn found(index: &Vec<Vec<Vec<u64>>>, state: u64, used: u64, picks: Seq<u64>) -> Seq<
    Seq<u64>,
>
    decreases ALL_PIECES - used, 2int, 0int,
{
    if used >= ALL_PIECES {
        if used == ALL_PIECES && state == FULL_CUBE {
            seq![picks]
        } else {
            Seq::empty()
        }
    } else if state == FULL_CUBE {
        Seq::empty()
    } else {
        found_below(index, state, used, picks, first_empty(state), 13)
    }
}

/// The solutions found below `(state, used, picks)` through the first `pieces` pieces.
pub open spec fn found_below(
    index: &Vec<Vec<Vec<u64>>>,
    state: u64,
    used: u64,
    picks: Seq<u64>,
    c: int,
    pieces: nat,
) -> Seq<Seq<u64>>
    decreases ALL_PIECES - used, 1int, pieces,
{
    if pieces == 0 || used >= ALL_PIECES {
        Seq::empty()
    } else {
        let p = pieces - 1;
        found_below(index, state, used, picks, c, p as nat) + (if has_bit(used, p) {
            Seq::empty()
        } else {
            found_in_list(index, state, used, picks, c, p, index[c][p].len() as nat)
        })
    }
}

/// The solutions found below `(state, used, picks)` through the first `n`
/// placements that the index lists for the free piece `p` under the cell `c`.
pub open spec fn found_in_list(
    index: &Vec<Vec<Vec<u64>>>,
    state: u64,
    used: u64,
    picks: Seq<u64>,
    c: int,
    p: int,
    n: nat,
) -> Seq<Seq<u64>>
    decreases ALL_PIECES - used, 0int, n,
{
    if n == 0 || used >= ALL_PIECES || !(0 <= p < 13) || has_bit(used, p) {
        Seq::empty()
    } else {
        let m = index[c][p][n - 1];
        found_in_list(index, state, used, picks, c, p, (n - 1) as nat) + (if m & state == 0 {
            proof {
                lemma_mark_used(used, p);
            }
            found(index, state | m, used | single_cell(p), picks.update(p, m))
        } else {
            Seq::empty()
        })
    }
}

/// What the search finds depends on the picks of the used pieces only.
proof fn lemma_found_agrees(
    index: &Vec<Vec<Vec<u64>>>,
    state: u64,
    used: u64,
    picks: Seq<u64>,
    picks2: Seq<u64>,
)
    requires
        picks.len() == 13,
        picks2.len() == 13,
        extends(picks2, used, picks),
    ensures
        found(index, state, used, picks2) == found(index, state, used, picks),
    decreases ALL_PIECES - used, 2int, 0int,
{
    if used >= ALL_PIECES {
        if used == ALL_PIECES {
            lemma_all_pieces_bits();
            assert forall|p: int| 0 <= p < 13 implies picks2[p] == picks[p] by {
                assert(has_bit(used, p));
            }
            assert(picks2 =~= picks);
        }
    } else if state != FULL_CUBE {
        lemma_found_below_agrees(index, state, used, picks, picks2, first_empty(state), 13);
    }
}

proof fn lemma_found_below_agrees(
    index: &Vec<Vec<Vec<u64>>>,
    state: u64,
    used: u64,
    picks: Seq<u64>,
    picks2: Seq<u64>,
    c: int,
    pieces: nat,
)
    requires
        picks.len() == 13,
        picks2.len() == 13,
        extends(picks2, used, picks),
    ensures
        found_below(index, state, used, picks2, c, pieces) == found_below(
            index,
            state,
            used,
            picks,
            c,
            pieces,
        ),
    decreases ALL_PIECES - used, 1int, pieces,
{
    if pieces != 0 && used < ALL_PIECES {
        let p = pieces - 1;
        lemma_found_below_agrees(index, state, used, picks, picks2, c, p as nat);
        if !has_bit(used, p) {
            lemma_found_in_list_agrees(
                index,
                state,
                used,
                picks,
                picks2,
                c,
                p,
                index[c][p].len() as nat,
            );
        }
    }
}

proof fn lemma_found_in_list_agrees(
    index: &Vec<Vec<Vec<u64>>>,
    state: u64,
    used: u64,
    picks: Seq<u64>,
    picks2: Seq<u64>,
    c: int,
    p: int,
    n: nat,
)
    requires
        picks.len() == 13,
        picks2.len() == 13,
        extends(picks2, used, picks),
    ensures
        found_in_list(index, state, used, picks2, c, p, n) == found_in_list(
            index,
            state,
            used,
            picks,
            c,
            p,
            n,
        ),
    decreases ALL_PIECES - used, 0int, n,
{
    if !(n == 0 || used >= ALL_PIECES || !(0 <= p < 13) || has_bit(used, p)) {
        let m = index[c][p][n - 1];
        lemma_found_in_list_agrees(index, state, used, picks, picks2, c, p, (n - 1) as nat);
        if m & state == 0 {
            lemma_mark_used(used, p);
            let used2 = used | single_cell(p);
            assert forall|q: int| 0 <= q < 13 && has_bit(used2, q) implies #[trigger] picks2.update(
                p,
                m,
            )[q] == picks.update(p, m)[q] by {
                if q != p {
                    assert(picks2[q] == picks[q]);
                }
            }
            lemma_found_agrees(index, state | m, used2, picks.update(p, m), picks2.update(p, m));
        }
    }
}

/// Whether `sols` is what a search from the partial assignment `(used,
/// picks)` adds: the solutions that keep the picks, each once.
pub open spec fn is_search_result(
    index: &Vec<Vec<Vec<u64>>>,
    used: u64,
    picks: Seq<u64>,
    sols: Seq<Solution>,
) -> bool {
    &&& sols.no_duplicates()
    &&& forall|sol: Solution| #[trigger] sols.contains(sol) <==> completes(index, used, picks, sol)
}

/// Whether `sols` is what a search from `(used, picks)` has added while it
/// fills the cell `c` and stands at the `k`-th listed placement of the piece
/// `piece`: the solutions that keep the picks and that it has tried, each once.
pub open spec fn found_so_far(
    index: &Vec<Vec<Vec<u64>>>,
    used: u64,
    picks: Seq<u64>,
    sols: Seq<Solution>,
    c: int,
    piece: int,
    k: int,
) -> bool {
    &&& sols.no_duplicates()
    &&& forall|sol: Solution| #[trigger]
        sols.contains(sol) <==> (completes(index, used, picks, sol) && tried(
            index,
            sol.0@,
            c,
            piece,
            k,
        ))
}

/// What was added in two steps is what was added in the first and then in the second.
proof fn lemma_appended_twice(sols0: Seq<Solution>, mid: Seq<Solution>, after: Seq<Solution>)
    requires
        sols0.len() <= mid.len() <= after.len(),
        mid.subrange(0, sols0.len() as int) == sols0,
        after.subrange(0, mid.len() as int) == mid,
    ensures
        after.subrange(0, sols0.len() as int) == sols0,
        appended(sols0, after) == appended(sols0, mid) + appended(mid, after),
        masks_of(appended(sols0, after)) == masks_of(appended(sols0, mid)) + masks_of(
            appended(mid, after),
        ),
{
    let a = appended(sols0, mid);
    let b = appended(mid, after);
    assert(after.subrange(0, sols0.len() as int) =~= mid.subrange(0, sols0.len() as int));
    assert(appended(sols0, after) =~= a + b) by {
        assert forall|i: int| 0 <= i < a.len() implies appended(sols0, after)[i] == a[i] by {
            assert(after.subrange(0, mid.len() as int)[sols0.len() + i] == mid[sols0.len() + i]);
        }
    }
    assert(masks_of(a + b) =~= masks_of(a) + masks_of(b));
}

/// With every piece used and the cube full, the picks are what the search adds.
proof fn lemma_result_all_used(
    index: &Vec<Vec<Vec<u64>>>,
    state: u64,
    used: u64,
    picks: Seq<u64>,
    emitted: Solution,
)
    requires
        path_ok(index, state, used, picks),
        used == ALL_PIECES,
        state == FULL_CUBE,
        emitted.0@ == picks,
    ensures
        is_search_result(index, used, picks, seq![emitted]),
{
    let sols = seq![emitted];
    assert forall|sol: Solution| #[trigger] sols.contains(sol) <==> completes(
        index,
        used,
        picks,
        sol,
    ) by {
        if sols.contains(sol) {
            let i = choose|i: int| 0 <= i < sols.len() && sols[i] == sol;
            lemma_all_used(index, state, used, picks, picks);
        }
        if completes(index, used, picks, sol) {
            lemma_all_used(index, state, used, picks, sol.0@);
            assert(sol.0 =~= emitted.0);
            assert(sols[0] == sol);
        }
    }
}

/// With every piece used and a cell left empty, the search adds nothing.
proof fn lemma_result_not_full(
    index: &Vec<Vec<Vec<u64>>>,
    state: u64,
    used: u64,
    picks: Seq<u64>,
)
    requires
        path_ok(index, state, used, picks),
        used == ALL_PIECES,
        state != FULL_CUBE,
    ensures
        is_search_result(index, used, picks, Seq::<Solution>::empty()),
{
    assert forall|sol: Solution| !completes(index, used, picks, sol) by {
        if extends(sol.0@, used, picks) {
            lemma_all_used(index, state, used, picks, sol.0@);
        }
    }
}

/// A full cube with a piece left over adds nothing.
proof fn lemma_result_full_cube(
    index: &Vec<Vec<Vec<u64>>>,
    state: u64,
    used: u64,
    picks: Seq<u64>,
)
    requires
        index_wf(index),
        path_ok(index, state, used, picks),
        used != ALL_PIECES,
        state == FULL_CUBE,
    ensures
        is_search_result(index, used, picks, Seq::<Solution>::empty()),
{
    assert forall|sol: Solution| !completes(index, used, picks, sol) by {
        if extends(sol.0@, used, picks) {
            lemma_full_cube_dead_end(index, state, used, picks, sol.0@);
        }
    }
}

/// Before the first piece, nothing is tried and nothing is found.
proof fn lemma_step_start(index: &Vec<Vec<Vec<u64>>>, used: u64, picks: Seq<u64>, c: int)
    ensures
        found_so_far(index, used, picks, Seq::<Solution>::empty(), c, 0, 0),
{
    assert forall|sol: Solution| !tried(index, sol.0@, c, 0, 0) by {}
}

/// A used piece is passed over.
proof fn lemma_step_used(
    index: &Vec<Vec<Vec<u64>>>,
    state: u64,
    used: u64,
    picks: Seq<u64>,
    sols: Seq<Solution>,
    c: int,
    p: int,
)
    requires
        path_ok(index, state, used, picks),
        0 <= c < 64,
        !has_bit(state, c),
        0 <= p < 13,
        has_bit(used, p),
        found_so_far(index, used, picks, sols, c, p, 0),
    ensures
        found_so_far(index, used, picks, sols, c, p + 1, 0),
{
    assert forall|sol: Solution| extends(sol.0@, used, picks) implies (tried(
        index,
        sol.0@,
        c,
        p + 1,
        0,
    ) <==> tried(index, sol.0@, c, p, 0)) by {
        lemma_skip_used(index, state, used, picks, c, p, sol.0@);
    }
}

/// A placement that overlaps the occupied cells is passed over.
proof fn lemma_step_overlap(
    index: &Vec<Vec<Vec<u64>>>,
    state: u64,
    used: u64,
    picks: Seq<u64>,
    sols: Seq<Solution>,
    c: int,
    p: int,
    k: int,
)
    requires
        path_ok(index, state, used, picks),
        0 <= c < 64,
        0 <= p < 13,
        !has_bit(used, p),
        0 <= k < index[c][p].len(),
        index[c][p][k] & state != 0,
        found_so_far(index, used, picks, sols, c, p, k),
    ensures
        found_so_far(index, used, picks, sols, c, p, k + 1),
{
    assert forall|sol: Solution| completes(index, used, picks, sol) implies (tried(
        index,
        sol.0@,
        c,
        p,
        k + 1,
    ) <==> tried(index, sol.0@, c, p, k)) by {
        lemma_skip_overlap(index, state, used, picks, c, p, k, sol.0@);
    }
}

/// When the list of a piece is through, the next piece is up.
proof fn lemma_step_list_done(
    index: &Vec<Vec<Vec<u64>>>,
    used: u64,
    picks: Seq<u64>,
    sols: Seq<Solution>,
    c: int,
    p: int,
)
    requires
        index_wf(index),
        0 <= c < 64,
        0 <= p < 13,
        found_so_far(index, used, picks, sols, c, p, index[c][p].len() as int),
    ensures
        found_so_far(index, used, picks, sols, c, p + 1, 0),
{
    assert forall|sol: Solution| completes(index, used, picks, sol) implies (tried(
        index,
        sol.0@,
        c,
        p + 1,
        0,
    ) <==> tried(index, sol.0@, c, p, index[c][p].len() as int)) by {
        lemma_list_done(index, c, p, sol.0@);
    }
}

/// The solutions that a deeper search has added join those found before.
proof fn lemma_step_child(
    index: &Vec<Vec<Vec<u64>>>,
    state: u64,
    used: u64,
    picks0: Seq<u64>,
    picks1: Seq<u64>,
    c: int,
    p: int,
    k: int,
    a: Seq<Solution>,
    b: Seq<Solution>,
)
    requires
        index_wf(index),
        path_ok(index, state, used, picks0),
        picks1.len() == 13,
        extends(picks1, used, picks0),
        0 <= c < 64,
        0 <= p < 13,
        !has_bit(used, p),
        0 <= k < index[c][p].len(),
        found_so_far(index, used, picks0, a, c, p, k),
        is_search_result(index, used | single_cell(p), picks1.update(p, index[c][p][k]), b),
    ensures
        found_so_far(index, used, picks0, a + b, c, p, k + 1),
{
    let m = index[c][p][k];
    lemma_path_agrees(index, state, used, picks0, picks1);
    assert forall|sol: Solution| #[trigger] b.contains(sol) <==> (completes(
        index,
        used,
        picks0,
        sol,
    ) && sol.0@[p] == m) by {
        assert(sol.0@.len() == 13);
        lemma_extends_child(used, picks1, p, m, sol.0@);
        assert(extends(sol.0@, used, picks1) <==> extends(sol.0@, used, picks0));
    }
    assert forall|i: int, j: int| 0 <= i < a.len() && 0 <= j < b.len() implies a[i] != b[j] by {
        assert(a.contains(a[i]));
        assert(b.contains(b[j]));
        if a[i] == b[j] {
            lemma_choice_fresh(index, c, p, k, a[i].0@);
        }
    }
    vstd::seq_lib::lemma_no_dup_in_concat(a, b);
    assert forall|sol: Solution| #[trigger]
        (a + b).contains(sol) <==> (completes(index, used, picks0, sol) && tried(
            index,
            sol.0@,
            c,
            p,
            k + 1,
        )) by {
        lemma_tried_next(index, c, p, k, sol.0@);
        if (a + b).contains(sol) {
            let i = choose|i: int| 0 <= i < (a + b).len() && (a + b)[i] == sol;
            if i < a.len() {
                assert(a[i] == sol);
                assert(a.contains(sol));
            } else {
                assert(b[i - a.len()] == sol);
                assert(b.contains(sol));
            }
        }
        if a.contains(sol) {
            let i = choose|i: int| 0 <= i < a.len() && a[i] == sol;
            assert((a + b)[i] == sol);
        }
        if b.contains(sol) {
            let i = choose|i: int| 0 <= i < b.len() && b[i] == sol;
            assert((a + b)[a.len() + i] == sol);
        }
    }
}

/// When every piece is through, every solution has been tried.
proof fn lemma_step_finish(
    index: &Vec<Vec<Vec<u64>>>,
    used: u64,
    picks: Seq<u64>,
    sols: Seq<Solution>,
    c: int,
)
    requires
        0 <= c < 64,
        found_so_far(index, used, picks, sols, c, 13, 0),
    ensures
        is_search_result(index, used, picks, sols),
{
    assert forall|sol: Solution| completes(index, used, picks, sol) implies tried(
        index,
        sol.0@,
        c,
        13,
        0,
    ) by {
        lemma_exact_cover_cells(sol.0@);
        assert(covered_below(sol.0@, 13, c));
    }
}

/// Searches for every way to complete the partial assignment `(state,
/// used_pieces, picks)` to a solution, and adds each to `solutions`.
///
/// A state with every piece used is a solution if the cube is full and a
/// dead end if it is not; a full cube with a piece left over is a dead end.
/// Any other state is extended at its first empty cell, by each placement
/// that `bit_map` lists under that cell for a free piece and that fits into
/// the empty cells; the state itself then counts as one more dead end.
///
/// Where `(state, used_pieces, picks)` is a state on a search path, what is
/// added are the solutions that keep the picks of the used pieces, each once.
pub fn search(
    state: u64,
    used_pieces: u64,
    bit_map: &Vec<Vec<Vec<u64>>>,
    picks: &mut [u64; NUM_PIECES],
    stats: &mut Stats,
    solutions: &mut Vec<Solution>,
)
    requires
        index_wf(bit_map),
        used_pieces <= ALL_PIECES,
    ensures
        old(solutions)@.len() <= final(solutions)@.len(),
        final(solutions)@.subrange(0, old(solutions)@.len() as int) == old(solutions)@,
        masks_of(appended(old(solutions)@, final(solutions)@)) == found(
            bit_map,
            state,
            used_pieces,
            old(picks)@,
        ),
        path_ok(bit_map, state, used_pieces, old(picks)@) ==> is_search_result(
            bit_map,
            used_pieces,
            old(picks)@,
            appended(old(solutions)@, final(solutions)@),
        ),
        extends(final(picks)@, used_pieces, old(picks)@),
        final(stats).num_solutions == added(
            old(stats).num_solutions,
            appended(old(solutions)@, final(solutions)@).len(),
        ),
        final(stats).num_permutations == added(
            old(stats).num_permutations,
            visits(bit_map, state, used_pieces),
        ),
    decreases ALL_PIECES - used_pieces,
{
    let ghost picks0 = picks@;
    let ghost sols0 = solutions@;
    let ghost stats0 = *stats;
    let ghost on_path = path_ok(bit_map, state, used_pieces, picks0);
    if used_pieces == ALL_PIECES {
        if state == FULL_CUBE {
            solutions.push(Solution(*picks));
            stats.success();
            proof {
                let emitted = Solution(*picks);
                assert(appended(sols0, solutions@) =~= seq![emitted]);
                assert(masks_of(seq![emitted]) =~= seq![picks0]);
                assert(solutions@.subrange(0, sols0.len() as int) =~= sols0);
                if on_path {
                    lemma_result_all_used(bit_map, state, used_pieces, picks0, emitted);
                }
            }
        } else {
            stats.fail();
            proof {
                assert(appended(sols0, solutions@) =~= Seq::<Solution>::empty());
                assert(masks_of(Seq::<Solution>::empty()) =~= Seq::<Seq<u64>>::empty());
                assert(solutions@.subrange(0, sols0.len() as int) =~= sols0);
                if on_path {
                    lemma_result_not_full(bit_map, state, used_pieces, picks0);
                }
            }
        }
        return ;
    }
    if state == FULL_CUBE {
        stats.fail();
        proof {
            assert(appended(sols0, solutions@) =~= Seq::<Solution>::empty());
            assert(masks_of(Seq::<Solution>::empty()) =~= Seq::<Seq<u64>>::empty());
            assert(solutions@.subrange(0, sols0.len() as int) =~= sols0);
            if on_path {
                lemma_result_full_cube(bit_map, state, used_pieces, picks0);
            }
        }
        return ;
    }
    // The first empty cell of the cube, counted from the lowest bit.
    let bit_index: usize = state.trailing_ones() as usize;
    proof {
        lemma_first_empty(state);
        assert(appended(sols0, solutions@) =~= Seq::<Solution>::empty());
        assert(masks_of(Seq::<Solution>::empty()) =~= Seq::<Seq<u64>>::empty());
        assert(solutions@.subrange(0, sols0.len() as int) =~= sols0);
        lemma_step_start(bit_map, used_pieces, picks0, bit_index as int);
    }
    let mut piece: usize = 0;
    while piece < NUM_PIECES
        invariant
            piece <= 13,
            index_wf(bit_map),
            picks0.len() == 13,
            on_path == path_ok(bit_map, state, used_pieces, picks0),
            used_pieces < ALL_PIECES,
            state != FULL_CUBE,
            bit_index == first_empty(state),
            bit_index < 64,
            !has_bit(state, bit_index as int),
            extends(picks@, used_pieces, picks0),
            sols0.len() <= solutions@.len(),
            solutions@.subrange(0, sols0.len() as int) == sols0,
            on_path ==> found_so_far(
                bit_map,
                used_pieces,
                picks0,
                appended(sols0, solutions@),
                bit_index as int,
                piece as int,
                0,
            ),
            masks_of(appended(sols0, solutions@)) == found_below(
                bit_map,
                state,
                used_pieces,
                picks0,
                bit_index as int,
                piece as nat,
            ),
            stats.num_solutions == added(
                stats0.num_solutions,
                appended(sols0, solutions@).len(),
            ),
            stats.num_permutations == added(
                stats0.num_permutations,
                visits_below(bit_map, state, used_pieces, bit_index as int, piece as nat),
            ),
        decreases 13 - piece,
    {
        proof {
            crate::geometry::lemma_bit_test(used_pieces, piece as int);
        }
        if used_pieces & (1u64 << piece) != 0 {
            proof {
                if on_path {
                    lemma_step_used(
                        bit_map,
                        state,
                        used_pieces,
                        picks0,
                        appended(sols0, solutions@),
                        bit_index as int,
                        piece as int,
                    );
                }
            }
        } else {
            let list: &Vec<u64> = &bit_map[bit_index][piece];
            let mut k: usize = 0;
            while k < list.len()
                invariant
                    piece < 13,
                    k <= list.len(),
                    list == bit_map[bit_index as int][piece as int],
                    !has_bit(used_pieces, piece as int),
                    index_wf(bit_map),
                    picks0.len() == 13,
                    on_path == path_ok(bit_map, state, used_pieces, picks0),
                    used_pieces < ALL_PIECES,
                    state != FULL_CUBE,
                    bit_index == first_empty(state),
                    bit_index < 64,
                    !has_bit(state, bit_index as int),
                    extends(picks@, used_pieces, picks0),
                    sols0.len() <= solutions@.len(),
                    solutions@.subrange(0, sols0.len() as int) == sols0,
                    on_path ==> found_so_far(
                        bit_map,
                        used_pieces,
                        picks0,
                        appended(sols0, solutions@),
                        bit_index as int,
                        piece as int,
                        k as int,
                    ),
                    masks_of(appended(sols0, solutions@)) == found_below(
                        bit_map,
                        state,
                        used_pieces,
                        picks0,
                        bit_index as int,
                        piece as nat,
                    ) + found_in_list(
                        bit_map,
                        state,
                        used_pieces,
                        picks0,
                        bit_index as int,
                        piece as int,
                        k as nat,
                    ),
                    stats.num_solutions == added(
                        stats0.num_solutions,
                        appended(sols0, solutions@).len(),
                    ),
                    stats.num_permutations == added(
                        stats0.num_permutations,
                        visits_below(bit_map, state, used_pieces, bit_index as int, piece as nat)
                            + visits_in_list(
                            bit_map,
                            state,
                            used_pieces,
                            bit_index as int,
                            piece as int,
                            k as nat,
                        ),
                    ),
                decreases list.len() - k,
            {
                let permutation: u64 = list[k];
                if permutation & state == 0 {
                    let ghost picks1 = picks@;
                    let ghost mid = solutions@;
                    proof {
                        lemma_mark_used(used_pieces, piece as int);
                        if on_path {
                            lemma_path_agrees(bit_map, state, used_pieces, picks0, picks1);
                            lemma_child_path(
                                bit_map,
                                state,
                                used_pieces,
                                picks1,
                                bit_index as int,
                                piece as int,
                                k as int,
                            );
                        }
                    }
                    picks[piece] = permutation;
                    search(
                        state | permutation,
                        used_pieces | (1u64 << piece),
                        bit_map,
                        picks,
                        stats,
                        solutions,
                    );
                    proof {
                        assert forall|q: int|
                            0 <= q < 13 && has_bit(
                                used_pieces | single_cell(piece as int),
                                q,
                            ) implies #[trigger] picks1.update(piece as int, permutation)[q]
                            == picks0.update(piece as int, permutation)[q] by {
                            if q != piece {
                                assert(picks1[q] == picks0[q]);
                            }
                        }
                        lemma_found_agrees(
                            bit_map,
                            state | permutation,
                            used_pieces | single_cell(piece as int),
                            picks0.update(piece as int, permutation),
                            picks1.update(piece as int, permutation),
                        );
                        lemma_appended_twice(sols0, mid, solutions@);
                        if on_path {
                            lemma_step_child(
                                bit_map,
                                state,
                                used_pieces,
                                picks0,
                                picks1,
                                bit_index as int,
                                piece as int,
                                k as int,
                                appended(sols0, mid),
                                appended(mid, solutions@),
                            );
                        }
                        assert forall|q: int|
                            0 <= q < 13 && has_bit(used_pieces, q) implies #[trigger] picks@[q]
                            == picks0[q] by {
                            assert(has_bit(used_pieces | single_cell(piece as int), q));
                            assert(picks@[q] == picks1.update(piece as int, permutation)[q]);
                            assert(picks1[q] == picks0[q]);
                        }
                    }
                } else {
                    proof {
                        if on_path {
                            lemma_step_overlap(
                                bit_map,
                                state,
                                used_pieces,
                                picks0,
                                appended(sols0, solutions@),
                                bit_index as int,
                                piece as int,
                                k as int,
                            );
                        }
                    }
                }
                k += 1;
            }
            proof {
                if on_path {
                    lemma_step_list_done(
                        bit_map,
                        used_pieces,
                        picks0,
                        appended(sols0, solutions@),
                        bit_index as int,
                        piece as int,
                    );
                }
            }
        }
        piece += 1;
    }
    stats.fail();
    proof {
        if on_path {
            lemma_step_finish(
                bit_map,
                used_pieces,
                picks0,
                appended(sols0, solutions@),
                bit_index as int,
            );
        }
    }
}

} // verus!
