//! All the ways to put one piece into the cube.

use std::collections::HashSet;
use vstd::arithmetic::div_mod::lemma_fundamental_div_mod_converse;
use vstd::prelude::*;
use crate::geometry::{cell_count, count_cells, Axis};
use crate::transform::{
    fits_after_move, lemma_four_turns_identity, lemma_rotation_preserves_count,
    lemma_translation_count, rotate_piece_90, rotated, translate, translated,
};

verus! {

/// `v` after `n` quarter turns about `axis`.
pub open spec fn turned(v: u64, axis: Axis, n: nat) -> u64
    decreases n,
{
    if n == 0 {
        v
    } else {
        rotated(turned(v, axis, (n - 1) as nat), axis)
    }
}

/// `v` after `k` quarter turns about Z, then `j` about Y, then `i` about X.
pub open spec fn oriented(v: u64, i: nat, j: nat, k: nat) -> u64 {
    turned(turned(turned(v, Axis::Z, k), Axis::Y, j), Axis::X, i)
}

/// Whether `m` is `piece` in one of its orientations.
pub open spec fn is_orientation(piece: u64, m: u64) -> bool {
    exists|i: nat, j: nat, k: nat|
        i < 4 && j < 4 && k < 4 && m == #[trigger] oriented(piece, i, j, k)
}

/// `piece` in the orientation `(i, j, k)`, moved by `(dx, dy, dz)`.
pub open spec fn placed(piece: u64, i: nat, j: nat, k: nat, dx: int, dy: int, dz: int) -> u64 {
    translated(oriented(piece, i, j, k), dx, dy, dz)
}

/// Whether `m` is a placement of `piece`: one of its orientations, moved by
/// less than the cube's size along each axis, with no cell lost.
pub open spec fn is_placement(piece: u64, m: u64) -> bool {
    &&& cell_count(m) == cell_count(piece)
    &&& exists|i: nat, j: nat, k: nat, dx: int, dy: int, dz: int|
        i < 4 && j < 4 && k < 4 && -4 <= dx < 4 && -4 <= dy < 4 && -4 <= dz < 4 && m
            == #[trigger] placed(piece, i, j, k, dx, dy, dz)
}

/// Four more quarter turns about one axis change nothing.
pub proof fn lemma_turned_four(v: u64, axis: Axis)
    ensures
        turned(v, axis, 4) == v,
{
    reveal_with_fuel(turned, 5);
    lemma_four_turns_identity(v, axis);
}

/// Quarter turns keep the number of occupied cells.
pub proof fn lemma_turned_count(v: u64, axis: Axis, n: nat)
    ensures
        cell_count(turned(v, axis, n)) == cell_count(v),
    decreases n,
{
    if n > 0 {
        lemma_turned_count(v, axis, (n - 1) as nat);
        lemma_rotation_preserves_count(turned(v, axis, (n - 1) as nat), axis);
    }
}

/// Every orientation of a piece has as many cells as the piece.
pub proof fn lemma_oriented_count(v: u64, i: nat, j: nat, k: nat)
    ensures
        cell_count(oriented(v, i, j, k)) == cell_count(v),
{
    lemma_turned_count(v, Axis::Z, k);
    lemma_turned_count(turned(v, Axis::Z, k), Axis::Y, j);
    lemma_turned_count(turned(turned(v, Axis::Z, k), Axis::Y, j), Axis::X, i);
}

/// A placement has as many cells as its piece, and is an orientation of the
/// piece moved as a whole, every cell of it landing inside the cube.
pub proof fn lemma_placement_valid(piece: u64, m: u64)
    requires
        is_placement(piece, m),
    ensures
        cell_count(m) == cell_count(piece),
        exists|o: u64, dx: int, dy: int, dz: int|
            is_orientation(piece, o) && m == #[trigger] translated(o, dx, dy, dz)
                && fits_after_move(o, dx, dy, dz),
{
    let (i, j, k, dx, dy, dz) = choose|i: nat, j: nat, k: nat, dx: int, dy: int, dz: int|
        i < 4 && j < 4 && k < 4 && -4 <= dx < 4 && -4 <= dy < 4 && -4 <= dz < 4 && m
            == #[trigger] placed(piece, i, j, k, dx, dy, dz);
    let o = oriented(piece, i, j, k);
    lemma_oriented_count(piece, i, j, k);
    lemma_translation_count(o, dx, dy, dz);
    assert(m == translated(o, dx, dy, dz));
}

/// A set of masks that remembers the order in which they came.
pub struct MaskSet {
    seen: HashSet<u64>,
    order: Vec<u64>,
}

impl MaskSet {
    /// The masks of the set, in the order of their first insertion.
    pub closed spec fn view(&self) -> Seq<u64> {
        self.order@
    }

    /// The set holds each mask once, and what it has seen is what it holds.
    pub closed spec fn wf(&self) -> bool {
        &&& self.order@.no_duplicates()
        &&& forall|m: u64| self.seen@.contains(m) <==> self.order@.contains(m)
    }

    /// The empty set.
    pub fn new() -> (s: Self)
        ensures
            s.wf(),
            s@ == Seq::<u64>::empty(),
    {
        MaskSet { seen: HashSet::new(), order: Vec::new() }
    }

    /// Adds `m` unless the set holds it already; returns whether it was added.
    pub fn insert(&mut self, m: u64) -> (added: bool)
        requires
            old(self).wf(),
        ensures
            final(self).wf(),
            added == !old(self)@.contains(m),
            final(self)@ == (if added {
                old(self)@.push(m)
            } else {
                old(self)@
            }),
            forall|x: u64| final(self)@.contains(x) <==> (old(self)@.contains(x) || x == m),
    {
        broadcast use vstd::std_specs::hash::group_hash_axioms;

        let ghost before = self.order@;
        let added: bool = self.seen.insert(m);
        if added {
            self.order.push(m);
            proof {
                let after = before.push(m);
                assert(after[before.len() as int] == m);
                assert forall|x: u64| after.contains(x) <==> (before.contains(x) || x == m) by {
                    if before.contains(x) {
                        let i = choose|i: int| 0 <= i < before.len() && before[i] == x;
                        assert(after[i] == x);
                    }
                }
            }
        }
        added
    }

    /// The masks of the set, in the order of their first insertion.
    pub fn into_vec(self) -> (v: Vec<u64>)
        requires
            self.wf(),
        ensures
            v@ == self@,
            v@.no_duplicates(),
    {
        self.order
    }
}

/// Whether the turning loops, standing at `k` turns about Z, `j` about Y and
/// `i` about X, have already produced the orientation `(i2, j2, k2)`.
pub open spec fn reached(i2: nat, j2: nat, k2: nat, i: nat, j: nat, k: nat) -> bool {
    k2 < k || (k2 == k && (j2 < j || (j2 == j && ((0 < i2 <= i) || (i == 4 && i2 == 0)))))
}

/// `set` holds only orientations of `piece`, and all those produced so far.
spec fn orientations_so_far(set: Seq<u64>, piece: u64, i: nat, j: nat, k: nat) -> bool {
    &&& forall|m: u64| #[trigger] set.contains(m) ==> is_orientation(piece, m)
    &&& forall|i2: nat, j2: nat, k2: nat|
        i2 < 4 && j2 < 4 && k2 < 4 && reached(i2, j2, k2, i, j, k) ==> set.contains(
            #[trigger] oriented(piece, i2, j2, k2),
        )
}

/// Orientations with a count of four turns are orientations with a count of none.
pub proof fn lemma_orientation_wraps(piece: u64, i: nat, j: nat, k: nat)
    requires
        i <= 4,
        j <= 4,
        k <= 4,
    ensures
        oriented(piece, i, j, k) == oriented(
            piece,
            if i == 4 { 0 } else { i },
            if j == 4 { 0 } else { j },
            if k == 4 { 0 } else { k },
        ),
        is_orientation(piece, oriented(piece, i, j, k)),
{
    let i0: nat = if i == 4 { 0 } else { i };
    let j0: nat = if j == 4 { 0 } else { j };
    let k0: nat = if k == 4 { 0 } else { k };
    lemma_turned_four(piece, Axis::Z);
    assert(turned(piece, Axis::Z, k) == turned(piece, Axis::Z, k0));
    let a = turned(piece, Axis::Z, k0);
    lemma_turned_four(a, Axis::Y);
    assert(turned(a, Axis::Y, j) == turned(a, Axis::Y, j0));
    let b = turned(a, Axis::Y, j0);
    lemma_turned_four(b, Axis::X);
    assert(turned(b, Axis::X, i) == turned(b, Axis::X, i0));
    assert(oriented(piece, i, j, k) == oriented(piece, i0, j0, k0));
}

/// The distinct orientations of `piece`: what the quarter turns about X, then
/// Y, then Z reach from it.
pub fn generate_orientations(piece: u64) -> (r: Vec<u64>)
    ensures
        r@.no_duplicates(),
        forall|m: u64| r@.contains(m) <==> is_orientation(piece, m),
{
    let mut cur: u64 = piece;
    let mut set: MaskSet = MaskSet::new();
    let mut k: usize = 0;
    while k < 4
        invariant
            k <= 4,
            set.wf(),
            cur == oriented(piece, 0, 0, k as nat),
            orientations_so_far(set@, piece, 0, 0, k as nat),
        decreases 4 - k,
    {
        let mut j: usize = 0;
        while j < 4
            invariant
                k < 4,
                j <= 4,
                set.wf(),
                cur == oriented(piece, 0, j as nat, k as nat),
                orientations_so_far(set@, piece, 0, j as nat, k as nat),
            decreases 4 - j,
        {
            let mut i: usize = 0;
            while i < 4
                invariant
                    k < 4,
                    j < 4,
                    i <= 4,
                    set.wf(),
                    cur == oriented(piece, i as nat, j as nat, k as nat),
                    orientations_so_far(set@, piece, i as nat, j as nat, k as nat),
                decreases 4 - i,
            {
                cur = rotate_piece_90(cur, Axis::X);
                proof {
                    lemma_orientation_wraps(piece, (i + 1) as nat, j as nat, k as nat);
                }
                set.insert(cur);
                i += 1;
            }
            proof {
                lemma_orientation_wraps(piece, 4, j as nat, k as nat);
            }
            cur = rotate_piece_90(cur, Axis::Y);
            proof {
                lemma_orientation_wraps(piece, 0, (j + 1) as nat, k as nat);
            }
            set.insert(cur);
            j += 1;
        }
        proof {
            lemma_orientation_wraps(piece, 0, 4, k as nat);
        }
        cur = rotate_piece_90(cur, Axis::Z);
        proof {
            lemma_orientation_wraps(piece, 0, 0, (k + 1) as nat);
        }
        set.insert(cur);
        k += 1;
    }
    let r = set.into_vec();
    proof {
        assert forall|m: u64| is_orientation(piece, m) implies r@.contains(m) by {
            let (i, j, k2) = choose|i: nat, j: nat, k2: nat|
                i < 4 && j < 4 && k2 < 4 && m == #[trigger] oriented(piece, i, j, k2);
            assert(reached(i, j, k2, 0, 0, 4));
        }
    }
    r
}

/// The `r`-th mask tried: the orientation `r / 512`, moved by an offset that
/// runs through `-4..4` along x fastest, then y, then z.
spec fn candidate(orients: Seq<u64>, r: int) -> u64 {
    translated(orients[r / 512], r % 8 - 4, (r / 8) % 8 - 4, (r / 64) % 8 - 4)
}

/// Whether `m` is among the first `n` masks tried and has lost no cell.
spec fn found_before(piece: u64, orients: Seq<u64>, n: int, m: u64) -> bool {
    cell_count(m) == cell_count(piece) && exists|r: int|
        0 <= r < n && m == #[trigger] candidate(orients, r)
}

proof fn lemma_found_step(piece: u64, orients: Seq<u64>, n: int)
    requires
        0 <= n,
    ensures
        forall|m: u64|
            #[trigger] found_before(piece, orients, n + 1, m) <==> (found_before(
                piece,
                orients,
                n,
                m,
            ) || (m == candidate(orients, n) && cell_count(m) == cell_count(piece))),
{
    assert forall|m: u64|
        #[trigger] found_before(piece, orients, n + 1, m) <==> (found_before(
            piece,
            orients,
            n,
            m,
        ) || (m == candidate(orients, n) && cell_count(m) == cell_count(piece))) by {
        if found_before(piece, orients, n + 1, m) {
            let r = choose|r: int| 0 <= r < n + 1 && m == #[trigger] candidate(orients, r);
            if r < n {
                assert(found_before(piece, orients, n, m));
            }
        }
        if found_before(piece, orients, n, m) {
            let r = choose|r: int| 0 <= r < n && m == #[trigger] candidate(orients, r);
            assert(0 <= r < n + 1);
        }
    }
}

proof fn lemma_candidate_at(orients: Seq<u64>, o: int, x: int, y: int, z: int)
    requires
        0 <= o,
        -4 <= x < 4,
        -4 <= y < 4,
        -4 <= z < 4,
    ensures
        candidate(orients, o * 512 + (z + 4) * 64 + (y + 4) * 8 + (x + 4)) == translated(
            orients[o],
            x,
            y,
            z,
        ),
{
    let n = o * 512 + (z + 4) * 64 + (y + 4) * 8 + (x + 4);
    lemma_fundamental_div_mod_converse(n, 512, o, (z + 4) * 64 + (y + 4) * 8 + (x + 4));
    lemma_fundamental_div_mod_converse(n, 8, o * 64 + (z + 4) * 8 + (y + 4), x + 4);
    lemma_fundamental_div_mod_converse(n / 8, 8, o * 8 + (z + 4), y + 4);
    lemma_fundamental_div_mod_converse(n, 64, o * 8 + (z + 4), (y + 4) * 8 + (x + 4));
    lemma_fundamental_div_mod_converse(n / 64, 8, o, z + 4);
}

proof fn lemma_found_all(piece: u64, orients: Seq<u64>)
    requires
        forall|m: u64| orients.contains(m) <==> is_orientation(piece, m),
    ensures
        forall|m: u64|
            found_before(piece, orients, (orients.len() * 512) as int, m) <==> is_placement(
                piece,
                m,
            ),
{
    let total = (orients.len() * 512) as int;
    assert forall|m: u64| found_before(piece, orients, total, m) implies is_placement(
        piece,
        m,
    ) by {
        let r = choose|r: int| 0 <= r < total && m == #[trigger] candidate(orients, r);
        let o = orients[r / 512];
        assert(orients.contains(o));
        let (i, j, k) = choose|i: nat, j: nat, k: nat|
            i < 4 && j < 4 && k < 4 && o == #[trigger] oriented(piece, i, j, k);
        assert(m == placed(piece, i, j, k, r % 8 - 4, (r / 8) % 8 - 4, (r / 64) % 8 - 4));
    }
    assert forall|m: u64| is_placement(piece, m) implies found_before(
        piece,
        orients,
        total,
        m,
    ) by {
        let (i, j, k, dx, dy, dz) = choose|i: nat, j: nat, k: nat, dx: int, dy: int, dz: int|
            i < 4 && j < 4 && k < 4 && -4 <= dx < 4 && -4 <= dy < 4 && -4 <= dz < 4 && m
                == #[trigger] placed(piece, i, j, k, dx, dy, dz);
        let o = oriented(piece, i, j, k);
        assert(is_orientation(piece, o));
        let at = choose|at: int| 0 <= at < orients.len() && orients[at] == o;
        let r = at * 512 + (dz + 4) * 64 + (dy + 4) * 8 + (dx + 4);
        lemma_candidate_at(orients, at, dx, dy, dz);
        assert(m == candidate(orients, r));
    }
}

/// Generates all distinct placements of `piece`: each of its orientations,
/// moved by every offset that keeps all of its cells inside the cube.
pub fn generate_placements(piece: u64) -> (r: Vec<u64>)
    ensures
        r@.no_duplicates(),
        forall|m: u64| r@.contains(m) <==> is_placement(piece, m),
        forall|i: int| 0 <= i < r.len() ==> cell_count(#[trigger] r[i]) == cell_count(piece),
{
    // Number of cells of the piece: a mask with fewer has been moved out of the cube.
    let num_bits: u32 = count_cells(piece);
    let orients: Vec<u64> = generate_orientations(piece);
    let mut set: MaskSet = MaskSet::new();
    let mut o: usize = 0;
    while o < orients.len()
        invariant
            o <= orients.len(),
            num_bits == cell_count(piece),
            set.wf(),
            forall|m: u64|
                #[trigger] set@.contains(m) <==> found_before(piece, orients@, o * 512, m),
        decreases orients.len() - o,
    {
        let base: u64 = orients[o];
        let mut z: i32 = -4;
        while z < 4
            invariant
                o < orients.len(),
                base == orients[o as int],
                -4 <= z <= 4,
                num_bits == cell_count(piece),
                set.wf(),
                forall|m: u64|
                    #[trigger] set@.contains(m) <==> found_before(
                        piece,
                        orients@,
                        o * 512 + (z + 4) * 64,
                        m,
                    ),
            decreases 4 - z,
        {
            let mut y: i32 = -4;
            while y < 4
                invariant
                    o < orients.len(),
                    base == orients[o as int],
                    -4 <= z < 4,
                    -4 <= y <= 4,
                    num_bits == cell_count(piece),
                    set.wf(),
                    forall|m: u64|
                        #[trigger] set@.contains(m) <==> found_before(
                            piece,
                            orients@,
                            o * 512 + (z + 4) * 64 + (y + 4) * 8,
                            m,
                        ),
                decreases 4 - y,
            {
                let mut x: i32 = -4;
                while x < 4
                    invariant
                        o < orients.len(),
                        base == orients[o as int],
                        -4 <= z < 4,
                        -4 <= y < 4,
                        -4 <= x <= 4,
                        num_bits == cell_count(piece),
                        set.wf(),
                        forall|m: u64|
                            #[trigger] set@.contains(m) <==> found_before(
                                piece,
                                orients@,
                                o * 512 + (z + 4) * 64 + (y + 4) * 8 + (x + 4),
                                m,
                            ),
                    decreases 4 - x,
                {
                    let moved: u64 = translate(base, x, y, z);
                    proof {
                        lemma_candidate_at(orients@, o as int, x as int, y as int, z as int);
                        lemma_found_step(
                            piece,
                            orients@,
                            o * 512 + (z + 4) * 64 + (y + 4) * 8 + (x + 4),
                        );
                    }
                    if count_cells(moved) == num_bits {
                        set.insert(moved);
                    }
                    x += 1;
                }
                y += 1;
            }
            z += 1;
        }
        o += 1;
    }
    proof {
        lemma_found_all(piece, orients@);
    }
    let r = set.into_vec();
    proof {
        assert forall|i: int| 0 <= i < r.len() implies cell_count(#[trigger] r[i]) == cell_count(
            piece,
        ) by {
            assert(r@.contains(r[i]));
        }
    }
    r
}

/// Generates the placements of every piece, in the order of the pieces.
pub fn generate_all_placements(pieces: &Vec<u64>) -> (r: Vec<Vec<u64>>)
    ensures
        r.len() == pieces.len(),
        forall|p: int|
            0 <= p < r.len() ==> (#[trigger] r[p])@.no_duplicates() && (forall|m: u64|
                r[p]@.contains(m) <==> is_placement(pieces[p], m)),
{
    let mut r: Vec<Vec<u64>> = Vec::new();
    let mut p: usize = 0;
    while p < pieces.len()
        invariant
            p <= pieces.len(),
            r.len() == p,
            forall|q: int|
                0 <= q < r.len() ==> (#[trigger] r[q])@.no_duplicates() && (forall|m: u64|
                    r[q]@.contains(m) <==> is_placement(pieces[q], m)),
        decreases pieces.len() - p,
    {
        r.push(generate_placements(pieces[p]));
        p += 1;
    }
    r
}

} // verus!
