//! Quarter turns and translations of a volume.

use vstd::prelude::*;
use vstd::set_lib::{lemma_len_subset, lemma_map_size, lemma_subset_equality};
use crate::geometry::{
    cell_count, cell_index, cells, has_bit, has_cell, in_cube, lemma_cell_index_coords,
    lemma_cells_extensional, lemma_cells_finite, lemma_coords_of_cell_index, lemma_or_bits,
    lemma_volume_of_cells, lemma_zero_bits, pack_bit, volume_of, Axis, BlockIndex, Coords,
};

verus! {

/// The cell that a quarter turn about `axis` moves to `(x, y, z)`.
pub open spec fn rotation_source(axis: Axis, x: int, y: int, z: int) -> (int, int, int) {
    match axis {
        Axis::X => (x, 3 - z, y),
        Axis::Y => (3 - z, y, x),
        Axis::Z => (3 - y, x, z),
    }
}

/// Whether `v` occupies the cell that a quarter turn about `axis` moves to `(x, y, z)`.
pub open spec fn has_source_cell(v: u64, axis: Axis, x: int, y: int, z: int) -> bool {
    let s = rotation_source(axis, x, y, z);
    has_cell(v, s.0, s.1, s.2)
}

/// `v` turned by 90 degrees about `axis`: each cell holds what its source cell held.
pub open spec fn rotated(v: u64, axis: Axis) -> u64 {
    volume_of(|x: int, y: int, z: int| has_source_cell(v, axis, x, y, z))
}

/// `v` moved by `(dx, dy, dz)`: each cell of the cube holds what the cell that
/// far behind it held, and cells that would leave the cube are dropped.
pub open spec fn translated(v: u64, dx: int, dy: int, dz: int) -> u64 {
    volume_of(|x: int, y: int, z: int| has_cell(v, x - dx, y - dy, z - dz))
}

/// Whether every occupied cell of `v` stays inside the cube when moved by `(dx, dy, dz)`.
pub open spec fn fits_after_move(v: u64, dx: int, dy: int, dz: int) -> bool {
    forall|x: int, y: int, z: int| #[trigger]
        has_cell(v, x, y, z) ==> in_cube(x + dx, y + dy, z + dz)
}

/// The cells of a turned volume.
pub proof fn lemma_rotated_cells(v: u64, axis: Axis)
    ensures
        forall|x: int, y: int, z: int|
            #[trigger] has_cell(rotated(v, axis), x, y, z) <==> (in_cube(x, y, z)
                && has_source_cell(v, axis, x, y, z)),
{
    lemma_volume_of_cells(|x: int, y: int, z: int| has_source_cell(v, axis, x, y, z));
}

/// The cells of a moved volume.
pub proof fn lemma_translated_cells(v: u64, dx: int, dy: int, dz: int)
    ensures
        forall|x: int, y: int, z: int|
            #[trigger] has_cell(translated(v, dx, dy, dz), x, y, z) <==> (in_cube(x, y, z)
                && has_cell(v, x - dx, y - dy, z - dz)),
{
    lemma_volume_of_cells(|x: int, y: int, z: int| has_cell(v, x - dx, y - dy, z - dz));
}

/// The bit that a quarter turn about `axis` moves to bit `i`.
pub open spec fn source_index(axis: Axis, i: int) -> int {
    let s = rotation_source(axis, i / 16, (i / 4) % 4, i % 4);
    cell_index(s.0, s.1, s.2)
}

/// The bits of a turned volume.
pub proof fn lemma_rotated_bits(v: u64, axis: Axis)
    ensures
        forall|i: int|
            0 <= i < 64 ==> 0 <= #[trigger] source_index(axis, i) < 64 && (has_bit(
                rotated(v, axis),
                i,
            ) <==> has_bit(v, source_index(axis, i))),
{
    lemma_rotated_cells(v, axis);
    assert forall|i: int| 0 <= i < 64 implies 0 <= #[trigger] source_index(axis, i) < 64 && (
    has_bit(rotated(v, axis), i) <==> has_bit(v, source_index(axis, i))) by {
        lemma_cell_index_coords(i);
        let (x, y, z) = (i / 16, (i / 4) % 4, i % 4);
        let s = rotation_source(axis, x, y, z);
        assert(in_cube(s.0, s.1, s.2));
        assert(has_cell(rotated(v, axis), x, y, z) <==> has_source_cell(v, axis, x, y, z));
    }
}

proof fn lemma_source_index_cycle(axis: Axis, i: int)
    requires
        0 <= i < 64,
    ensures
        0 <= source_index(axis, i) < 64,
        0 <= source_index(axis, source_index(axis, i)) < 64,
        0 <= source_index(axis, source_index(axis, source_index(axis, i))) < 64,
        source_index(axis, source_index(axis, source_index(axis, source_index(axis, i)))) == i,
{
    lemma_cell_index_coords(i);
    let (x, y, z) = (i / 16, (i / 4) % 4, i % 4);
    let s1 = rotation_source(axis, x, y, z);
    lemma_coords_of_cell_index(s1.0, s1.1, s1.2);
    let s2 = rotation_source(axis, s1.0, s1.1, s1.2);
    lemma_coords_of_cell_index(s2.0, s2.1, s2.2);
    let s3 = rotation_source(axis, s2.0, s2.1, s2.2);
    lemma_coords_of_cell_index(s3.0, s3.1, s3.2);
    let s4 = rotation_source(axis, s3.0, s3.1, s3.2);
    assert(s4 == (x, y, z));
}

/// Four quarter turns about one axis give the volume back.
pub proof fn lemma_four_turns_identity(v: u64, axis: Axis)
    ensures
        rotated(rotated(rotated(rotated(v, axis), axis), axis), axis) == v,
{
    let r1 = rotated(v, axis);
    let r2 = rotated(r1, axis);
    let r3 = rotated(r2, axis);
    let r4 = rotated(r3, axis);
    lemma_rotated_bits(v, axis);
    lemma_rotated_bits(r1, axis);
    lemma_rotated_bits(r2, axis);
    lemma_rotated_bits(r3, axis);
    assert forall|i: int| 0 <= i < 64 implies (#[trigger] has_bit(r4, i) <==> has_bit(v, i)) by {
        lemma_source_index_cycle(axis, i);
        let i1 = source_index(axis, i);
        let i2 = source_index(axis, i1);
        let i3 = source_index(axis, i2);
        assert(has_bit(r4, i) <==> has_bit(r3, i1));
        assert(has_bit(r3, i1) <==> has_bit(r2, i2));
        assert(has_bit(r2, i2) <==> has_bit(r1, i3));
        assert(has_bit(r1, i3) <==> has_bit(v, source_index(axis, i3)));
    }
    crate::geometry::lemma_bits_extensional(r4, v);
}

/// A quarter turn keeps the number of occupied cells.
pub proof fn lemma_rotation_preserves_count(v: u64, axis: Axis)
    ensures
        cell_count(rotated(v, axis)) == cell_count(v),
{
    let r = rotated(v, axis);
    let f = |i: int| source_index(axis, i);
    lemma_rotated_bits(v, axis);
    lemma_cells_finite(r);
    assert forall|a: int, b: int|
        cells(r).contains(a) && cells(r).contains(b) && f(a) == f(b) implies a == b by {
        lemma_source_index_cycle(axis, a);
        lemma_source_index_cycle(axis, b);
    }
    assert forall|b: int| cells(v).contains(b) implies cells(r).map(f).contains(b) by {
        lemma_source_index_cycle(axis, b);
        let a = source_index(axis, source_index(axis, source_index(axis, b)));
        assert(f(a) == b);
        assert(has_bit(r, a) <==> has_bit(v, source_index(axis, a)));
        assert(cells(r).contains(a));
    }
    assert forall|b: int| cells(r).map(f).contains(b) implies cells(v).contains(b) by {
        let a = choose|a: int| cells(r).contains(a) && b == f(a);
        assert(has_bit(r, a) <==> has_bit(v, source_index(axis, a)));
    }
    assert(cells(r).map(f) =~= cells(v));
    lemma_map_size(cells(r), cells(v), f);
}

/// The occupied cells of `v` that stay inside the cube when moved by `(dx, dy, dz)`.
pub open spec fn cells_kept(v: u64, dx: int, dy: int, dz: int) -> Set<int> {
    Set::new(|i: int| has_bit(v, i) && in_cube(i / 16 + dx, (i / 4) % 4 + dy, i % 4 + dz))
}

/// A move keeps exactly the cells that stay inside the cube: it never adds a
/// cell, and it keeps the count if and only if no occupied cell leaves the cube.
pub proof fn lemma_translation_count(v: u64, dx: int, dy: int, dz: int)
    ensures
        cell_count(translated(v, dx, dy, dz)) == cells_kept(v, dx, dy, dz).len(),
        cell_count(translated(v, dx, dy, dz)) <= cell_count(v),
        cell_count(translated(v, dx, dy, dz)) == cell_count(v) <==> fits_after_move(v, dx, dy, dz),
{
    let t = translated(v, dx, dy, dz);
    let kept = cells_kept(v, dx, dy, dz);
    let off = cell_index(dx, dy, dz);
    let f = |i: int| i + off;
    lemma_translated_cells(v, dx, dy, dz);
    lemma_cells_finite(v);
    lemma_cells_finite(t);
    assert(kept.subset_of(cells(v)));
    lemma_len_subset(kept, cells(v));
    assert forall|b: int| cells(t).contains(b) implies kept.map(f).contains(b) by {
        lemma_cell_index_coords(b);
        let (x, y, z) = (b / 16, (b / 4) % 4, b % 4);
        assert(has_cell(t, x, y, z));
        assert(has_cell(v, x - dx, y - dy, z - dz));
        lemma_coords_of_cell_index(x - dx, y - dy, z - dz);
        let a = cell_index(x - dx, y - dy, z - dz);
        assert(f(a) == b);
        assert(kept.contains(a));
    }
    assert forall|b: int| kept.map(f).contains(b) implies cells(t).contains(b) by {
        let a = choose|a: int| kept.contains(a) && b == f(a);
        lemma_cell_index_coords(a);
        let (x, y, z) = (a / 16, (a / 4) % 4, a % 4);
        lemma_coords_of_cell_index(x + dx, y + dy, z + dz);
        assert(has_cell(t, x + dx, y + dy, z + dz) <==> has_cell(
            v,
            x + dx - dx,
            y + dy - dy,
            z + dz - dz,
        ));
        assert(cell_index(x + dx, y + dy, z + dz) == b);
    }
    assert(kept.map(f) =~= cells(t));
    lemma_map_size(kept, cells(t), f);
    if kept.len() == cells(v).len() {
        lemma_subset_equality(kept, cells(v));
        assert forall|x: int, y: int, z: int| #[trigger] has_cell(v, x, y, z) implies in_cube(
            x + dx,
            y + dy,
            z + dz,
        ) by {
            lemma_coords_of_cell_index(x, y, z);
            assert(kept.contains(cell_index(x, y, z)));
        }
    }
    if fits_after_move(v, dx, dy, dz) {
        assert forall|i: int| cells(v).contains(i) implies kept.contains(i) by {
            lemma_cell_index_coords(i);
            assert(has_cell(v, i / 16, (i / 4) % 4, i % 4));
        }
        assert(kept =~= cells(v));
    }
}

/// Position of the cell `(x, y, z)` in the order in which the loops below visit the cube.
spec fn visit_rank(x: int, y: int, z: int) -> int {
    z * 16 + y * 4 + x
}

/// `new` holds the turned image of `piece` on the first `n` cells visited, and nothing else.
spec fn turned_so_far(new: u64, piece: u64, axis: Axis, n: int) -> bool {
    forall|x: int, y: int, z: int|
        in_cube(x, y, z) ==> (#[trigger] has_cell(new, x, y, z) <==> (visit_rank(x, y, z) < n
            && has_source_cell(piece, axis, x, y, z)))
}

/// `new` holds the moved image of the first `n` cells of `piece` visited, and nothing else.
spec fn moved_so_far(new: u64, piece: u64, dx: int, dy: int, dz: int, n: int) -> bool {
    forall|x: int, y: int, z: int|
        in_cube(x, y, z) ==> (#[trigger] has_cell(new, x, y, z) <==> (has_cell(
            piece,
            x - dx,
            y - dy,
            z - dz,
        ) && visit_rank(x - dx, y - dy, z - dz) < n))
}

proof fn lemma_turn_step(new: u64, bit: u64, piece: u64, axis: Axis, x: int, y: int, z: int)
    requires
        in_cube(x, y, z),
        turned_so_far(new, piece, axis, visit_rank(x, y, z)),
        forall|i: int| #[trigger]
            has_bit(bit, i) <==> (has_source_cell(piece, axis, x, y, z) && i == cell_index(
                x,
                y,
                z,
            )),
    ensures
        turned_so_far(new | bit, piece, axis, visit_rank(x, y, z) + 1),
{
    lemma_or_bits(new, bit);
    assert forall|tx: int, ty: int, tz: int| in_cube(tx, ty, tz) implies (#[trigger] has_cell(
        new | bit,
        tx,
        ty,
        tz,
    ) <==> (visit_rank(tx, ty, tz) < visit_rank(x, y, z) + 1 && has_source_cell(
        piece,
        axis,
        tx,
        ty,
        tz,
    ))) by {
        assert(has_cell(new, tx, ty, tz) <==> (visit_rank(tx, ty, tz) < visit_rank(x, y, z)
            && has_source_cell(piece, axis, tx, ty, tz)));
        assert(has_bit(new | bit, cell_index(tx, ty, tz)) <==> (has_bit(
            new,
            cell_index(tx, ty, tz),
        ) || has_bit(bit, cell_index(tx, ty, tz))));
    }
}

proof fn lemma_move_step(
    new: u64,
    bit: u64,
    piece: u64,
    dx: int,
    dy: int,
    dz: int,
    x: int,
    y: int,
    z: int,
)
    requires
        in_cube(x, y, z),
        moved_so_far(new, piece, dx, dy, dz, visit_rank(x, y, z)),
        in_cube(x + dx, y + dy, z + dz) ==> (forall|i: int| #[trigger]
            has_bit(bit, i) <==> (has_cell(piece, x, y, z) && i == cell_index(
                x + dx,
                y + dy,
                z + dz,
            ))),
        !in_cube(x + dx, y + dy, z + dz) ==> bit == 0,
    ensures
        moved_so_far(new | bit, piece, dx, dy, dz, visit_rank(x, y, z) + 1),
{
    lemma_or_bits(new, bit);
    lemma_zero_bits();
    let n = visit_rank(x, y, z);
    assert forall|tx: int, ty: int, tz: int| in_cube(tx, ty, tz) implies (#[trigger] has_cell(
        new | bit,
        tx,
        ty,
        tz,
    ) <==> (has_cell(piece, tx - dx, ty - dy, tz - dz) && visit_rank(tx - dx, ty - dy, tz - dz)
        < n + 1)) by {
        let (sx, sy, sz) = (tx - dx, ty - dy, tz - dz);
        let t = cell_index(tx, ty, tz);
        let from_new = has_cell(new, tx, ty, tz);
        let from_bit = has_bit(bit, t);
        assert(from_new <==> (has_cell(piece, sx, sy, sz) && visit_rank(sx, sy, sz) < n));
        assert(has_bit(new | bit, t) <==> (has_bit(new, t) || from_bit));
        assert(has_cell(new | bit, tx, ty, tz) <==> (from_new || from_bit));
        let at_source = sx == x && sy == y && sz == z;
        if in_cube(sx, sy, sz) {
            lemma_rank_injective(sx, sy, sz, x, y, z);
        }
        if in_cube(x + dx, y + dy, z + dz) {
            lemma_index_injective(tx, ty, tz, x + dx, y + dy, z + dz);
            assert(from_bit <==> (has_cell(piece, x, y, z) && at_source));
        } else {
            assert(!from_bit);
            assert(!at_source);
        }
    }
}

proof fn lemma_index_injective(x1: int, y1: int, z1: int, x2: int, y2: int, z2: int)
    requires
        in_cube(x1, y1, z1),
        in_cube(x2, y2, z2),
    ensures
        cell_index(x1, y1, z1) == cell_index(x2, y2, z2) <==> (x1 == x2 && y1 == y2 && z1 == z2),
{
}

proof fn lemma_rank_injective(x1: int, y1: int, z1: int, x2: int, y2: int, z2: int)
    requires
        in_cube(x1, y1, z1),
        in_cube(x2, y2, z2),
    ensures
        visit_rank(x1, y1, z1) == visit_rank(x2, y2, z2) <==> (x1 == x2 && y1 == y2 && z1 == z2),
{
}

/// Rotates `piece` by 90 degrees about `axis`.
pub fn rotate_piece_90(piece: u64, axis: Axis) -> (r: u64)
    ensures
        r == rotated(piece, axis),
        forall|x: int, y: int, z: int|
            in_cube(x, y, z) ==> (#[trigger] has_cell(r, x, y, z) <==> has_source_cell(
                piece,
                axis,
                x,
                y,
                z,
            )),
{
    let mut new_piece: u64 = 0;
    proof {
        lemma_zero_bits();
    }
    let mut z: usize = 0;
    while z < 4
        invariant
            z <= 4,
            turned_so_far(new_piece, piece, axis, visit_rank(0, 0, z as int)),
        decreases 4 - z,
    {
        let mut y: usize = 0;
        while y < 4
            invariant
                z < 4,
                y <= 4,
                turned_so_far(new_piece, piece, axis, visit_rank(0, y as int, z as int)),
            decreases 4 - y,
        {
            let mut x: usize = 0;
            while x < 4
                invariant
                    z < 4,
                    y < 4,
                    x <= 4,
                    turned_so_far(new_piece, piece, axis, visit_rank(x as int, y as int, z as int)),
                decreases 4 - x,
            {
                let (sx, sy, sz): (usize, usize, usize) = match axis {
                    Axis::X => (x, 3 - z, y),
                    Axis::Y => (3 - z, y, x),
                    Axis::Z => (3 - y, x, z),
                };
                let bit: u64 = pack_bit(piece.index(Coords(sx, sy, sz)), x, y, z);
                proof {
                    lemma_turn_step(new_piece, bit, piece, axis, x as int, y as int, z as int);
                }
                new_piece |= bit;
                x += 1;
            }
            y += 1;
        }
        z += 1;
    }
    proof {
        lemma_rotated_cells(piece, axis);
        lemma_cells_extensional(new_piece, rotated(piece, axis));
    }
    new_piece
}

/// Translates `piece` in the cube by `(dx, dy, dz)`; cells that leave the cube are dropped.
pub fn translate(piece: u64, dx: i32, dy: i32, dz: i32) -> (r: u64)
    ensures
        r == translated(piece, dx as int, dy as int, dz as int),
        forall|x: int, y: int, z: int|
            in_cube(x, y, z) ==> (#[trigger] has_cell(r, x, y, z) <==> has_cell(
                piece,
                x - dx,
                y - dy,
                z - dz,
            )),
{
    let mut new_piece: u64 = 0;
    proof {
        lemma_zero_bits();
    }
    let mut z: usize = 0;
    while z < 4
        invariant
            z <= 4,
            moved_so_far(
                new_piece,
                piece,
                dx as int,
                dy as int,
                dz as int,
                visit_rank(0, 0, z as int),
            ),
        decreases 4 - z,
    {
        let mut y: usize = 0;
        while y < 4
            invariant
                z < 4,
                y <= 4,
                moved_so_far(
                    new_piece,
                    piece,
                    dx as int,
                    dy as int,
                    dz as int,
                    visit_rank(0, y as int, z as int),
                ),
            decreases 4 - y,
        {
            let mut x: usize = 0;
            while x < 4
                invariant
                    z < 4,
                    y < 4,
                    x <= 4,
                    moved_so_far(
                        new_piece,
                        piece,
                        dx as int,
                        dy as int,
                        dz as int,
                        visit_rank(x as int, y as int, z as int),
                    ),
                decreases 4 - x,
            {
                let sx: i64 = x as i64 + dx as i64;
                let sy: i64 = y as i64 + dy as i64;
                let sz: i64 = z as i64 + dz as i64;
                let mut bit: u64 = 0;
                if sx < 4 && sy < 4 && sz < 4 && sx >= 0 && sy >= 0 && sz >= 0 {
                    bit = pack_bit(
                        piece.index(Coords(x, y, z)),
                        sx as usize,
                        sy as usize,
                        sz as usize,
                    );
                }
                proof {
                    lemma_move_step(
                        new_piece,
                        bit,
                        piece,
                        dx as int,
                        dy as int,
                        dz as int,
                        x as int,
                        y as int,
                        z as int,
                    );
                    lemma_or_bits(new_piece, 0);
                }
                new_piece |= bit;
                x += 1;
            }
            y += 1;
        }
        z += 1;
    }
    proof {
        lemma_translated_cells(piece, dx as int, dy as int, dz as int);
        lemma_cells_extensional(new_piece, translated(piece, dx as int, dy as int, dz as int));
    }
    new_piece
}

} // verus!
