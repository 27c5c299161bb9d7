//! The rotations of the cube as a group.
//!
//! A quarter turn reads each cell from a source cell: a coordinate of the
//! source is a coordinate of the target, kept or reversed. Turns of this
//! form follow one another to turns of this form, and the quarter turns
//! about X, then Y, then Z reach every one of them that is a rotation. So a
//! rotation of a rotation of a volume is a rotation of the volume.

use vstd::prelude::*;
use crate::geometry::{has_cell, in_cube, lemma_cells_extensional, Axis};
use crate::placements::{is_orientation, oriented, turned};
use crate::transform::{lemma_rotated_cells, rotated};

verus! {

/// A turn of the cube, given by where a cell comes from: the coordinates
/// `x`, `y` and `z` of the source are the coordinates number `ax`, `ay` and
/// `az` of the target, reversed where `fx`, `fy` and `fz` say so.
pub struct Turn {
    pub ax: u8,
    pub ay: u8,
    pub az: u8,
    pub fx: bool,
    pub fy: bool,
    pub fz: bool,
}

/// Coordinate number `a` of `(x, y, z)`.
pub open spec fn pick(a: u8, x: int, y: int, z: int) -> int {
    if a == 0 {
        x
    } else if a == 1 {
        y
    } else {
        z
    }
}

/// The coordinate `v`, reversed if `f`.
pub open spec fn flip(f: bool, v: int) -> int {
    if f {
        3 - v
    } else {
        v
    }
}

/// The cell that the turn `t` moves to `(x, y, z)`.
pub open spec fn source(t: Turn, x: int, y: int, z: int) -> (int, int, int) {
    (
        flip(t.fx, pick(t.ax, x, y, z)),
        flip(t.fy, pick(t.ay, x, y, z)),
        flip(t.fz, pick(t.az, x, y, z)),
    )
}

/// Which coordinate of the target the coordinate number `c` of the source is.
pub open spec fn axis_of(t: Turn, c: u8) -> u8 {
    if c == 0 {
        t.ax
    } else if c == 1 {
        t.ay
    } else {
        t.az
    }
}

/// Whether the coordinate number `c` of the source is reversed.
pub open spec fn flip_of(t: Turn, c: u8) -> bool {
    if c == 0 {
        t.fx
    } else if c == 1 {
        t.fy
    } else {
        t.fz
    }
}

/// The turn `first` followed by the turn `second`, read from the target:
/// its source is the source under `second` of the source under `first`.
pub open spec fn then(first: Turn, second: Turn) -> Turn {
    Turn {
        ax: axis_of(first, second.ax),
        ay: axis_of(first, second.ay),
        az: axis_of(first, second.az),
        fx: second.fx != flip_of(first, second.ax),
        fy: second.fy != flip_of(first, second.ay),
        fz: second.fz != flip_of(first, second.az),
    }
}

/// Whether `t` uses each coordinate once.
pub open spec fn is_turn(t: Turn) -> bool {
    t.ax < 3 && t.ay < 3 && t.az < 3 && t.ax != t.ay && t.ay != t.az && t.ax != t.az
}

/// Whether `t` is a rotation: it exchanges coordinates and reverses
/// coordinates an even number of times in all.
pub open spec fn is_rotation_turn(t: Turn) -> bool {
    let cyclic = (t.ax == 0 && t.ay == 1) || (t.ax == 1 && t.ay == 2) || (t.ax == 2 && t.ay == 0);
    let reverses_odd = t.fx != (t.fy != t.fz);
    is_turn(t) && (cyclic != reverses_odd)
}

/// The turn that moves nothing.
pub open spec fn no_turn() -> Turn {
    Turn { ax: 0, ay: 1, az: 2, fx: false, fy: false, fz: false }
}

/// The quarter turn about `axis`.
pub open spec fn quarter(axis: Axis) -> Turn {
    match axis {
        Axis::X => Turn { ax: 0, ay: 2, az: 1, fx: false, fy: true, fz: false },
        Axis::Y => Turn { ax: 2, ay: 1, az: 0, fx: true, fy: false, fz: false },
        Axis::Z => Turn { ax: 1, ay: 0, az: 2, fx: true, fy: false, fz: false },
    }
}

/// `n` quarter turns about `axis`, for `n` up to 3.
pub open spec fn quarters(axis: Axis, n: nat) -> Turn {
    let q = quarter(axis);
    if n == 0 {
        no_turn()
    } else if n == 1 {
        q
    } else if n == 2 {
        then(q, q)
    } else {
        then(then(q, q), q)
    }
}

/// The turn that gives the orientation `(i, j, k)`: read from the target,
/// `i` quarter turns about X, then `j` about Y, then `k` about Z.
pub open spec fn word(i: nat, j: nat, k: nat) -> Turn {
    then(then(quarters(Axis::X, i), quarters(Axis::Y, j)), quarters(Axis::Z, k))
}

/// An orientation that the rotation `t` gives.
pub open spec fn word_of(t: Turn) -> (nat, nat, nat) {
    if t.ax == 0 && t.ay == 1 {
        if !t.fx && !t.fy {
            (0, 0, 0)
        } else if !t.fx {
            (0, 2, 2)
        } else if !t.fy {
            (0, 2, 0)
        } else {
            (0, 0, 2)
        }
    } else if t.ax == 0 {
        if !t.fx && !t.fy {
            (1, 2, 2)
        } else if !t.fx {
            (1, 0, 0)
        } else if !t.fy {
            (1, 0, 2)
        } else {
            (1, 2, 0)
        }
    } else if t.ax == 1 && t.ay == 0 {
        if !t.fx && !t.fy {
            (0, 2, 3)
        } else if !t.fx {
            (0, 0, 3)
        } else if !t.fy {
            (0, 0, 1)
        } else {
            (0, 2, 1)
        }
    } else if t.ax == 1 {
        if !t.fx && !t.fy {
            (0, 1, 3)
        } else if !t.fx {
            (0, 3, 3)
        } else if !t.fy {
            (0, 3, 1)
        } else {
            (0, 1, 1)
        }
    } else if t.ay == 0 {
        if !t.fx && !t.fy {
            (1, 0, 1)
        } else if !t.fx {
            (1, 2, 1)
        } else if !t.fy {
            (1, 2, 3)
        } else {
            (1, 0, 3)
        }
    } else {
        if !t.fx && !t.fy {
            (0, 3, 0)
        } else if !t.fx {
            (0, 1, 2)
        } else if !t.fy {
            (0, 1, 0)
        } else {
            (0, 3, 2)
        }
    }
}

/// The source under two turns in a row is the source of the source.
pub proof fn lemma_then_source(first: Turn, second: Turn, x: int, y: int, z: int)
    requires
        is_turn(first),
        is_turn(second),
    ensures
        is_turn(then(first, second)),
        ({
            let s = source(first, x, y, z);
            source(then(first, second), x, y, z) == source(second, s.0, s.1, s.2)
        }),
{
}

/// The source of a cell of the cube is a cell of the cube.
pub proof fn lemma_source_in_cube(t: Turn, x: int, y: int, z: int)
    requires
        is_turn(t),
        in_cube(x, y, z),
    ensures
        ({
            let s = source(t, x, y, z);
            in_cube(s.0, s.1, s.2)
        }),
{
}

/// Rotations follow one another to rotations.
pub proof fn lemma_then_rotation(first: Turn, second: Turn)
    requires
        is_rotation_turn(first),
        is_rotation_turn(second),
    ensures
        is_rotation_turn(then(first, second)),
{
}

/// The turn of an orientation is a rotation.
pub proof fn lemma_word_rotation(i: nat, j: nat, k: nat)
    requires
        i < 4,
        j < 4,
        k < 4,
    ensures
        is_rotation_turn(word(i, j, k)),
{
    let x = quarter(Axis::X);
    let y = quarter(Axis::Y);
    let z = quarter(Axis::Z);
    lemma_then_rotation(x, x);
    lemma_then_rotation(then(x, x), x);
    lemma_then_rotation(y, y);
    lemma_then_rotation(then(y, y), y);
    lemma_then_rotation(z, z);
    lemma_then_rotation(then(z, z), z);
    lemma_then_rotation(quarters(Axis::X, i), quarters(Axis::Y, j));
    lemma_then_rotation(
        then(quarters(Axis::X, i), quarters(Axis::Y, j)),
        quarters(Axis::Z, k),
    );
}

/// Every rotation is the turn of an orientation.
pub proof fn lemma_rotation_is_word(t: Turn)
    requires
        is_rotation_turn(t),
    ensures
        ({
            let w = word_of(t);
            w.0 < 4 && w.1 < 4 && w.2 < 4 && word(w.0, w.1, w.2) == t
        }),
{
}

/// Whether `v` occupies the cell that the turn `t` moves to `(x, y, z)`.
pub open spec fn has_source(v: u64, t: Turn, x: int, y: int, z: int) -> bool {
    let s = source(t, x, y, z);
    has_cell(v, s.0, s.1, s.2)
}

/// The cells of a volume after up to three quarter turns about one axis.
pub proof fn lemma_turned_cells(v: u64, axis: Axis, n: nat)
    requires
        n < 4,
    ensures
        forall|x: int, y: int, z: int|
            in_cube(x, y, z) ==> (#[trigger] has_cell(turned(v, axis, n), x, y, z) <==> has_source(
                v,
                quarters(axis, n),
                x,
                y,
                z,
            )),
{
    reveal_with_fuel(turned, 4);
    let q = quarter(axis);
    let t1 = rotated(v, axis);
    let t2 = rotated(t1, axis);
    lemma_rotated_cells(v, axis);
    lemma_rotated_cells(t1, axis);
    lemma_rotated_cells(t2, axis);
    assert forall|x: int, y: int, z: int| in_cube(x, y, z) implies (#[trigger] has_cell(
        turned(v, axis, n),
        x,
        y,
        z,
    ) <==> has_source(v, quarters(axis, n), x, y, z)) by {
        let s1 = source(q, x, y, z);
        let s2 = source(q, s1.0, s1.1, s1.2);
        lemma_then_source(q, q, x, y, z);
        lemma_then_source(then(q, q), q, x, y, z);
        lemma_source_in_cube(q, x, y, z);
        lemma_source_in_cube(q, s1.0, s1.1, s1.2);
        if n >= 1 {
            assert(has_cell(t1, x, y, z) <==> has_cell(v, s1.0, s1.1, s1.2));
        }
        if n >= 2 {
            assert(has_cell(t2, x, y, z) <==> has_cell(t1, s1.0, s1.1, s1.2));
            assert(has_cell(t1, s1.0, s1.1, s1.2) <==> has_cell(v, s2.0, s2.1, s2.2));
        }
        if n == 3 {
            assert(has_cell(rotated(t2, axis), x, y, z) <==> has_cell(t2, s1.0, s1.1, s1.2));
            assert(has_cell(t2, s1.0, s1.1, s1.2) <==> has_cell(t1, s2.0, s2.1, s2.2));
            let s3 = source(q, s2.0, s2.1, s2.2);
            lemma_source_in_cube(q, s2.0, s2.1, s2.2);
            assert(has_cell(t1, s2.0, s2.1, s2.2) <==> has_cell(v, s3.0, s3.1, s3.2));
        }
    }
}

/// The cells of a volume in an orientation: those that the turn of the
/// orientation moves there.
pub proof fn lemma_oriented_cells(v: u64, i: nat, j: nat, k: nat)
    requires
        i < 4,
        j < 4,
        k < 4,
    ensures
        forall|x: int, y: int, z: int|
            in_cube(x, y, z) ==> (#[trigger] has_cell(oriented(v, i, j, k), x, y, z)
                <==> has_source(v, word(i, j, k), x, y, z)),
{
    let about_z = turned(v, Axis::Z, k);
    let about_y = turned(about_z, Axis::Y, j);
    let tx = quarters(Axis::X, i);
    let ty = quarters(Axis::Y, j);
    let tz = quarters(Axis::Z, k);
    lemma_turned_cells(v, Axis::Z, k);
    lemma_turned_cells(about_z, Axis::Y, j);
    lemma_turned_cells(about_y, Axis::X, i);
    lemma_word_rotation(i, 0, 0);
    lemma_word_rotation(0, j, 0);
    lemma_word_rotation(0, 0, k);
    assert(is_turn(tx) && is_turn(ty) && is_turn(tz));
    assert forall|x: int, y: int, z: int| in_cube(x, y, z) implies (#[trigger] has_cell(
        oriented(v, i, j, k),
        x,
        y,
        z,
    ) <==> has_source(v, word(i, j, k), x, y, z)) by {
        let s1 = source(tx, x, y, z);
        let s2 = source(ty, s1.0, s1.1, s1.2);
        lemma_source_in_cube(tx, x, y, z);
        lemma_source_in_cube(ty, s1.0, s1.1, s1.2);
        lemma_then_source(tx, ty, x, y, z);
        lemma_then_source(then(tx, ty), tz, x, y, z);
        assert(has_cell(oriented(v, i, j, k), x, y, z) <==> has_cell(about_y, s1.0, s1.1, s1.2));
        assert(has_cell(about_y, s1.0, s1.1, s1.2) <==> has_cell(about_z, s2.0, s2.1, s2.2));
        assert(has_cell(about_z, s2.0, s2.1, s2.2) <==> has_source(v, tz, s2.0, s2.1, s2.2));
    }
}

/// An orientation of an orientation of a volume is an orientation of the
/// volume, and which one does not depend on the volume.
pub proof fn lemma_orientation_of_orientation(
    i: nat,
    j: nat,
    k: nat,
    i2: nat,
    j2: nat,
    k2: nat,
) -> (c: (nat, nat, nat))
    requires
        i < 4,
        j < 4,
        k < 4,
        i2 < 4,
        j2 < 4,
        k2 < 4,
    ensures
        c.0 < 4,
        c.1 < 4,
        c.2 < 4,
        forall|v: u64| #[trigger]
            oriented(oriented(v, i, j, k), i2, j2, k2) == oriented(v, c.0, c.1, c.2),
{
    let inner = word(i, j, k);
    let outer = word(i2, j2, k2);
    let both = then(outer, inner);
    lemma_word_rotation(i, j, k);
    lemma_word_rotation(i2, j2, k2);
    lemma_then_rotation(outer, inner);
    lemma_rotation_is_word(both);
    let c = word_of(both);
    assert forall|v: u64| #[trigger]
        oriented(oriented(v, i, j, k), i2, j2, k2) == oriented(v, c.0, c.1, c.2) by {
        let once = oriented(v, i, j, k);
        let twice = oriented(once, i2, j2, k2);
        let direct = oriented(v, c.0, c.1, c.2);
        lemma_oriented_cells(v, i, j, k);
        lemma_oriented_cells(once, i2, j2, k2);
        lemma_oriented_cells(v, c.0, c.1, c.2);
        assert forall|x: int, y: int, z: int| in_cube(x, y, z) implies (#[trigger] has_cell(
            twice,
            x,
            y,
            z,
        ) <==> has_cell(direct, x, y, z)) by {
            let s = source(outer, x, y, z);
            lemma_source_in_cube(outer, x, y, z);
            lemma_then_source(outer, inner, x, y, z);
            assert(has_cell(twice, x, y, z) <==> has_cell(once, s.0, s.1, s.2));
            assert(has_cell(once, s.0, s.1, s.2) <==> has_source(v, inner, s.0, s.1, s.2));
        }
        lemma_cells_extensional(twice, direct);
    }
    c
}

/// The number of the coordinate of the source that is the coordinate
/// number `a` of the target.
pub open spec fn place_of(t: Turn, a: u8) -> u8 {
    if t.ax == a {
        0
    } else if t.ay == a {
        1
    } else {
        2
    }
}

/// The turn that takes back what the turn `t` does.
pub open spec fn back(t: Turn) -> Turn {
    Turn {
        ax: place_of(t, 0),
        ay: place_of(t, 1),
        az: place_of(t, 2),
        fx: flip_of(t, place_of(t, 0)),
        fy: flip_of(t, place_of(t, 1)),
        fz: flip_of(t, place_of(t, 2)),
    }
}

/// A rotation can be taken back by a rotation.
pub proof fn lemma_back_rotation(t: Turn)
    requires
        is_rotation_turn(t),
    ensures
        is_rotation_turn(back(t)),
        then(back(t), t) == no_turn(),
        then(t, back(t)) == no_turn(),
{
}

/// An orientation of a volume can be turned back into the volume.
pub proof fn lemma_orientation_back(i: nat, j: nat, k: nat) -> (c: (nat, nat, nat))
    requires
        i < 4,
        j < 4,
        k < 4,
    ensures
        c.0 < 4,
        c.1 < 4,
        c.2 < 4,
        forall|v: u64| #[trigger] oriented(oriented(v, i, j, k), c.0, c.1, c.2) == v,
{
    let inner = word(i, j, k);
    lemma_word_rotation(i, j, k);
    lemma_back_rotation(inner);
    lemma_rotation_is_word(back(inner));
    let c = word_of(back(inner));
    assert forall|v: u64| #[trigger] oriented(oriented(v, i, j, k), c.0, c.1, c.2) == v by {
        let once = oriented(v, i, j, k);
        let twice = oriented(once, c.0, c.1, c.2);
        lemma_oriented_cells(v, i, j, k);
        lemma_oriented_cells(once, c.0, c.1, c.2);
        assert forall|x: int, y: int, z: int| in_cube(x, y, z) implies (#[trigger] has_cell(
            twice,
            x,
            y,
            z,
        ) <==> has_cell(v, x, y, z)) by {
            let s = source(back(inner), x, y, z);
            lemma_source_in_cube(back(inner), x, y, z);
            lemma_then_source(back(inner), inner, x, y, z);
            assert(has_cell(twice, x, y, z) <==> has_cell(once, s.0, s.1, s.2));
            assert(has_cell(once, s.0, s.1, s.2) <==> has_source(v, inner, s.0, s.1, s.2));
        }
        lemma_cells_extensional(twice, v);
    }
    c
}

/// The orientations of a piece are closed under quarter turns.
pub proof fn lemma_orientations_closed(piece: u64, m: u64, axis: Axis)
    requires
        is_orientation(piece, m),
    ensures
        is_orientation(piece, rotated(m, axis)),
{
    reveal_with_fuel(turned, 2);
    let (i, j, k) = choose|i: nat, j: nat, k: nat|
        i < 4 && j < 4 && k < 4 && m == #[trigger] oriented(piece, i, j, k);
    let (i2, j2, k2): (nat, nat, nat) = match axis {
        Axis::X => (1, 0, 0),
        Axis::Y => (0, 1, 0),
        Axis::Z => (0, 0, 1),
    };
    assert(rotated(m, axis) == oriented(m, i2, j2, k2));
    let c = lemma_orientation_of_orientation(i, j, k, i2, j2, k2);
    assert(oriented(oriented(piece, i, j, k), i2, j2, k2) == oriented(piece, c.0, c.1, c.2));
}

} // verus!
