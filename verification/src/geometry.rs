//! Cells of the 4x4x4 cube and their packing into a 64-bit mask.
//!
//! A volume is a `u64`; the cell `(x, y, z)` is bit `x * 16 + y * 4 + z`.
//! Contracts speak of a volume through [`has_bit`], [`has_cell`] and its set
//! of occupied cells, [`cells`].

use vstd::prelude::*;

verus! {

/// Edge length of the cube.
pub const CUBE_SIZE: usize = 4;

/// Number of cells in the cube, one bit of a mask each.
pub const CUBE_NUM_BITS: usize = 64;

/// Number of pieces in a puzzle.
pub const NUM_PIECES: usize = 13;

/// Mask with every cell of the cube occupied.
pub const FULL_CUBE: u64 = 0xffff_ffff_ffff_ffff;

/// Axis of a quarter turn.
#[derive(Clone, Copy, Debug)]
pub enum Axis {
    X,
    Y,
    Z,
}

/// Coordinates `(x, y, z)` of a cell.
pub struct Coords(pub usize, pub usize, pub usize);

/// Whether `(x, y, z)` names a cell of the cube.
pub open spec fn in_cube(x: int, y: int, z: int) -> bool {
    0 <= x < 4 && 0 <= y < 4 && 0 <= z < 4
}

/// Bit position of the cell `(x, y, z)`.
pub open spec fn cell_index(x: int, y: int, z: int) -> int {
    x * 16 + y * 4 + z
}

/// Whether bit `i` of `v` is set; false outside `0..64`.
pub open spec fn has_bit(v: u64, i: int) -> bool {
    0 <= i < 64 && (v >> (i as u64)) & 1 == 1
}

/// Whether the volume `v` occupies the cell `(x, y, z)`; false outside the cube.
pub open spec fn has_cell(v: u64, x: int, y: int, z: int) -> bool {
    in_cube(x, y, z) && has_bit(v, cell_index(x, y, z))
}

/// The volume that occupies bit `k` and nothing else.
pub open spec fn single_cell(k: int) -> u64 {
    1u64 << (k as u64)
}

/// The occupied cells of `v`, as bit positions.
pub open spec fn cells(v: u64) -> Set<int> {
    Set::new(|i: int| has_bit(v, i))
}

/// Number of occupied cells of `v`.
pub open spec fn cell_count(v: u64) -> nat {
    cells(v).len()
}

/// The occupied cells of `v` below bit `n`.
pub open spec fn cells_below(v: u64, n: int) -> Set<int> {
    Set::new(|i: int| i < n && has_bit(v, i))
}

/// The mask whose bits below `n` are given by `f`, and whose other bits are clear.
pub open spec fn mask_below(f: spec_fn(int) -> bool, n: nat) -> u64
    decreases n,
{
    if n == 0 {
        0
    } else {
        let rest = mask_below(f, (n - 1) as nat);
        if f(n - 1) {
            rest | single_cell(n - 1)
        } else {
            rest
        }
    }
}

/// The mask whose bit `i` is `f(i)`, for each `i` in `0..64`.
pub open spec fn mask_of(f: spec_fn(int) -> bool) -> u64 {
    mask_below(f, 64)
}

/// The volume that occupies the cell `(x, y, z)` of the cube exactly when `f(x, y, z)`.
pub open spec fn volume_of(f: spec_fn(int, int, int) -> bool) -> u64 {
    mask_of(|i: int| f(i / 16, (i / 4) % 4, i % 4))
}

proof fn lemma_bit_of_single(i: u64, j: u64)
    by (bit_vector)
    requires
        i < 64,
        j < 64,
    ensures
        ((1u64 << i) >> j) & 1 == 1 <==> i == j,
{
}

proof fn lemma_bit_of_or(a: u64, b: u64, j: u64)
    by (bit_vector)
    ensures
        ((a | b) >> j) & 1 == 1 <==> ((a >> j) & 1 == 1 || (b >> j) & 1 == 1),
{
}

proof fn lemma_bit_of_and(a: u64, b: u64, j: u64)
    by (bit_vector)
    ensures
        ((a & b) >> j) & 1 == 1 <==> ((a >> j) & 1 == 1 && (b >> j) & 1 == 1),
{
}

proof fn lemma_bit_of_zero(j: u64)
    by (bit_vector)
    ensures
        (0u64 >> j) & 1 == 0,
{
}

proof fn lemma_bit_of_full(j: u64)
    by (bit_vector)
    requires
        j < 64,
    ensures
        (0xffff_ffff_ffff_ffffu64 >> j) & 1 == 1,
{
}

proof fn lemma_bit_of_test(v: u64, k: u64)
    by (bit_vector)
    requires
        k < 64,
    ensures
        v & (1u64 << k) != 0 <==> (v >> k) & 1 == 1,
{
}

/// Masking `v` with the single bit `k` tells whether `v` has that bit.
pub proof fn lemma_bit_test(v: u64, k: int)
    requires
        0 <= k < 64,
    ensures
        v & single_cell(k) != 0 <==> has_bit(v, k),
{
    lemma_bit_of_test(v, k as u64);
}

/// The empty volume occupies no cell.
pub proof fn lemma_zero_bits()
    ensures
        forall|i: int| !#[trigger] has_bit(0, i),
{
    assert forall|i: int| !#[trigger] has_bit(0, i) by {
        if 0 <= i < 64 {
            lemma_bit_of_zero(i as u64);
        }
    }
}

/// The full cube occupies every cell.
pub proof fn lemma_full_bits()
    ensures
        forall|i: int| 0 <= i < 64 ==> #[trigger] has_bit(FULL_CUBE, i),
{
    assert forall|i: int| 0 <= i < 64 implies #[trigger] has_bit(FULL_CUBE, i) by {
        lemma_bit_of_full(i as u64);
    }
}

/// A mask with one bit set occupies that bit and no other.
pub proof fn lemma_single_bits(k: int)
    requires
        0 <= k < 64,
    ensures
        forall|i: int| #[trigger] has_bit(single_cell(k), i) <==> i == k,
{
    assert forall|i: int| #[trigger] has_bit(single_cell(k), i) <==> i == k by {
        if 0 <= i < 64 {
            lemma_bit_of_single(k as u64, i as u64);
        }
    }
}

/// The union of two volumes occupies what either occupies.
pub proof fn lemma_or_bits(a: u64, b: u64)
    ensures
        forall|i: int| #[trigger] has_bit(a | b, i) <==> (has_bit(a, i) || has_bit(b, i)),
{
    assert forall|i: int| #[trigger] has_bit(a | b, i) <==> (has_bit(a, i) || has_bit(b, i)) by {
        if 0 <= i < 64 {
            lemma_bit_of_or(a, b, i as u64);
        }
    }
}

/// The intersection of two volumes occupies what both occupy.
pub proof fn lemma_and_bits(a: u64, b: u64)
    ensures
        forall|i: int| #[trigger] has_bit(a & b, i) <==> (has_bit(a, i) && has_bit(b, i)),
{
    assert forall|i: int| #[trigger] has_bit(a & b, i) <==> (has_bit(a, i) && has_bit(b, i)) by {
        if 0 <= i < 64 {
            lemma_bit_of_and(a, b, i as u64);
        }
    }
}

/// Two masks with the same bits are the same mask.
pub proof fn lemma_bits_extensional(a: u64, b: u64)
    requires
        forall|i: int| 0 <= i < 64 ==> (#[trigger] has_bit(a, i) <==> has_bit(b, i)),
    ensures
        a == b,
{
    let d: u64 = a ^ b;
    if d != 0 {
        vstd::std_specs::bits::axiom_u64_trailing_zeros(d);
        let t: u64 = vstd::std_specs::bits::u64_trailing_zeros(d) as u64;
        assert(((a ^ b) >> t) & 1 == 1 ==> ((a >> t) & 1 == 1) != ((b >> t) & 1 == 1))
            by (bit_vector);
        assert(has_bit(a, t as int) != has_bit(b, t as int));
    }
    assert(a ^ b == 0 ==> a == b) by (bit_vector);
}

/// Two volumes are disjoint as masks exactly when they share no cell.
pub proof fn lemma_disjoint_bits(a: u64, b: u64)
    ensures
        a & b == 0 <==> (forall|i: int|
            #![trigger has_bit(a, i)]
            #![trigger has_bit(b, i)]
            !(has_bit(a, i) && has_bit(b, i))),
{
    lemma_and_bits(a, b);
    lemma_zero_bits();
    if a & b == 0 {
        assert forall|i: int|
            #![trigger has_bit(a, i)]
            #![trigger has_bit(b, i)]
            !(has_bit(a, i) && has_bit(b, i)) by {
            assert(!has_bit(a & b, i));
        }
    } else {
        if forall|i: int|
            #![trigger has_bit(a, i)]
            #![trigger has_bit(b, i)]
            !(has_bit(a, i) && has_bit(b, i)) {
            assert forall|i: int| 0 <= i < 64 implies (#[trigger] has_bit(a & b, i) <==> has_bit(
                0,
                i,
            )) by {
                assert(!(has_bit(a, i) && has_bit(b, i)));
            }
            lemma_bits_extensional(a & b, 0);
        }
    }
}

/// Bit `i` of `mask_below(f, n)` is `f(i)` below `n`, and clear from `n` on.
pub proof fn lemma_mask_below_bits(f: spec_fn(int) -> bool, n: nat)
    requires
        n <= 64,
    ensures
        forall|i: int| #[trigger] has_bit(mask_below(f, n), i) <==> (0 <= i < n && f(i)),
    decreases n,
{
    if n == 0 {
        lemma_zero_bits();
    } else {
        let rest = mask_below(f, (n - 1) as nat);
        lemma_mask_below_bits(f, (n - 1) as nat);
        lemma_or_bits(rest, single_cell(n - 1));
        lemma_single_bits(n - 1);
    }
}

/// Bit `i` of `mask_of(f)` is `f(i)`.
pub proof fn lemma_mask_of_bits(f: spec_fn(int) -> bool)
    ensures
        forall|i: int| #[trigger] has_bit(mask_of(f), i) <==> (0 <= i < 64 && f(i)),
{
    lemma_mask_below_bits(f, 64);
}

/// A bit position is the index of exactly one cell of the cube.
pub proof fn lemma_cell_index_coords(i: int)
    requires
        0 <= i < 64,
    ensures
        in_cube(i / 16, (i / 4) % 4, i % 4),
        cell_index(i / 16, (i / 4) % 4, i % 4) == i,
{
}

/// The index of a cell determines its coordinates.
pub proof fn lemma_coords_of_cell_index(x: int, y: int, z: int)
    requires
        in_cube(x, y, z),
    ensures
        0 <= cell_index(x, y, z) < 64,
        cell_index(x, y, z) / 16 == x,
        (cell_index(x, y, z) / 4) % 4 == y,
        cell_index(x, y, z) % 4 == z,
{
}

/// `volume_of(f)` occupies the cell `(x, y, z)` of the cube exactly when `f(x, y, z)`.
pub proof fn lemma_volume_of_cells(f: spec_fn(int, int, int) -> bool)
    ensures
        forall|x: int, y: int, z: int|
            #[trigger] has_cell(volume_of(f), x, y, z) <==> (in_cube(x, y, z) && f(x, y, z)),
{
    lemma_mask_of_bits(|i: int| f(i / 16, (i / 4) % 4, i % 4));
    assert forall|x: int, y: int, z: int|
        #[trigger] has_cell(volume_of(f), x, y, z) <==> (in_cube(x, y, z) && f(x, y, z)) by {
        if in_cube(x, y, z) {
            lemma_coords_of_cell_index(x, y, z);
        }
    }
}

/// Two volumes that occupy the same cells are the same volume.
pub proof fn lemma_cells_extensional(a: u64, b: u64)
    requires
        forall|x: int, y: int, z: int|
            in_cube(x, y, z) ==> (#[trigger] has_cell(a, x, y, z) <==> has_cell(b, x, y, z)),
    ensures
        a == b,
{
    assert forall|i: int| 0 <= i < 64 implies (#[trigger] has_bit(a, i) <==> has_bit(b, i)) by {
        lemma_cell_index_coords(i);
        let (x, y, z) = (i / 16, (i / 4) % 4, i % 4);
        assert(has_cell(a, x, y, z) <==> has_cell(b, x, y, z));
    }
    lemma_bits_extensional(a, b);
}

/// A volume has finitely many cells, at most 64.
pub proof fn lemma_cells_finite(v: u64)
    ensures
        cells(v).finite(),
        cell_count(v) <= 64,
{
    vstd::set_lib::lemma_int_range(0, 64);
    assert(cells(v).subset_of(vstd::set_lib::set_int_range(0, 64)));
    vstd::set_lib::lemma_len_subset(cells(v), vstd::set_lib::set_int_range(0, 64));
}

/// The mask holding `b` at cell `(x, y, z)` and nothing else.
pub fn pack_bit(b: bool, x: usize, y: usize, z: usize) -> (r: u64)
    requires
        in_cube(x as int, y as int, z as int),
    ensures
        forall|i: int|
            #[trigger] has_bit(r, i) <==> (b && i == cell_index(x as int, y as int, z as int)),
        r == (if b { single_cell(cell_index(x as int, y as int, z as int)) } else { 0u64 }),
{
    let shift: usize = x * 16 + y * 4 + z;
    let r: u64 = if b { 1u64 << shift } else { 0 };
    proof {
        lemma_single_bits(shift as int);
        lemma_zero_bits();
        assert(b ==> r == single_cell(shift as int));
    }
    r
}

/// Whether `block` occupies the cell `(x, y, z)`.
pub fn unpack_bit(block: u64, x: usize, y: usize, z: usize) -> (b: bool)
    requires
        in_cube(x as int, y as int, z as int),
    ensures
        b == has_cell(block, x as int, y as int, z as int),
{
    (block >> (x * 16 + y * 4 + z)) & 1 == 1
}

/// Number of occupied cells of `v`.
pub fn count_cells(v: u64) -> (n: u32)
    ensures
        n == cell_count(v),
{
    let mut n: u32 = 0;
    let mut i: usize = 0;
    assert(cells_below(v, 0) =~= Set::empty());
    while i < 64
        invariant
            i <= 64,
            n <= i,
            cells_below(v, i as int).finite(),
            n == cells_below(v, i as int).len(),
        decreases 64 - i,
    {
        let set: bool = (v >> i) & 1 == 1;
        proof {
            if set {
                assert(cells_below(v, i + 1) =~= cells_below(v, i as int).insert(i as int));
            } else {
                assert(cells_below(v, i + 1) =~= cells_below(v, i as int));
            }
        }
        if set {
            n += 1;
        }
        i += 1;
    }
    assert(cells_below(v, 64) =~= cells(v));
    n
}

/// A block of cells that can be read by an index of type `T`.
pub trait BlockIndex<T> {
    /// Whether `i` addresses a cell of this block.
    spec fn in_range(&self, i: T) -> bool;

    /// Whether the cell at `i` is occupied.
    spec fn cell(&self, i: T) -> bool;

    /// Reads the cell at `i`.
    fn index(&self, i: T) -> (b: bool)
        requires
            self.in_range(i),
        ensures
            b == self.cell(i),
    ;
}

impl BlockIndex<Coords> for u64 {
    open spec fn in_range(&self, i: Coords) -> bool {
        in_cube(i.0 as int, i.1 as int, i.2 as int)
    }

    open spec fn cell(&self, i: Coords) -> bool {
        has_cell(*self, i.0 as int, i.1 as int, i.2 as int)
    }

    fn index(&self, i: Coords) -> (b: bool) {
        let Coords(x, y, z) = i;
        unpack_bit(*self, x, y, z)
    }
}

impl BlockIndex<Coords> for &[[[bool; 4]; 4]; 4] {
    open spec fn in_range(&self, i: Coords) -> bool {
        in_cube(i.0 as int, i.1 as int, i.2 as int)
    }

    open spec fn cell(&self, i: Coords) -> bool {
        self[i.2 as int][i.1 as int][i.0 as int]
    }

    fn index(&self, i: Coords) -> (b: bool) {
        let Coords(x, y, z) = i;
        self[z][y][x]
    }
}

} // verus!
