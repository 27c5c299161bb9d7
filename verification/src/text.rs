//! The text forms of pieces and solutions.
//!
//! Pieces come as blocks of nine lines: a header line, whose content does not
//! matter, and eight rows of four characters, the four rows of the layer
//! `z = 0` and then those of the layer `z = 1`; a row gives the cells
//! `x = 0..4` of one `y`, and the character `1` marks an occupied cell. A
//! character is counted by its first byte: the bytes that continue a
//! character in UTF-8 do not count. Lines end with a line feed, before which
//! a carriage return is dropped; the last line may go without. A solution
//! is written as four lines, one for each layer `z`.

use vstd::prelude::*;
use crate::geometry::{
    cell_index, has_bit, has_cell, in_cube, lemma_cells_extensional, lemma_or_bits,
    lemma_volume_of_cells, lemma_zero_bits, pack_bit, unpack_bit, volume_of, BlockIndex, Coords,
    NUM_PIECES,
};
use crate::search::Solution;

verus! {

/// The byte that ends a line.
pub const LINE_FEED: u8 = 10;

/// The byte that is dropped before a line feed.
pub const CARRIAGE_RETURN: u8 = 13;

/// The byte that marks an occupied cell of a piece.
pub const OCCUPIED: u8 = 49;

/// Why a text is not a list of pieces.
#[derive(Clone, Copy, Debug, PartialEq, Eq)]
pub enum FormatError {
    /// A row of a block is not four characters wide.
    BadRow,
    /// The text ends within a block.
    MissingRow,
}

/// Where the line that starts at `start` ends: at the next line feed, or at
/// the end of the text.
pub open spec fn line_end(text: Seq<u8>, start: int) -> int
    decreases text.len() - start,
{
    if start >= text.len() {
        text.len() as int
    } else if text[start] == LINE_FEED {
        start
    } else {
        line_end(text, start + 1)
    }
}

/// Where the line after the one that starts at `start` starts.
pub open spec fn next_line(text: Seq<u8>, start: int) -> int {
    let end = line_end(text, start);
    if end < text.len() {
        end + 1
    } else {
        end
    }
}

/// The line that starts at `start`, without its line ending.
pub open spec fn line_at(text: Seq<u8>, start: int) -> Seq<u8> {
    let end = line_end(text, start);
    if start < end < text.len() && text[end - 1] == CARRIAGE_RETURN {
        text.subrange(start, end - 1)
    } else {
        text.subrange(start, end)
    }
}

/// Where line number `i` of the text starts.
pub open spec fn line_start(text: Seq<u8>, i: nat) -> int
    decreases i,
{
    if i == 0 {
        0
    } else {
        next_line(text, line_start(text, (i - 1) as nat))
    }
}

/// A line ends at or after its start, within the text.
pub proof fn lemma_line_end_bounds(text: Seq<u8>, start: int)
    requires
        0 <= start <= text.len(),
    ensures
        start <= line_end(text, start) <= text.len(),
        line_end(text, start) < text.len() ==> text[line_end(text, start)] == LINE_FEED,
        start < text.len() ==> start < next_line(text, start) <= text.len(),
    decreases text.len() - start,
{
    if start < text.len() && text[start] != LINE_FEED {
        lemma_line_end_bounds(text, start + 1);
    }
}

/// Number of lines of the text from `start` on.
pub open spec fn line_count_from(text: Seq<u8>, start: int) -> nat
    decreases text.len() - start,
{
    if 0 <= start < text.len() {
        proof {
            lemma_line_end_bounds(text, start);
        }
        1 + line_count_from(text, next_line(text, start))
    } else {
        0
    }
}

/// Number of lines of the text.
pub open spec fn line_count(text: Seq<u8>) -> nat {
    line_count_from(text, 0)
}

/// Line number `i` of the text.
pub open spec fn line(text: Seq<u8>, i: int) -> Seq<u8> {
    line_at(text, line_start(text, i as nat))
}

/// Whether `byte` starts a character: whether it is no byte that continues
/// a character in UTF-8.
pub open spec fn starts_char(byte: u8) -> bool {
    byte < 0x80 || byte >= 0xc0
}

/// The characters of `bytes`, each given by its first byte.
pub open spec fn chars_of(bytes: Seq<u8>) -> Seq<u8> {
    bytes.filter(|byte: u8| starts_char(byte))
}

/// The characters of line number `i` of the text, each given by its first byte.
pub open spec fn row_chars(text: Seq<u8>, i: int) -> Seq<u8> {
    chars_of(line(text, i))
}

/// Whether some row of a block, that is a line other than a header, is not
/// four characters wide.
pub open spec fn has_bad_row(text: Seq<u8>) -> bool {
    exists|i: int|
        0 <= i < line_count(text) && i % 9 != 0 && (#[trigger] row_chars(text, i)).len() != 4
}

/// The piece that block number `b` of the text gives.
pub open spec fn block_at(text: Seq<u8>, b: int) -> u64 {
    volume_of(
        |x: int, y: int, z: int| z < 2 && row_chars(text, 9 * b + 1 + 4 * z + y)[x] == OCCUPIED,
    )
}

/// The pieces that the text gives, or why it gives none.
pub open spec fn parsed(text: Seq<u8>) -> Result<Seq<u64>, FormatError> {
    if has_bad_row(text) {
        Err(FormatError::BadRow)
    } else if line_count(text) % 9 != 0 {
        Err(FormatError::MissingRow)
    } else {
        Ok(Seq::new(line_count(text) / 9, |b: int| block_at(text, b)))
    }
}

/// Finds the end of the content of the line that starts at `start`, and the
/// start of the next line.
fn line_bounds(text: &[u8], start: usize) -> (r: (usize, usize))
    requires
        start < text.len(),
    ensures
        start <= r.0 <= text.len(),
        text@.subrange(start as int, r.0 as int) == line_at(text@, start as int),
        r.1 == next_line(text@, start as int),
        start < r.1 <= text.len(),
{
    let mut end: usize = start;
    while end < text.len() && text[end] != LINE_FEED
        invariant
            start <= end <= text.len(),
            line_end(text@, end as int) == line_end(text@, start as int),
        decreases text.len() - end,
    {
        end += 1;
    }
    proof {
        lemma_line_end_bounds(text@, start as int);
    }
    let next: usize = if end < text.len() {
        end + 1
    } else {
        end
    };
    let content_end: usize = if start < end && end < text.len() && text[end - 1]
        == CARRIAGE_RETURN {
        end - 1
    } else {
        end
    };
    (content_end, next)
}

/// Collects the first bytes of the characters of `text` from `start` to `end`.
fn leading_bytes(text: &[u8], start: usize, end: usize) -> (heads: Vec<u8>)
    requires
        start <= end <= text.len(),
    ensures
        heads@ == chars_of(text@.subrange(start as int, end as int)),
{
    let ghost bytes = text@.subrange(start as int, end as int);
    let ghost lead = |byte: u8| starts_char(byte);
    let mut heads: Vec<u8> = Vec::new();
    let mut at: usize = start;
    proof {
        reveal(Seq::filter);
        assert(bytes.take(0).filter(lead) =~= Seq::<u8>::empty());
    }
    while at < end
        invariant
            start <= at <= end <= text.len(),
            bytes == text@.subrange(start as int, end as int),
            lead == (|byte: u8| starts_char(byte)),
            heads@ == bytes.take(at - start).filter(lead),
        decreases end - at,
    {
        let byte: u8 = text[at];
        proof {
            assert(bytes.take(at - start + 1) =~= bytes.take(at - start).push(byte));
            bytes.take(at - start).lemma_filter_push(byte, lead);
        }
        if byte < 0x80 || byte >= 0xc0 {
            heads.push(byte);
        }
        at += 1;
    }
    proof {
        assert(bytes.take(end - start) =~= bytes);
    }
    heads
}

/// The cells of block `b` through its first `rows` rows, and within row
/// number `rows` through its first `cols` cells.
spec fn block_so_far(text: Seq<u8>, block: u64, b: int, rows: int, cols: int) -> bool {
    forall|x: int, y: int, z: int|
        in_cube(x, y, z) ==> (#[trigger] has_cell(block, x, y, z) <==> (z < 2 && (4 * z + y < rows
            || (4 * z + y == rows && x < cols)) && row_chars(text, 9 * b + 1 + 4 * z + y)[x]
            == OCCUPIED))
}

proof fn lemma_block_step(
    text: Seq<u8>,
    block: u64,
    bit: u64,
    b: int,
    row: int,
    x: int,
)
    requires
        0 <= row < 8,
        0 <= x < 4,
        block_so_far(text, block, b, row, x),
        forall|i: int| #[trigger]
            has_bit(bit, i) <==> (row_chars(text, 9 * b + 1 + row)[x] == OCCUPIED && i
                == cell_index(x, row % 4, row / 4)),
    ensures
        block_so_far(text, block | bit, b, row, x + 1),
{
    lemma_or_bits(block, bit);
    assert forall|tx: int, ty: int, tz: int| in_cube(tx, ty, tz) implies (#[trigger] has_cell(
        block | bit,
        tx,
        ty,
        tz,
    ) <==> (tz < 2 && (4 * tz + ty < row || (4 * tz + ty == row && tx < x + 1)) && row_chars(
        text,
        9 * b + 1 + 4 * tz + ty,
    )[tx] == OCCUPIED)) by {
        let t = cell_index(tx, ty, tz);
        assert(has_cell(block, tx, ty, tz) <==> (tz < 2 && (4 * tz + ty < row || (4 * tz + ty
            == row && tx < x)) && row_chars(text, 9 * b + 1 + 4 * tz + ty)[tx] == OCCUPIED));
        assert(has_bit(block | bit, t) <==> (has_bit(block, t) || has_bit(bit, t)));
        assert(t == cell_index(x, row % 4, row / 4) <==> (tx == x && ty == row % 4 && tz == row
            / 4));
        assert((4 * tz + ty == row) <==> (ty == row % 4 && tz == row / 4));
    }
}

/// Reads pieces from the text of a pieces file.
pub fn parse_pieces(text: &[u8]) -> (r: Result<Vec<u64>, FormatError>)
    ensures
        match r {
            Ok(blocks) => parsed(text@) == Ok::<Seq<u64>, FormatError>(blocks@),
            Err(e) => parsed(text@) == Err::<Seq<u64>, FormatError>(e),
        },
{
    let mut blocks: Vec<u64> = Vec::new();
    let mut pos: usize = 0;
    while pos < text.len()
        invariant
            pos <= text.len(),
            pos == line_start(text@, (9 * blocks.len()) as nat),
            9 * blocks.len() + line_count_from(text@, pos as int) == line_count(text@),
            forall|i: int|
                0 <= i < 9 * blocks.len() && i % 9 != 0 ==> (#[trigger] row_chars(text@, i)).len()
                    == 4,
            forall|j: int| 0 <= j < blocks.len() ==> #[trigger] blocks[j] == block_at(text@, j),
        decreases text.len() - pos,
    {
        let ghost b: int = blocks.len() as int;
        let ghost block_start: int = pos as int;
        // The header line: whatever it holds, it only starts the block.
        let (_, after_header): (usize, usize) = line_bounds(text, pos);
        pos = after_header;
        let mut block: u64 = 0;
        let mut row: usize = 0;
        proof {
            lemma_zero_bits();
        }
        while row < 8
            invariant
                row <= 8,
                b == blocks.len(),
                block_start < pos <= text.len(),
                pos == line_start(text@, (9 * b + 1 + row) as nat),
                9 * b + 1 + row + line_count_from(text@, pos as int) == line_count(text@),
                forall|i: int|
                    0 <= i < 9 * b + 1 + row && i % 9 != 0 ==> (#[trigger] row_chars(
                        text@,
                        i,
                    )).len() == 4,
                forall|j: int| 0 <= j < blocks.len() ==> #[trigger] blocks[j] == block_at(text@, j),
                block_so_far(text@, block, b, row as int, 0),
            decreases 8 - row,
        {
            let ghost at: int = 9 * b + 1 + row;
            if pos >= text.len() {
                proof {
                    assert(line_count(text@) == at);
                    assert(!has_bad_row(text@));
                }
                return Err(FormatError::MissingRow);
            }
            let (end, next): (usize, usize) = line_bounds(text, pos);
            let cells: Vec<u8> = leading_bytes(text, pos, end);
            if cells.len() != 4 {
                proof {
                    assert(row_chars(text@, at).len() != 4);
                    assert(at % 9 != 0);
                    assert(has_bad_row(text@));
                }
                return Err(FormatError::BadRow);
            }
            let mut x: usize = 0;
            while x < 4
                invariant
                    x <= 4,
                    row < 8,
                    cells@.len() == 4,
                    cells@ == row_chars(text@, 9 * b + 1 + row),
                    block_so_far(text@, block, b, row as int, x as int),
                decreases 4 - x,
            {
                let marked: bool = cells[x] == OCCUPIED;
                let bit: u64 = pack_bit(marked, x, row % 4, row / 4);
                proof {
                    lemma_block_step(text@, block, bit, b, row as int, x as int);
                }
                block |= bit;
                x += 1;
            }
            pos = next;
            row += 1;
        }
        proof {
            lemma_volume_of_cells(
                |x: int, y: int, z: int|
                    z < 2 && row_chars(text@, 9 * b + 1 + 4 * z + y)[x] == OCCUPIED,
            );
            lemma_cells_extensional(block, block_at(text@, b));
        }
        blocks.push(block);
    }
    proof {
        assert(line_count(text@) == 9 * blocks.len());
        assert(!has_bad_row(text@));
        assert(blocks@ =~= Seq::new(line_count(text@) / 9, |b: int| block_at(text@, b)));
    }
    Ok(blocks)
}

/// The byte written for a cell that no piece occupies.
pub const NO_PIECE: u8 = 48;

/// The byte written for a cell of piece 0; piece `p` is written as this plus `p`.
pub const FIRST_PIECE: u8 = 65;

/// The byte between the rows of a line.
pub const SPACE: u8 = 32;

/// The byte shown for an occupied cell of a block.
pub const FILLED: u8 = 35;

/// The byte shown for an empty cell of a block.
pub const BLANK: u8 = 46;

/// The label of the cell `(x, y, z)` among the first `n` pieces: that of the
/// last of them that occupies the cell, or `NO_PIECE`.
pub open spec fn label_below(picks: Seq<u64>, n: nat, x: int, y: int, z: int) -> u8
    decreases n,
{
    if n == 0 {
        NO_PIECE
    } else if has_cell(picks[n - 1], x, y, z) {
        (FIRST_PIECE + (n - 1)) as u8
    } else {
        label_below(picks, (n - 1) as nat, x, y, z)
    }
}

/// Byte number `i` of the text of a solution. The text has a line of 29 bytes
/// for each layer `z`: the rows `y = 0..4`, four labels each, with four
/// spaces between one row and the next, and a line feed.
pub open spec fn solution_char(picks: Seq<u64>, i: int) -> u8 {
    let z = i / 29;
    let col = i % 29;
    if col == 28 {
        LINE_FEED
    } else if col % 8 < 4 {
        label_below(picks, 13, col % 8, col / 8, z)
    } else {
        SPACE
    }
}

/// The first `n` bytes of the text of a solution.
pub open spec fn solution_text_prefix(picks: Seq<u64>, n: nat) -> Seq<u8> {
    Seq::new(n, |i: int| solution_char(picks, i))
}

/// The text of a solution: four lines, one for each layer.
pub open spec fn solution_text(picks: Seq<u64>) -> Seq<u8> {
    solution_text_prefix(picks, 116)
}

/// The label of the piece that occupies the cell `(x, y, z)`.
fn label_of(picks: &Solution, x: usize, y: usize, z: usize) -> (label: u8)
    requires
        in_cube(x as int, y as int, z as int),
    ensures
        label == label_below(picks.0@, 13, x as int, y as int, z as int),
{
    let mut label: u8 = NO_PIECE;
    let mut p: usize = 0;
    while p < NUM_PIECES
        invariant
            p <= 13,
            in_cube(x as int, y as int, z as int),
            label == label_below(picks.0@, p as nat, x as int, y as int, z as int),
        decreases 13 - p,
    {
        if unpack_bit(picks.0[p], x, y, z) {
            label = p as u8 + FIRST_PIECE;
        }
        p += 1;
    }
    label
}

/// Adds `byte` to `stream` as byte number `n` of the text of `picks`.
fn put(
    stream: &mut Vec<u8>,
    byte: u8,
    Ghost(base): Ghost<Seq<u8>>,
    Ghost(picks): Ghost<Seq<u64>>,
    Ghost(n): Ghost<nat>,
)
    requires
        old(stream)@ == base + solution_text_prefix(picks, n),
        byte == solution_char(picks, n as int),
    ensures
        final(stream)@ == base + solution_text_prefix(picks, n + 1),
{
    stream.push(byte);
    assert(stream@ =~= base + solution_text_prefix(picks, n + 1));
}

/// Writes a solution to `stream`: for each layer `z` a line that holds, for
/// each row `y`, the labels of its four cells, `A` for piece 0, `B` for
/// piece 1 and so on.
pub fn write_solution(picks: &Solution, stream: &mut Vec<u8>)
    ensures
        final(stream)@ == old(stream)@ + solution_text(picks.0@),
{
    let ghost base = stream@;
    let ghost s = picks.0@;
    assert(stream@ =~= base + solution_text_prefix(s, 0));
    let mut z: usize = 0;
    while z < 4
        invariant
            z <= 4,
            stream@ == base + solution_text_prefix(s, (29 * z) as nat),
            s == picks.0@,
        decreases 4 - z,
    {
        let mut y: usize = 0;
        while y < 4
            invariant
                z < 4,
                y <= 4,
                stream@ == base + solution_text_prefix(
                    s,
                    (if y == 4 {
                        29 * z + 28
                    } else {
                        29 * z + 8 * y
                    }) as nat,
                ),
                s == picks.0@,
            decreases 4 - y,
        {
            let mut x: usize = 0;
            while x < 4
                invariant
                    z < 4,
                    y < 4,
                    x <= 4,
                    stream@ == base + solution_text_prefix(s, (29 * z + 8 * y + x) as nat),
                    s == picks.0@,
                decreases 4 - x,
            {
                let label: u8 = label_of(picks, x, y, z);
                proof {
                    lemma_text_position(z as int, 8 * y + x);
                }
                put(stream, label, Ghost(base), Ghost(s), Ghost((29 * z + 8 * y + x) as nat));
                x += 1;
            }
            if y != 3 {
                let mut gap: usize = 0;
                while gap < 4
                    invariant
                        z < 4,
                        y < 3,
                        gap <= 4,
                        stream@ == base + solution_text_prefix(
                            s,
                            (29 * z + 8 * y + 4 + gap) as nat,
                        ),
                    decreases 4 - gap,
                {
                    proof {
                        lemma_text_position(z as int, 8 * y + 4 + gap);
                    }
                    put(
                        stream,
                        SPACE,
                        Ghost(base),
                        Ghost(s),
                        Ghost((29 * z + 8 * y + 4 + gap) as nat),
                    );
                    gap += 1;
                }
            }
            y += 1;
        }
        proof {
            lemma_text_position(z as int, 28);
        }
        put(stream, LINE_FEED, Ghost(base), Ghost(s), Ghost((29 * z + 28) as nat));
        z += 1;
    }
}

/// Line and column of a byte of the text of a solution.
proof fn lemma_text_position(z: int, col: int)
    requires
        0 <= z,
        0 <= col < 29,
    ensures
        (29 * z + col) / 29 == z,
        (29 * z + col) % 29 == col,
{
    vstd::arithmetic::div_mod::lemma_fundamental_div_mod_converse(29 * z + col, 29, z, col);
}

/// Byte number `i` of the picture of a block. The picture has a line of 33
/// bytes for each row `y`: for each layer `z = 0..4` the four cells of the
/// row, `#` for an occupied and `.` for an empty one, and four spaces; then
/// a line feed.
pub open spec fn block_char<T: BlockIndex<Coords>>(block: T, i: int) -> u8 {
    let y = i / 33;
    let col = i % 33;
    if col == 32 {
        LINE_FEED
    } else if col % 8 < 4 {
        if block.cell(Coords((col % 8) as usize, y as usize, (col / 8) as usize)) {
            FILLED
        } else {
            BLANK
        }
    } else {
        SPACE
    }
}

/// The first `n` bytes of the picture of a block.
pub open spec fn block_text_prefix<T: BlockIndex<Coords>>(block: T, n: nat) -> Seq<u8> {
    Seq::new(n, |i: int| block_char(block, i))
}

/// The picture of a block: four lines, one for each row `y`.
pub open spec fn block_text<T: BlockIndex<Coords>>(block: T) -> Seq<u8> {
    block_text_prefix(block, 132)
}

proof fn lemma_picture_position(y: int, col: int)
    requires
        0 <= y,
        0 <= col < 33,
    ensures
        (33 * y + col) / 33 == y,
        (33 * y + col) % 33 == col,
{
    vstd::arithmetic::div_mod::lemma_fundamental_div_mod_converse(33 * y + col, 33, y, col);
}

/// Draws a block: its rows side by side, layer after layer.
pub fn format_block<T: BlockIndex<Coords>>(block: T) -> (out: Vec<u8>)
    requires
        forall|x: usize, y: usize, z: usize|
            x < 4 && y < 4 && z < 4 ==> #[trigger] block.in_range(Coords(x, y, z)),
    ensures
        out@ == block_text(block),
{
    let mut out: Vec<u8> = Vec::new();
    assert(out@ =~= block_text_prefix(block, 0));
    let mut y: usize = 0;
    while y < 4
        invariant
            y <= 4,
            out@ == block_text_prefix(block, (33 * y) as nat),
            forall|x: usize, y: usize, z: usize|
                x < 4 && y < 4 && z < 4 ==> #[trigger] block.in_range(Coords(x, y, z)),
        decreases 4 - y,
    {
        let mut z: usize = 0;
        while z < 4
            invariant
                y < 4,
                z <= 4,
                out@ == block_text_prefix(block, (33 * y + 8 * z) as nat),
                forall|x: usize, y: usize, z: usize|
                    x < 4 && y < 4 && z < 4 ==> #[trigger] block.in_range(Coords(x, y, z)),
            decreases 4 - z,
        {
            let mut x: usize = 0;
            while x < 8
                invariant
                    y < 4,
                    z < 4,
                    x <= 8,
                    out@ == block_text_prefix(block, (33 * y + 8 * z + x) as nat),
                    forall|x: usize, y: usize, z: usize|
                        x < 4 && y < 4 && z < 4 ==> #[trigger] block.in_range(Coords(x, y, z)),
                decreases 8 - x,
            {
                let byte: u8 = if x >= 4 {
                    SPACE
                } else if block.index(Coords(x, y, z)) {
                    FILLED
                } else {
                    BLANK
                };
                proof {
                    lemma_picture_position(y as int, 8 * z + x);
                }
                out.push(byte);
                assert(out@ =~= block_text_prefix(block, (33 * y + 8 * z + x + 1) as nat));
                x += 1;
            }
            z += 1;
        }
        proof {
            lemma_picture_position(y as int, 32);
        }
        out.push(LINE_FEED);
        assert(out@ =~= block_text_prefix(block, (33 * (y + 1)) as nat));
        y += 1;
    }
    out
}

} // verus!
