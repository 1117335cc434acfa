//! Coordinate mapping for a box-major Sudoku board.
//!
//! The 81 cells are stored box by box: cells `0..9` are the top-left box in
//! reading order, cells `9..18` the box to its right, and so on. A cell's
//! row and column on the board are never stored; they are derived from its
//! linear index by the functions of this module.

use vstd::arithmetic::div_mod::lemma_fundamental_div_mod_converse;
use vstd::prelude::*;

verus! {

/// Number of cells on the board.
pub const BOARD_CELLS: usize = 81;

/// Number of cells in a unit, and number of units of each kind.
pub const UNIT_CELLS: usize = 9;

/// The box that holds the cell.
pub open spec fn box_of(cell: int) -> int {
    cell / 9
}

/// The band (row of boxes) that holds the box.
pub open spec fn box_row_of(box_id: int) -> int {
    box_id / 3
}

/// The stack (column of boxes) that holds the box.
pub open spec fn box_col_of(box_id: int) -> int {
    box_id % 3
}

/// The board row of the cell.
pub open spec fn row_of(cell: int) -> int {
    3 * (cell / 27) + (cell % 9) / 3
}

/// The board column of the cell.
pub open spec fn col_of(cell: int) -> int {
    3 * ((cell / 9) % 3) + cell % 3
}

/// The linear index of the leftmost cell of a board row: rows of one band
/// lie 3 apart, bands lie 27 apart.
pub open spec fn row_start(row: int) -> int {
    27 * (row / 3) + 3 * (row % 3)
}

/// The linear index of the topmost cell of a board column: columns of one
/// stack lie 1 apart, stacks lie 9 apart.
pub open spec fn col_start(col: int) -> int {
    9 * (col / 3) + col % 3
}

/// The linear index of the cell at the given board row and column.
pub open spec fn cell_at(row: int, col: int) -> int {
    row_start(row) + col_start(col)
}

/// Whether two cells lie in a common box, row or column.
pub open spec fn shares_unit(a: int, b: int) -> bool {
    box_of(a) == box_of(b) || row_of(a) == row_of(b) || col_of(a) == col_of(b)
}

/// Box id of a cell.
pub fn get_box_id(cell_id: u8) -> (box_id: u8)
    ensures
        box_id == box_of(cell_id as int),
        cell_id < 81 ==> box_id < 9,
{
    cell_id / 9
}

/// Band of a box: its row in the 3x3 grid of boxes.
pub fn get_box_row(box_id: u8) -> (band: u8)
    ensures
        band == box_row_of(box_id as int),
        box_id < 9 ==> band < 3,
{
    box_id / 3
}

/// Stack of a box: its column in the 3x3 grid of boxes.
pub fn get_box_col(box_id: u8) -> (stack: u8)
    ensures
        stack == box_col_of(box_id as int),
        stack < 3,
{
    box_id % 3
}

/// Board row of a cell.
pub fn get_cell_row(cell_id: u8) -> (row: u8)
    ensures
        row == row_of(cell_id as int),
        cell_id < 81 ==> row < 9,
{
    proof {
        lemma_row_col_digits(cell_id as int);
    }
    let box_row = get_box_row(get_box_id(cell_id));
    let inner_box_row = cell_id % 9 / 3;
    inner_box_row + box_row * 3
}

/// Board column of a cell.
pub fn get_cell_col(cell_id: u8) -> (col: u8)
    ensures
        col == col_of(cell_id as int),
        col < 9,
{
    proof {
        lemma_row_col_digits(cell_id as int);
    }
    let box_col = get_box_col(get_box_id(cell_id));
    let inner_box_col = cell_id % 3;
    inner_box_col + box_col * 3
}

/// Index of the first cell of the row that holds the given cell.
pub fn row_start_from_cid(cell_id: u8) -> (start: u8)
    ensures
        start == row_start(row_of(cell_id as int)),
        start == 27 * box_row_of(box_of(cell_id as int)) + 3 * ((cell_id % 9) / 3),
        cell_id < 81 ==> start <= 60,
{
    proof {
        lemma_row_col_digits(cell_id as int);
    }
    let pos_in_box = cell_id % 9;
    let row_in_box = pos_in_box / 3;
    let idx_row_box = row_in_box * 3;
    let box_row = get_box_row(get_box_id(cell_id));
    box_row * 27 + idx_row_box
}

/// Index of the first cell of a board row.
pub fn row_start_from_idx(row_id: u8) -> (start: u8)
    requires
        row_id < 9,
    ensures
        start == row_start(row_id as int),
        start <= 60,
{
    if row_id < 3 {
        row_id * 3
    } else if row_id < 6 {
        (row_id % 3) * 3 + 27
    } else {
        (row_id % 3) * 3 + 54
    }
}

/// Index of the first cell of the column that holds the given cell.
pub fn col_start_from_cid(cell_id: u8) -> (start: u8)
    ensures
        start == col_start(col_of(cell_id as int)),
        start == 9 * box_col_of(box_of(cell_id as int)) + cell_id % 3,
        start <= 20,
{
    proof {
        lemma_row_col_digits(cell_id as int);
    }
    let pos_in_box = cell_id % 9;
    let col_in_box = pos_in_box % 3;
    let box_col = get_box_col(get_box_id(cell_id));
    box_col * 9 + col_in_box
}

/// Index of the first cell of a board column.
pub fn col_start_from_idx(col_id: u8) -> (start: u8)
    requires
        col_id < 9,
    ensures
        start == col_start(col_id as int),
        start <= 20,
{
    if col_id < 3 {
        col_id
    } else if col_id < 6 {
        (col_id % 3) + 9
    } else {
        (col_id % 3) + 18
    }
}

/// Every cell index is recovered from its board row and column: `cell_at`
/// undoes `row_of` and `col_of`.
pub proof fn lemma_cell_round_trip(cell: int)
    requires
        0 <= cell < 81,
    ensures
        0 <= row_of(cell) < 9,
        0 <= col_of(cell) < 9,
        0 <= box_of(cell) < 9,
        cell_at(row_of(cell), col_of(cell)) == cell,
{
    lemma_row_col_digits(cell);
}

/// Every board position names one cell, and that cell lies in the row and
/// column it was asked for: `row_of` and `col_of` undo `cell_at`.
pub proof fn lemma_position_round_trip(row: int, col: int)
    requires
        0 <= row < 9,
        0 <= col < 9,
    ensures
        0 <= cell_at(row, col) < 81,
        row_of(cell_at(row, col)) == row,
        col_of(cell_at(row, col)) == col,
        box_of(cell_at(row, col)) == 3 * (row / 3) + col / 3,
{
    lemma_compose(row / 3, col / 3, row % 3, col % 3);
}

/// A cell is reached from the start of its row by stepping over whole boxes
/// and then within the box, and likewise from the start of its column.
pub proof fn lemma_cell_from_unit_start(cell: int)
    requires
        0 <= cell < 81,
    ensures
        row_start(row_of(cell)) == 27 * box_row_of(box_of(cell)) + 3 * ((cell % 9) / 3),
        col_start(col_of(cell)) == 9 * box_col_of(box_of(cell)) + cell % 3,
        cell == row_start(row_of(cell)) + 9 * (col_of(cell) / 3) + col_of(cell) % 3,
        cell == col_start(col_of(cell)) + 27 * (row_of(cell) / 3) + 3 * (row_of(cell) % 3),
{
    lemma_row_col_digits(cell);
}

/// Row starts advance by 3 inside a band and by 27 from band to band; column
/// starts advance by 1 inside a stack and by 9 from stack to stack.
pub proof fn lemma_unit_starts(band: int, inner: int)
    requires
        0 <= inner < 3,
    ensures
        row_start(3 * band + inner) == 27 * band + 3 * inner,
        col_start(3 * band + inner) == 9 * band + inner,
{
    lemma_fundamental_div_mod_converse(3 * band + inner, 3, band, inner);
}

/// The band, the stack and the place inside the box are the base-3 digits
/// of a cell index; the row and the column each take two of them.
pub proof fn lemma_row_col_digits(cell: int)
    requires
        0 <= cell,
    ensures
        cell == 27 * (cell / 27) + 9 * ((cell / 9) % 3) + 3 * ((cell % 9) / 3) + cell % 3,
        row_of(cell) / 3 == cell / 27,
        row_of(cell) % 3 == (cell % 9) / 3,
        col_of(cell) / 3 == (cell / 9) % 3,
        col_of(cell) % 3 == cell % 3,
        (cell / 9) / 3 == cell / 27,
{
    let in_box = cell % 9;
    let box_id = cell / 9;
    assert(cell == 9 * box_id + in_box);
    assert(0 <= in_box < 9);
    assert(in_box == 3 * (in_box / 3) + in_box % 3);
    assert(box_id == 3 * (box_id / 3) + box_id % 3);
    lemma_fundamental_div_mod_converse(
        cell,
        27,
        box_id / 3,
        9 * (box_id % 3) + 3 * (in_box / 3) + in_box % 3,
    );
    lemma_fundamental_div_mod_converse(cell, 3, 3 * box_id + in_box / 3, in_box % 3);
    lemma_fundamental_div_mod_converse(row_of(cell), 3, cell / 27, in_box / 3);
    lemma_fundamental_div_mod_converse(col_of(cell), 3, box_id % 3, cell % 3);
}

/// The cell built from a band, a stack and a place inside the box lies in
/// that band, that stack and at that place.
proof fn lemma_compose(band: int, stack: int, inner_row: int, inner_col: int)
    requires
        0 <= band < 3,
        0 <= stack < 3,
        0 <= inner_row < 3,
        0 <= inner_col < 3,
    ensures
        ({
            let cell = 27 * band + 9 * stack + 3 * inner_row + inner_col;
            &&& 0 <= cell < 81
            &&& box_of(cell) == 3 * band + stack
            &&& row_of(cell) == 3 * band + inner_row
            &&& col_of(cell) == 3 * stack + inner_col
        }),
{
    let cell = 27 * band + 9 * stack + 3 * inner_row + inner_col;
    lemma_fundamental_div_mod_converse(cell, 27, band, 9 * stack + 3 * inner_row + inner_col);
    lemma_fundamental_div_mod_converse(cell, 9, 3 * band + stack, 3 * inner_row + inner_col);
    lemma_fundamental_div_mod_converse(cell, 3, 9 * band + 3 * stack + inner_row, inner_col);
    lemma_fundamental_div_mod_converse(3 * band + stack, 3, band, stack);
    lemma_fundamental_div_mod_converse(3 * inner_row + inner_col, 3, inner_row, inner_col);
}

} // verus!
