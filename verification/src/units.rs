//! Unit extraction: the nine values of a box, a row or a column, in reading
//! order (left to right, then top to bottom).

use vstd::prelude::*;
use vstd::slice::slice_to_vec;
use crate::mapper::{
    box_of, cell_at, col_of, col_start, col_start_from_idx, lemma_cell_round_trip,
    lemma_position_round_trip, lemma_unit_starts, row_of, row_start, row_start_from_idx,
    BOARD_CELLS,
};

verus! {

/// The nine values of a box, in reading order. A box is stored contiguously.
pub open spec fn box_cells(board: Seq<u8>, box_id: int) -> Seq<u8> {
    board.subrange(9 * box_id, 9 * box_id + 9)
}

/// The nine values of a board row, left to right.
pub open spec fn row_cells(board: Seq<u8>, row: int) -> Seq<u8> {
    Seq::new(9, |col: int| board[cell_at(row, col)])
}

/// The nine values of a board column, top to bottom.
pub open spec fn col_cells(board: Seq<u8>, col: int) -> Seq<u8> {
    Seq::new(9, |row: int| board[cell_at(row, col)])
}

/// The nine values of a box.
pub fn get_board_box(board: &[u8], box_id: u8) -> (cells: Vec<u8>)
    requires
        board@.len() == BOARD_CELLS,
        box_id < 9,
    ensures
        cells@ == box_cells(board@, box_id as int),
{
    let start_idx = (box_id * 9) as usize;
    slice_to_vec(&board[start_idx..start_idx + 9])
}

/// The nine values of a board row.
pub fn get_board_row(board: &[u8], row_id: u8) -> (cells: Vec<u8>)
    requires
        board@.len() == BOARD_CELLS,
        row_id < 9,
    ensures
        cells@ == row_cells(board@, row_id as int),
{
    let mut row: Vec<u8> = Vec::new();
    let rci: usize = row_start_from_idx(row_id) as usize;
    for b in 0..3usize
        invariant
            board@.len() == BOARD_CELLS,
            row_id < 9,
            rci == row_start(row_id as int),
            row@.len() == 3 * b,
            forall|k: int| 0 <= k < row@.len() ==> row@[k] == board@[cell_at(row_id as int, k)],
    {
        for c in 0..3usize
            invariant
                board@.len() == BOARD_CELLS,
                row_id < 9,
                b < 3,
                rci == row_start(row_id as int),
                row@.len() == 3 * b + c,
                forall|k: int|
                    0 <= k < row@.len() ==> row@[k] == board@[cell_at(row_id as int, k)],
        {
            proof {
                lemma_unit_starts(b as int, c as int);
            }
            let cell = board[rci + c + (b * 9)];
            row.push(cell);
        }
    }
    row
}

/// The nine values of a board column.
pub fn get_board_col(board: &[u8], col_id: u8) -> (cells: Vec<u8>)
    requires
        board@.len() == BOARD_CELLS,
        col_id < 9,
    ensures
        cells@ == col_cells(board@, col_id as int),
{
    let mut col: Vec<u8> = Vec::new();
    let cci: usize = col_start_from_idx(col_id) as usize;
    for b in 0..3usize
        invariant
            board@.len() == BOARD_CELLS,
            col_id < 9,
            cci == col_start(col_id as int),
            col@.len() == 3 * b,
            forall|k: int| 0 <= k < col@.len() ==> col@[k] == board@[cell_at(k, col_id as int)],
    {
        for c in 0..3usize
            invariant
                board@.len() == BOARD_CELLS,
                col_id < 9,
                b < 3,
                cci == col_start(col_id as int),
                col@.len() == 3 * b + c,
                forall|k: int|
                    0 <= k < col@.len() ==> col@[k] == board@[cell_at(k, col_id as int)],
        {
            proof {
                lemma_unit_starts(b as int, c as int);
            }
            let cell = board[cci + (c * 3) + (b * 27)];
            col.push(cell);
        }
    }
    col
}

/// Each cell of the board is found in its own box, row and column, at the
/// place that reading order gives it.
pub proof fn lemma_cell_in_its_units(board: Seq<u8>, cell: int)
    requires
        board.len() == 81,
        0 <= cell < 81,
    ensures
        box_cells(board, box_of(cell))[cell % 9] == board[cell],
        row_cells(board, row_of(cell))[col_of(cell)] == board[cell],
        col_cells(board, col_of(cell))[row_of(cell)] == board[cell],
{
    lemma_cell_round_trip(cell);
}

/// Each place of a unit holds one cell of the board, and that cell lies in
/// the unit: place `k` of a box is cell `9 * box + k`, place `k` of a row is
/// the cell in column `k`, place `k` of a column is the cell in row `k`.
pub proof fn lemma_unit_place(board: Seq<u8>, unit: int, k: int)
    requires
        board.len() == 81,
        0 <= unit < 9,
        0 <= k < 9,
    ensures
        box_cells(board, unit)[k] == board[9 * unit + k],
        box_of(9 * unit + k) == unit,
        9 * unit + k == cell_at(3 * (unit / 3) + k / 3, 3 * (unit % 3) + k % 3),
        row_cells(board, unit)[k] == board[cell_at(unit, k)],
        row_of(cell_at(unit, k)) == unit,
        col_cells(board, unit)[k] == board[cell_at(k, unit)],
        col_of(cell_at(k, unit)) == unit,
        0 <= cell_at(unit, k) < 81,
        0 <= cell_at(k, unit) < 81,
{
    lemma_position_round_trip(unit, k);
    lemma_position_round_trip(k, unit);
    lemma_position_round_trip(3 * (unit / 3) + k / 3, 3 * (unit % 3) + k % 3);
    lemma_unit_starts(unit / 3, k / 3);
    lemma_unit_starts(unit % 3, k % 3);
}

} // verus!
