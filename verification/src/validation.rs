//! Rule validation: no box, row or column may hold a digit twice. Blank cells
//! (value 0) are ignored.

use std::collections::HashSet;
use vstd::prelude::*;
use vstd::std_specs::hash::group_hash_axioms;
use crate::mapper::{
    box_of, cell_at, col_of, lemma_cell_round_trip, lemma_position_round_trip, row_of,
    shares_unit, BOARD_CELLS,
};
use crate::units::{
    box_cells, col_cells, get_board_box, get_board_col, get_board_row, lemma_cell_in_its_units,
    lemma_unit_place, row_cells,
};

verus! {

/// A unit is valid when no non-zero value stands at two of its places.
pub open spec fn unit_valid(cells: Seq<u8>) -> bool {
    forall|i: int, j: int|
        0 <= i < j < cells.len() && cells[i] != 0 ==> cells[i] != cells[j]
}

/// A board is valid when each of its nine boxes, rows and columns is.
pub open spec fn board_valid(board: Seq<u8>) -> bool {
    forall|unit: int|
        #![trigger box_cells(board, unit)]
        #![trigger row_cells(board, unit)]
        #![trigger col_cells(board, unit)]
        0 <= unit < 9 ==> {
            &&& unit_valid(box_cells(board, unit))
            &&& unit_valid(row_cells(board, unit))
            &&& unit_valid(col_cells(board, unit))
        }
}

/// Two distinct cells of a common unit hold the same non-zero digit.
pub open spec fn clash(board: Seq<u8>, a: int, b: int) -> bool {
    &&& 0 <= a < 81
    &&& 0 <= b < 81
    &&& a != b
    &&& shares_unit(a, b)
    &&& board[a] != 0
    &&& board[a] == board[b]
}

/// Checks the values of one unit: false iff a non-zero value occurs twice.
pub fn unit_validation(cells: &[u8]) -> (valid: bool)
    ensures
        valid == unit_valid(cells@),
{
    broadcast use group_hash_axioms;

    let mut tracker: HashSet<u8> = HashSet::new();
    for idx in 0..cells.len()
        invariant
            forall|v: u8|
                tracker@.contains(v) <==> v != 0 && exists|k: int|
                    0 <= k < idx && cells@[k] == v,
            forall|i: int, j: int| 0 <= i < j < idx && cells@[i] != 0 ==> cells@[i] != cells@[j],
    {
        let cell = cells[idx];
        if cell != 0 && !tracker.insert(cell) {
            proof {
                let k = choose|k: int| 0 <= k < idx && cells@[k] == cell;
                assert(cells@[k] != 0 && cells@[k] == cells@[idx as int]);
            }
            return false;
        }
    }
    true
}

/// Checks one box of the board.
pub fn box_validation(board: &[u8], box_id: u8) -> (valid: bool)
    requires
        board@.len() == BOARD_CELLS,
        box_id < 9,
    ensures
        valid == unit_valid(box_cells(board@, box_id as int)),
{
    let box_to_check = get_board_box(board, box_id);
    unit_validation(box_to_check.as_slice())
}

/// Checks one row of the board.
pub fn row_validation(board: &[u8], row_id: u8) -> (valid: bool)
    requires
        board@.len() == BOARD_CELLS,
        row_id < 9,
    ensures
        valid == unit_valid(row_cells(board@, row_id as int)),
{
    let row_to_check = get_board_row(board, row_id);
    unit_validation(row_to_check.as_slice())
}

/// Checks one column of the board.
pub fn col_validation(board: &[u8], col_id: u8) -> (valid: bool)
    requires
        board@.len() == BOARD_CELLS,
        col_id < 9,
    ensures
        valid == unit_valid(col_cells(board@, col_id as int)),
{
    let col_to_check = get_board_col(board, col_id);
    unit_validation(col_to_check.as_slice())
}

/// Checks the whole board: every box, then every row, then every column,
/// stopping at the first unit that fails.
pub fn board_validation(board: &[u8]) -> (valid: bool)
    requires
        board@.len() == BOARD_CELLS,
    ensures
        valid == board_valid(board@),
{
    for b in 0..9u8
        invariant
            board@.len() == BOARD_CELLS,
            forall|unit: int| 0 <= unit < b ==> unit_valid(#[trigger] box_cells(board@, unit)),
    {
        if !box_validation(board, b) {
            return false;
        }
    }
    for r in 0..9u8
        invariant
            board@.len() == BOARD_CELLS,
            forall|unit: int| 0 <= unit < 9 ==> unit_valid(#[trigger] box_cells(board@, unit)),
            forall|unit: int| 0 <= unit < r ==> unit_valid(#[trigger] row_cells(board@, unit)),
    {
        if !row_validation(board, r) {
            return false;
        }
    }
    for c in 0..9u8
        invariant
            board@.len() == BOARD_CELLS,
            forall|unit: int| 0 <= unit < 9 ==> unit_valid(#[trigger] box_cells(board@, unit)),
            forall|unit: int| 0 <= unit < 9 ==> unit_valid(#[trigger] row_cells(board@, unit)),
            forall|unit: int| 0 <= unit < c ==> unit_valid(#[trigger] col_cells(board@, unit)),
    {
        if !col_validation(board, c) {
            return false;
        }
    }
    true
}

/// A board without any digit is valid.
pub proof fn lemma_blank_board_valid(board: Seq<u8>)
    requires
        board.len() == 81,
        forall|i: int| 0 <= i < 81 ==> board[i] == 0,
    ensures
        board_valid(board),
{
    assert forall|unit: int| 0 <= unit < 9 implies {
        &&& unit_valid(#[trigger] box_cells(board, unit))
        &&& unit_valid(row_cells(board, unit))
        &&& unit_valid(col_cells(board, unit))
    } by {
        assert forall|k: int| 0 <= k < 9 implies {
            &&& box_cells(board, unit)[k] == 0
            &&& row_cells(board, unit)[k] == 0
            &&& col_cells(board, unit)[k] == 0
        } by {
            lemma_unit_place(board, unit, k);
        }
    }
}

/// A board is valid exactly when no two distinct cells of a common box, row
/// or column hold the same non-zero digit.
pub proof fn lemma_board_valid_iff_no_clash(board: Seq<u8>)
    requires
        board.len() == 81,
    ensures
        board_valid(board) <==> forall|a: int, b: int| !clash(board, a, b),
{
    if board_valid(board) {
        assert forall|a: int, b: int| !clash(board, a, b) by {
            if clash(board, a, b) {
                lemma_clash_breaks_unit(board, a, b);
            }
        }
    }
    if forall|a: int, b: int| !clash(board, a, b) {
        assert forall|unit: int| 0 <= unit < 9 implies {
            &&& unit_valid(#[trigger] box_cells(board, unit))
            &&& unit_valid(row_cells(board, unit))
            &&& unit_valid(col_cells(board, unit))
        } by {
            let in_box = box_cells(board, unit);
            let in_row = row_cells(board, unit);
            let in_col = col_cells(board, unit);
            assert forall|i: int, j: int| 0 <= i < j < 9 implies {
                &&& in_box[i] != 0 ==> in_box[i] != in_box[j]
                &&& in_row[i] != 0 ==> in_row[i] != in_row[j]
                &&& in_col[i] != 0 ==> in_col[i] != in_col[j]
            } by {
                lemma_unit_place(board, unit, i);
                lemma_unit_place(board, unit, j);
                lemma_position_round_trip(unit, i);
                lemma_position_round_trip(unit, j);
                lemma_position_round_trip(i, unit);
                lemma_position_round_trip(j, unit);
                assert(!clash(board, 9 * unit + i, 9 * unit + j));
                assert(!clash(board, cell_at(unit, i), cell_at(unit, j)));
                assert(!clash(board, cell_at(i, unit), cell_at(j, unit)));
            }
        }
    }
}

/// Two clashing cells make the unit they share invalid.
pub proof fn lemma_clash_breaks_unit(board: Seq<u8>, a: int, b: int)
    requires
        board.len() == 81,
        clash(board, a, b),
    ensures
        !board_valid(board),
        box_of(a) == box_of(b) ==> !unit_valid(box_cells(board, box_of(a))),
        row_of(a) == row_of(b) ==> !unit_valid(row_cells(board, row_of(a))),
        col_of(a) == col_of(b) ==> !unit_valid(col_cells(board, col_of(a))),
{
    lemma_cell_round_trip(a);
    lemma_cell_round_trip(b);
    lemma_cell_in_its_units(board, a);
    lemma_cell_in_its_units(board, b);
    if box_of(a) == box_of(b) {
        let cells = box_cells(board, box_of(a));
        lemma_twice_breaks_unit(cells, a % 9, b % 9);
    }
    if row_of(a) == row_of(b) {
        let cells = row_cells(board, row_of(a));
        lemma_twice_breaks_unit(cells, col_of(a), col_of(b));
    }
    if col_of(a) == col_of(b) {
        let cells = col_cells(board, col_of(a));
        lemma_twice_breaks_unit(cells, row_of(a), row_of(b));
    }
}

/// A non-zero value at two different places makes a unit invalid.
pub proof fn lemma_twice_breaks_unit(cells: Seq<u8>, i: int, j: int)
    requires
        0 <= i < cells.len(),
        0 <= j < cells.len(),
        i != j,
        cells[i] != 0,
        cells[i] == cells[j],
    ensures
        !unit_valid(cells),
{
    if i < j {
        assert(cells[i] != 0 && cells[i] == cells[j]);
    } else {
        assert(cells[j] != 0 && cells[j] == cells[i]);
    }
}

} // verus!
