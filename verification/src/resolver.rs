//! Resolver: writes into a copy of the board the digits that the candidate
//! masks force, and completes a box that lacks a single digit.

use vstd::prelude::*;
use vstd::slice::slice_to_vec;
use crate::board::{
    blank_count, count_blank, filled_count, first_blank, lemma_filled_grows,
    lemma_filled_monotone, lemma_occurrences_bound, lemma_occurs_iff_contains, occurrences,
};
use crate::candidates::{
    bit_of_digit, board_masks, cell_mask, digit_bit, excluded, is_candidate, lemma_cell_mask,
    lemma_digits_only, lemma_excluded_iff_peer, lemma_mask_determined, mask_has, pencil_in,
    FULL_MASK,
};
use crate::mapper::{shares_unit, BOARD_CELLS, UNIT_CELLS};
use crate::units::{box_cells, get_board_box};
use crate::validation::{board_valid, clash, lemma_board_valid_iff_no_clash, unit_valid};

verus! {

/// What the board and the marks together say about one cell.
#[derive(Clone, Copy, Debug, PartialEq, Eq, Structural)]
pub enum CellState {
    /// The cell holds a digit; its mask is not looked at.
    AlreadyFilled,
    /// The cell is blank and no digit is left for it.
    NoCandidates,
    /// The cell is blank and the mask holds its candidate digits.
    Candidates(u16),
}

/// A blank cell for which no candidate is left: the board cannot be solved.
#[derive(Clone, Copy, Debug, PartialEq, Eq, Structural)]
pub struct Contradiction {
    /// Index of the cell.
    pub cell: u8,
}

/// The state of a cell with the given value and mask.
pub open spec fn cell_state_of(value: u8, mask: u16) -> CellState {
    if value != 0 {
        CellState::AlreadyFilled
    } else if mask == 0 {
        CellState::NoCandidates
    } else {
        CellState::Candidates(mask)
    }
}

/// The digit that a mask forces: the one digit it holds if it holds exactly
/// one, else 0.
pub open spec fn forced_value(mask: u16) -> u8 {
    if mask == digit_bit(1) {
        1
    } else if mask == digit_bit(2) {
        2
    } else if mask == digit_bit(3) {
        3
    } else if mask == digit_bit(4) {
        4
    } else if mask == digit_bit(5) {
        5
    } else if mask == digit_bit(6) {
        6
    } else if mask == digit_bit(7) {
        7
    } else if mask == digit_bit(8) {
        8
    } else if mask == digit_bit(9) {
        9
    } else {
        0
    }
}

/// The value of a cell after the forced digits are written: a filled cell
/// keeps its digit, a blank cell takes the digit its mask forces, if any.
pub open spec fn resolved_value(value: u8, mask: u16) -> u8 {
    if value != 0 {
        value
    } else {
        forced_value(mask)
    }
}

/// Whether the cell is blank with an empty mask.
pub open spec fn contradiction_at(board: Seq<u8>, masks: Seq<u16>, cell: int) -> bool {
    board[cell] == 0 && masks[cell] == 0
}

/// The board after one pass of writing forced digits.
pub open spec fn resolved_board(board: Seq<u8>, masks: Seq<u16>) -> Seq<u8> {
    Seq::new(81, |cell: int| resolved_value(board[cell], masks[cell]))
}

/// The sum of the values of the cells.
pub open spec fn unit_sum(cells: Seq<u8>) -> int
    decreases cells.len(),
{
    if cells.len() == 0 {
        0
    } else {
        unit_sum(cells.drop_last()) + cells.last()
    }
}

/// The unit with each blank replaced by the complement of its sum to 45.
pub open spec fn completed_unit(cells: Seq<u8>) -> Seq<u8> {
    Seq::new(
        cells.len(),
        |k: int|
            if cells[k] == 0 {
                (45 - unit_sum(cells)) as u8
            } else {
                cells[k]
            },
    )
}

/// Tells a filled cell from a blank one without candidates and from a blank
/// one with candidates.
pub fn cell_state(value: u8, mask: u16) -> (state: CellState)
    ensures
        state == cell_state_of(value, mask),
{
    if value != 0 {
        CellState::AlreadyFilled
    } else if mask == 0 {
        CellState::NoCandidates
    } else {
        CellState::Candidates(mask)
    }
}

/// The digit of a mask that holds exactly one digit.
pub fn forced_digit(mask: u16) -> (digit: Option<u8>)
    ensures
        digit == if forced_value(mask) != 0 {
            Some(forced_value(mask))
        } else {
            None
        },
{
    for d in 1..10u8
        invariant
            forall|e: u8| 1 <= e < d ==> mask != #[trigger] digit_bit(e),
    {
        if mask == bit_of_digit(d) {
            return Some(d);
        }
    }
    None
}

/// Writes every forced digit into a copy of the board. A blank cell whose
/// mask holds exactly one digit takes that digit; every other cell is kept.
/// Fails on the first blank cell whose mask is empty.
pub fn write_in(board: &[u8], masks: &[u16]) -> (result: Result<Vec<u8>, Contradiction>)
    requires
        board@.len() == BOARD_CELLS,
        masks@.len() == BOARD_CELLS,
    ensures
        match result {
            Ok(next) => {
                &&& forall|cell: int| 0 <= cell < 81 ==> !contradiction_at(board@, masks@, cell)
                &&& next@ == resolved_board(board@, masks@)
                &&& forall|cell: int|
                    0 <= cell < 81 && board@[cell] != 0 ==> next@[cell] == board@[cell]
                &&& filled_count(board@) <= filled_count(next@)
                &&& next@ != board@ ==> filled_count(board@) < filled_count(next@)
            },
            Err(stuck) => {
                &&& stuck.cell < 81
                &&& contradiction_at(board@, masks@, stuck.cell as int)
                &&& forall|cell: int|
                    0 <= cell < stuck.cell ==> !contradiction_at(board@, masks@, cell)
            },
        },
{
    let mut next = slice_to_vec(board);
    for cell in 0..81u8
        invariant
            board@.len() == BOARD_CELLS,
            masks@.len() == BOARD_CELLS,
            next@.len() == BOARD_CELLS,
            forall|k: int| 0 <= k < cell ==> !contradiction_at(board@, masks@, k),
            forall|k: int|
                0 <= k < cell ==> next@[k] == resolved_value(board@[k], masks@[k]),
            forall|k: int| cell <= k < 81 ==> next@[k] == board@[k],
    {
        let idx = cell as usize;
        match cell_state(board[idx], masks[idx]) {
            CellState::AlreadyFilled => {},
            CellState::NoCandidates => {
                return Err(Contradiction { cell });
            },
            CellState::Candidates(mask) => {
                if let Some(digit) = forced_digit(mask) {
                    next[idx] = digit;
                }
            },
        }
    }
    proof {
        lemma_pass_progress(board@, masks@);
    }
    Ok(next)
}

/// One pass of deduction: computes the candidate masks of the board and
/// writes the digits they force into a copy of it.
pub fn solve_pass(board: &[u8]) -> (result: Result<Vec<u8>, Contradiction>)
    requires
        board@.len() == BOARD_CELLS,
    ensures
        match result {
            Ok(next) => {
                &&& forall|cell: int|
                    0 <= cell < 81 ==> !contradiction_at(board@, board_masks(board@), cell)
                &&& next@ == resolved_board(board@, board_masks(board@))
                &&& forall|cell: int|
                    0 <= cell < 81 && board@[cell] != 0 ==> next@[cell] == board@[cell]
                &&& filled_count(board@) <= filled_count(next@)
                &&& next@ != board@ ==> filled_count(board@) < filled_count(next@)
            },
            Err(stuck) => {
                &&& stuck.cell < 81
                &&& contradiction_at(board@, board_masks(board@), stuck.cell as int)
                &&& forall|cell: int|
                    0 <= cell < stuck.cell
                        ==> !contradiction_at(board@, board_masks(board@), cell)
            },
        },
{
    let masks = pencil_in(board);
    write_in(board, masks.as_slice())
}

/// Completes a box that has exactly one blank cell: the blank takes the
/// complement to 45 of the sum of the other eight cells. Returns the nine
/// cells of the completed box, or `None` when the box has no blank cell or
/// more than one. The complement must exist: a box with one blank cell may
/// not sum to more than 45.
pub fn last_free_cell(board: &[u8], box_id: u8) -> (completed: Option<Vec<u8>>)
    requires
        board@.len() == BOARD_CELLS,
        box_id < 9,
        blank_count(box_cells(board@, box_id as int)) == 1
            ==> unit_sum(box_cells(board@, box_id as int)) <= 45,
    ensures
        completed is Some <==> blank_count(box_cells(board@, box_id as int)) == 1,
        completed matches Some(cells) ==> ({
            let before = box_cells(board@, box_id as int);
            &&& cells@ == completed_unit(before)
            &&& forall|k: int| 0 <= k < 9 && before[k] != 0 ==> cells@[k] == before[k]
            &&& filled_count(before) <= filled_count(cells@)
        }),
{
    let box_to_check = get_board_box(board, box_id);
    let zeros = count_blank(box_to_check.as_slice());
    if zeros == 1 {
        let missing_val: u8 = (45 - unit_total(box_to_check.as_slice())) as u8;
        let idx = first_blank(box_to_check.as_slice()).unwrap();
        let mut new_box = box_to_check.clone();
        new_box[idx] = missing_val;
        proof {
            lemma_single_blank(box_to_check@, idx as int);
            assert(new_box@ =~= completed_unit(box_to_check@));
            lemma_filled_monotone(box_to_check@, new_box@);
        }
        return Some(new_box);
    }
    None
}

/// Adds up the values of the nine cells of a unit.
pub fn unit_total(cells: &[u8]) -> (total: u16)
    requires
        cells@.len() == UNIT_CELLS,
    ensures
        total == unit_sum(cells@),
{
    let mut total: u16 = 0;
    for k in 0..9usize
        invariant
            cells@.len() == UNIT_CELLS,
            total == unit_sum(cells@.take(k as int)),
            total <= 255 * k,
    {
        assert(cells@.take(k + 1).drop_last() == cells@.take(k as int));
        total += cells[k] as u16;
    }
    assert(cells@.take(9) == cells@);
    total
}

/// One pass keeps every filled cell and loses none; a pass that changes the
/// board fills at least one more cell, so at most 81 passes change a board.
pub proof fn lemma_pass_progress(board: Seq<u8>, masks: Seq<u16>)
    requires
        board.len() == 81,
        masks.len() == 81,
    ensures
        forall|cell: int|
            0 <= cell < 81 && board[cell] != 0 ==> resolved_board(board, masks)[cell]
                == board[cell],
        filled_count(board) <= filled_count(resolved_board(board, masks)) <= 81,
        resolved_board(board, masks) != board ==> filled_count(board) < filled_count(
            resolved_board(board, masks),
        ),
{
    let next = resolved_board(board, masks);
    lemma_filled_monotone(board, next);
    lemma_occurrences_bound(next, 0);
    if next != board {
        if forall|cell: int| 0 <= cell < 81 ==> next[cell] == board[cell] {
            assert(next =~= board);
        }
        let cell = choose|cell: int| 0 <= cell < 81 && next[cell] != board[cell];
        lemma_filled_grows(board, next, cell);
    }
}

/// When a unit has one blank cell, every other cell is filled.
pub proof fn lemma_single_blank(cells: Seq<u8>, idx: int)
    requires
        blank_count(cells) == 1,
        0 <= idx < cells.len(),
        cells[idx] == 0,
    ensures
        forall|k: int| 0 <= k < cells.len() && k != idx ==> cells[k] != 0,
    decreases cells.len(),
{
    let front = cells.drop_last();
    if idx == cells.len() - 1 {
        assert(blank_count(front) == 0);
        assert forall|k: int| 0 <= k < cells.len() && k != idx implies cells[k] != 0 by {
            if cells[k] == 0 {
                assert(front[k] == 0);
                lemma_occurs_iff_contains(front, 0);
            }
        }
    } else {
        assert(front[idx] == 0);
        lemma_occurs_iff_contains(front, 0);
        assert(blank_count(front) == 1);
        lemma_single_blank(front, idx);
        assert forall|k: int| 0 <= k < cells.len() && k != idx implies cells[k] != 0 by {
            if k < cells.len() - 1 {
                assert(front[k] == cells[k]);
            }
        }
    }
}

/// A mask forces a digit exactly when it holds that digit and no other, and
/// has no bit beyond the nine digits.
pub proof fn lemma_forced_iff_single(mask: u16, digit: u8)
    requires
        1 <= digit <= 9,
    ensures
        forced_value(mask) <= 9,
        forced_value(mask) == digit <==> mask == digit_bit(digit),
        forced_value(mask) == digit <==> mask <= FULL_MASK && forall|e: u8|
            1 <= e <= 9 ==> (#[trigger] mask_has(mask, e) <==> e == digit),
{
    lemma_single_bit((digit - 1) as u16, 0);
    assert forall|e: u8| 1 <= e <= 9 implies (#[trigger] mask_has(digit_bit(digit), e)
        <==> e == digit) by {
        lemma_single_bit((digit - 1) as u16, (e - 1) as u16);
    }
    assert forall|d: u8| 1 <= d <= 9 && d != digit implies #[trigger] digit_bit(d)
        != digit_bit(digit) by {
        lemma_single_bit((d - 1) as u16, (d - 1) as u16);
        assert(mask_has(digit_bit(d), d));
        assert(!mask_has(digit_bit(digit), d));
    }
    if mask <= FULL_MASK && forall|e: u8|
        1 <= e <= 9 ==> (#[trigger] mask_has(mask, e) <==> e == digit) {
        lemma_mask_determined(mask, digit_bit(digit));
    }
}

/// The bit of a digit lies within the full mask and meets the bit of no
/// other digit.
proof fn lemma_single_bit(shift: u16, other: u16)
    by (bit_vector)
    requires
        shift < 9,
        other < 9,
    ensures
        1u16 << shift <= 0x1FF,
        ((1u16 << shift) & (1u16 << other) != 0) == (other == shift),
{
}

/// A blank cell whose box, row and column hold every digit but one has that
/// digit as its only candidate, and one pass writes it.
pub proof fn lemma_naked_single(board: Seq<u8>, cell: int, digit: u8)
    requires
        board.len() == 81,
        0 <= cell < 81,
        board[cell] == 0,
        1 <= digit <= 9,
        forall|e: u8| 1 <= e <= 9 ==> (#[trigger] excluded(board, cell, e) <==> e != digit),
    ensures
        cell_mask(board, cell) == digit_bit(digit),
        resolved_board(board, board_masks(board))[cell] == digit,
{
    lemma_cell_mask(board, cell);
    assert forall|e: u8| 1 <= e <= 9 implies (#[trigger] mask_has(cell_mask(board, cell), e)
        <==> e == digit) by {
        assert(is_candidate(board, cell, e) <==> !excluded(board, cell, e));
    }
    lemma_forced_iff_single(cell_mask(board, cell), digit);
}

/// A digit that one pass writes into a blank cell is a candidate for the
/// cell, and the only one.
pub proof fn lemma_written_digit_fits(board: Seq<u8>, cell: int)
    requires
        board.len() == 81,
        0 <= cell < 81,
        board[cell] == 0,
        resolved_board(board, board_masks(board))[cell] != 0,
    ensures
        forall|d: u8|
            is_candidate(board, cell, d) <==> d == resolved_board(board, board_masks(board))[cell],
{
    let mask = cell_mask(board, cell);
    let written = forced_value(mask);
    lemma_cell_mask(board, cell);
    lemma_forced_iff_single(mask, 1);
    lemma_forced_iff_single(mask, written);
    assert forall|d: u8| is_candidate(board, cell, d) <==> d == written by {
        assert(mask_has(mask, d) <==> is_candidate(board, cell, d));
    }
}

/// One pass stops at a cell exactly when the cell is blank and each digit
/// from 1 to 9 stands in its box, its row or its column.
pub proof fn lemma_stuck_cell(board: Seq<u8>, cell: int)
    requires
        board.len() == 81,
        0 <= cell < 81,
    ensures
        contradiction_at(board, board_masks(board), cell) <==> board[cell] == 0 && forall|d: u8|
            1 <= d <= 9 ==> excluded(board, cell, d),
{
    let mask = cell_mask(board, cell);
    lemma_cell_mask(board, cell);
    if board[cell] == 0 {
        if mask == 0 {
            assert forall|d: u8| 1 <= d <= 9 implies excluded(board, cell, d) by {
                lemma_digits_only(mask, d);
            }
        }
        if forall|d: u8| 1 <= d <= 9 ==> excluded(board, cell, d) {
            assert forall|d: u8| 1 <= d <= 9 implies (#[trigger] mask_has(mask, d)
                <==> mask_has(0, d)) by {
                lemma_digits_only(mask, d);
                assert(!is_candidate(board, cell, d));
            }
            lemma_mask_determined(mask, 0);
        }
    }
}

/// Writing a candidate into its cell keeps a valid board valid.
pub proof fn lemma_candidate_keeps_valid(board: Seq<u8>, cell: int, digit: u8)
    requires
        board.len() == 81,
        0 <= cell < 81,
        board_valid(board),
        is_candidate(board, cell, digit),
    ensures
        board_valid(board.update(cell, digit)),
{
    let next = board.update(cell, digit);
    lemma_board_valid_iff_no_clash(board);
    lemma_board_valid_iff_no_clash(next);
    lemma_excluded_iff_peer(board, cell, digit);
    assert forall|a: int, b: int| !clash(next, a, b) by {
        if clash(next, a, b) {
            if a != cell && b != cell {
                assert(clash(board, a, b));
            } else if a == cell {
                assert(0 <= b < 81 && shares_unit(cell, b) && board[b] == digit);
            } else {
                assert(0 <= a < 81 && shares_unit(cell, a) && board[a] == digit);
            }
        }
    }
}

/// The value sum of a unit, digit by digit, and its length, value by value.
proof fn lemma_sum_by_digit(cells: Seq<u8>)
    requires
        forall|k: int| 0 <= k < cells.len() ==> cells[k] <= 9,
    ensures
        unit_sum(cells) == occurrences(cells, 1) + 2 * occurrences(cells, 2)
            + 3 * occurrences(cells, 3) + 4 * occurrences(cells, 4)
            + 5 * occurrences(cells, 5) + 6 * occurrences(cells, 6)
            + 7 * occurrences(cells, 7) + 8 * occurrences(cells, 8)
            + 9 * occurrences(cells, 9),
        cells.len() == occurrences(cells, 0) + occurrences(cells, 1) + occurrences(cells, 2)
            + occurrences(cells, 3) + occurrences(cells, 4) + occurrences(cells, 5)
            + occurrences(cells, 6) + occurrences(cells, 7) + occurrences(cells, 8)
            + occurrences(cells, 9),
    decreases cells.len(),
{
    if cells.len() > 0 {
        let front = cells.drop_last();
        assert forall|k: int| 0 <= k < front.len() implies front[k] <= 9 by {
            assert(front[k] == cells[k]);
        }
        lemma_sum_by_digit(front);
        assert(cells.last() == cells[cells.len() - 1]);
    }
}

/// In a valid unit no digit stands twice.
pub proof fn lemma_valid_occurs_once(cells: Seq<u8>, digit: u8)
    requires
        unit_valid(cells),
        digit != 0,
    ensures
        occurrences(cells, digit) <= 1,
    decreases cells.len(),
{
    if cells.len() > 0 {
        let front = cells.drop_last();
        assert forall|i: int, j: int|
            0 <= i < j < front.len() && front[i] != 0 implies front[i] != front[j] by {
            assert(front[i] == cells[i] && front[j] == cells[j]);
        }
        lemma_valid_occurs_once(front, digit);
        if cells.last() == digit && occurrences(front, digit) >= 1 {
            lemma_occurs_iff_contains(front, digit);
            let i = choose|i: int| 0 <= i < front.len() && front[i] == digit;
            assert(cells[i] == digit && cells[cells.len() - 1] == digit);
        }
    }
}

/// In a valid unit of nine digits with one blank cell, the complement to 45
/// of the sum is the one digit that the unit lacks, and writing it into the
/// blank cell gives a valid unit that holds every digit from 1 to 9.
pub proof fn lemma_complement_completes(cells: Seq<u8>)
    requires
        cells.len() == 9,
        forall|k: int| 0 <= k < 9 ==> cells[k] <= 9,
        unit_valid(cells),
        blank_count(cells) == 1,
    ensures
        1 <= 45 - unit_sum(cells) <= 9,
        !cells.contains((45 - unit_sum(cells)) as u8),
        unit_valid(completed_unit(cells)),
        forall|d: u8| 1 <= d <= 9 ==> completed_unit(cells).contains(d),
{
    let missing = (45 - unit_sum(cells)) as u8;
    let done = completed_unit(cells);
    lemma_sum_by_digit(cells);
    lemma_valid_occurs_once(cells, 1);
    lemma_valid_occurs_once(cells, 2);
    lemma_valid_occurs_once(cells, 3);
    lemma_valid_occurs_once(cells, 4);
    lemma_valid_occurs_once(cells, 5);
    lemma_valid_occurs_once(cells, 6);
    lemma_valid_occurs_once(cells, 7);
    lemma_valid_occurs_once(cells, 8);
    lemma_valid_occurs_once(cells, 9);
    assert(1 <= 45 - unit_sum(cells) <= 9);
    assert(occurrences(cells, missing) == 0);
    assert forall|d: u8| 1 <= d <= 9 && d != missing implies occurrences(cells, d) == 1 by {}
    lemma_occurs_iff_contains(cells, missing);
    lemma_occurs_iff_contains(cells, 0);
    let idx = choose|i: int| 0 <= i < cells.len() && cells[i] == 0;
    lemma_single_blank(cells, idx);
    assert(done[idx] == missing);
    assert forall|i: int, j: int|
        0 <= i < j < done.len() && done[i] != 0 implies done[i] != done[j] by {
        if i != idx && j != idx {
            assert(cells[i] != 0 && cells[i] != cells[j]);
        } else if i == idx {
            assert(cells[j] != missing);
        } else {
            assert(cells[i] != missing);
        }
    }
    assert forall|d: u8| 1 <= d <= 9 implies done.contains(d) by {
        if d == missing {
            assert(done[idx] == d);
        } else {
            lemma_occurs_iff_contains(cells, d);
            let k = choose|k: int| 0 <= k < cells.len() && cells[k] == d;
            assert(done[k] == d);
        }
    }
}

} // verus!
