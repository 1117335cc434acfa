//! Candidate engine: for every blank cell, the digits that its box, row and
//! column do not exclude, as a nine-bit mask. Bit `d - 1` stands for digit
//! `d`. A filled cell has the mask 0.

use vstd::prelude::*;
use crate::mapper::{
    box_of, cell_at, col_of, get_box_id, get_cell_col, get_cell_row, lemma_cell_round_trip,
    row_of, shares_unit, BOARD_CELLS,
};
use crate::units::{
    box_cells, col_cells, get_board_box, get_board_col, get_board_row, lemma_cell_in_its_units,
    lemma_unit_place, row_cells,
};

verus! {

/// The mask in which every digit from 1 to 9 is a candidate.
pub const FULL_MASK: u16 = 0x1FF;

/// The mask that holds the digit alone; 0 when `digit` is not one of 1 to 9.
pub open spec fn digit_bit(digit: u8) -> u16 {
    if 1 <= digit <= 9 {
        1u16 << ((digit - 1) as u16)
    } else {
        0
    }
}

/// Whether the mask holds the digit as a candidate.
pub open spec fn mask_has(mask: u16, digit: u8) -> bool {
    mask & digit_bit(digit) != 0
}

/// Whether the digit stands in the box, the row or the column of the cell.
pub open spec fn excluded(board: Seq<u8>, cell: int, digit: u8) -> bool {
    ||| box_cells(board, box_of(cell)).contains(digit)
    ||| row_cells(board, row_of(cell)).contains(digit)
    ||| col_cells(board, col_of(cell)).contains(digit)
}

/// Whether the digit may still be written into the cell: the cell is blank
/// and none of its three units holds the digit.
pub open spec fn is_candidate(board: Seq<u8>, cell: int, digit: u8) -> bool {
    &&& 1 <= digit <= 9
    &&& board[cell] == 0
    &&& !excluded(board, cell, digit)
}

/// The bit of the digit if it is a candidate for the cell, else 0.
pub open spec fn candidate_bit(board: Seq<u8>, cell: int, digit: u8) -> u16 {
    if is_candidate(board, cell, digit) {
        digit_bit(digit)
    } else {
        0
    }
}

/// The candidate mask of a cell: the bits of its candidate digits.
pub open spec fn cell_mask(board: Seq<u8>, cell: int) -> u16 {
    candidate_bit(board, cell, 1) | candidate_bit(board, cell, 2)
        | candidate_bit(board, cell, 3) | candidate_bit(board, cell, 4)
        | candidate_bit(board, cell, 5) | candidate_bit(board, cell, 6)
        | candidate_bit(board, cell, 7) | candidate_bit(board, cell, 8)
        | candidate_bit(board, cell, 9)
}

/// The candidate masks of all 81 cells, in board order.
pub open spec fn board_masks(board: Seq<u8>) -> Seq<u16> {
    Seq::new(81, |cell: int| cell_mask(board, cell))
}

/// Whether the masks are the marks of the board: one mask per cell, none
/// with a bit beyond the nine digits, each holding exactly the candidates
/// of its cell.
pub open spec fn are_marks(board: Seq<u8>, masks: Seq<u16>) -> bool {
    &&& masks.len() == 81
    &&& forall|cell: int| 0 <= cell < 81 ==> #[trigger] masks[cell] <= FULL_MASK
    &&& forall|cell: int, d: u8|
        0 <= cell < 81 && 1 <= d <= 9 ==> (#[trigger] mask_has(masks[cell], d)
            <==> is_candidate(board, cell, d))
}

/// The mask that holds one digit alone.
pub fn bit_of_digit(digit: u8) -> (bit: u16)
    requires
        1 <= digit <= 9,
    ensures
        bit == digit_bit(digit),
        bit != 0,
        bit <= FULL_MASK,
{
    let shift: u16 = (digit - 1) as u16;
    proof {
        lemma_bit_in_range(shift);
    }
    1u16 << shift
}

/// Clears from the mask the bit of every digit that stands in the unit.
fn strike_out(mask: u16, cells: &[u8]) -> (out: u16)
    requires
        mask <= FULL_MASK,
    ensures
        out <= FULL_MASK,
        forall|d: u8|
            1 <= d <= 9 ==> (#[trigger] mask_has(out, d) <==> mask_has(mask, d)
                && !cells@.contains(d)),
{
    let mut out = mask;
    for idx in 0..cells.len()
        invariant
            out <= FULL_MASK,
            forall|d: u8|
                1 <= d <= 9 ==> (#[trigger] mask_has(out, d) <==> mask_has(mask, d)
                    && !exists|k: int| 0 <= k < idx && cells@[k] == d),
    {
        let value = cells[idx];
        if 1 <= value && value <= 9 {
            let bit = bit_of_digit(value);
            let ghost before = out;
            out = out & !bit;
            proof {
                assert forall|d: u8| 1 <= d <= 9 implies (#[trigger] mask_has(out, d)
                    <==> mask_has(before, d) && d != value) by {
                    lemma_clear_bit(before, (value - 1) as u16, (d - 1) as u16);
                }
                lemma_clear_bit(before, (value - 1) as u16, 0);
            }
        }
    }
    out
}

/// The candidate mask of one cell: 0 when the cell is filled, else the full
/// mask less every digit found in the cell's box, row and column.
pub fn cell_candidates(board: &[u8], cell_id: u8) -> (mask: u16)
    requires
        board@.len() == BOARD_CELLS,
        cell_id < 81,
    ensures
        mask == cell_mask(board@, cell_id as int),
{
    proof {
        lemma_cell_mask(board@, cell_id as int);
    }
    if board[cell_id as usize] != 0 {
        return 0;
    }
    let in_box = get_board_box(board, get_box_id(cell_id));
    let in_row = get_board_row(board, get_cell_row(cell_id));
    let in_col = get_board_col(board, get_cell_col(cell_id));
    let mut mask = FULL_MASK;
    proof {
        assert forall|d: u8| 1 <= d <= 9 implies #[trigger] mask_has(mask, d) by {
            lemma_full_mask((d - 1) as u16);
        }
    }
    mask = strike_out(mask, in_box.as_slice());
    mask = strike_out(mask, in_row.as_slice());
    mask = strike_out(mask, in_col.as_slice());
    proof {
        lemma_mask_determined(mask, cell_mask(board@, cell_id as int));
    }
    mask
}

/// Computes the candidate mask of every cell, from the board alone.
pub fn pencil_in(board: &[u8]) -> (masks: Vec<u16>)
    requires
        board@.len() == BOARD_CELLS,
    ensures
        masks@ == board_masks(board@),
        are_marks(board@, masks@),
{
    proof {
        lemma_marks_determined(board@, board_masks(board@));
    }
    let mut masks: Vec<u16> = Vec::new();
    for cell in 0..81u8
        invariant
            board@.len() == BOARD_CELLS,
            masks@.len() == cell,
            forall|k: int| 0 <= k < cell ==> masks@[k] == cell_mask(board@, k),
    {
        masks.push(cell_candidates(board, cell));
    }
    masks
}

/// What a candidate mask says: it has no bit beyond the nine digits, it is 0
/// for a filled cell, and it holds a digit exactly when the digit is a
/// candidate for the cell.
pub proof fn lemma_cell_mask(board: Seq<u8>, cell: int)
    requires
        0 <= cell < board.len(),
    ensures
        cell_mask(board, cell) <= FULL_MASK,
        board[cell] != 0 ==> cell_mask(board, cell) == 0,
        forall|d: u8| #[trigger]
            mask_has(cell_mask(board, cell), d) <==> is_candidate(board, cell, d),
{
    let b1 = candidate_bit(board, cell, 1);
    let b2 = candidate_bit(board, cell, 2);
    let b3 = candidate_bit(board, cell, 3);
    let b4 = candidate_bit(board, cell, 4);
    let b5 = candidate_bit(board, cell, 5);
    let b6 = candidate_bit(board, cell, 6);
    let b7 = candidate_bit(board, cell, 7);
    let b8 = candidate_bit(board, cell, 8);
    let b9 = candidate_bit(board, cell, 9);
    assert forall|d: u8| 1 <= d <= 9 implies #[trigger] digit_bit(d) != 0 by {
        lemma_bit_in_range((d - 1) as u16);
    }
    assert forall|d: u8| #[trigger]
        mask_has(cell_mask(board, cell), d) <==> is_candidate(board, cell, d) by {
        if 1 <= d <= 9 {
            lemma_union_bits(b1, b2, b3, b4, b5, b6, b7, b8, b9, (d - 1) as u16);
        } else {
            lemma_digits_only(cell_mask(board, cell), d);
        }
    }
    lemma_union_bits(b1, b2, b3, b4, b5, b6, b7, b8, b9, 0);
}

/// The marks of a board are determined by the board: a sequence of masks
/// holds the candidates of every cell exactly when it is `board_masks`.
pub proof fn lemma_marks_determined(board: Seq<u8>, masks: Seq<u16>)
    requires
        board.len() == 81,
    ensures
        are_marks(board, masks) <==> masks == board_masks(board),
{
    assert forall|cell: int| 0 <= cell < 81 implies {
        &&& #[trigger] cell_mask(board, cell) <= FULL_MASK
        &&& forall|d: u8| #[trigger]
            mask_has(cell_mask(board, cell), d) <==> is_candidate(board, cell, d)
    } by {
        lemma_cell_mask(board, cell);
    }
    if are_marks(board, masks) {
        assert forall|cell: int| 0 <= cell < 81 implies masks[cell] == cell_mask(board, cell) by {
            lemma_mask_determined(masks[cell], cell_mask(board, cell));
        }
        assert(masks =~= board_masks(board));
    }
}

/// Marking the same board twice gives the same masks, bit for bit.
pub proof fn lemma_marks_unique(board: Seq<u8>, first: Seq<u16>, second: Seq<u16>)
    requires
        board.len() == 81,
        are_marks(board, first),
        are_marks(board, second),
    ensures
        first == second,
{
    lemma_marks_determined(board, first);
    lemma_marks_determined(board, second);
}

/// A digit is excluded for a cell exactly when some cell of its box, row or
/// column holds the digit.
pub proof fn lemma_excluded_iff_peer(board: Seq<u8>, cell: int, digit: u8)
    requires
        board.len() == 81,
        0 <= cell < 81,
    ensures
        excluded(board, cell, digit) <==> exists|peer: int|
            0 <= peer < 81 && shares_unit(cell, peer) && board[peer] == digit,
{
    lemma_cell_round_trip(cell);
    let in_box = box_cells(board, box_of(cell));
    let in_row = row_cells(board, row_of(cell));
    let in_col = col_cells(board, col_of(cell));
    if in_box.contains(digit) {
        let k = choose|k: int| 0 <= k < in_box.len() && in_box[k] == digit;
        lemma_unit_place(board, box_of(cell), k);
        let peer = 9 * box_of(cell) + k;
        assert(0 <= peer < 81 && shares_unit(cell, peer) && board[peer] == digit);
    }
    if in_row.contains(digit) {
        let k = choose|k: int| 0 <= k < in_row.len() && in_row[k] == digit;
        lemma_unit_place(board, row_of(cell), k);
        let peer = cell_at(row_of(cell), k);
        assert(0 <= peer < 81 && shares_unit(cell, peer) && board[peer] == digit);
    }
    if in_col.contains(digit) {
        let k = choose|k: int| 0 <= k < in_col.len() && in_col[k] == digit;
        lemma_unit_place(board, col_of(cell), k);
        let peer = cell_at(k, col_of(cell));
        assert(0 <= peer < 81 && shares_unit(cell, peer) && board[peer] == digit);
    }
    if exists|peer: int| 0 <= peer < 81 && shares_unit(cell, peer) && board[peer] == digit {
        let peer = choose|peer: int|
            0 <= peer < 81 && shares_unit(cell, peer) && board[peer] == digit;
        lemma_cell_round_trip(peer);
        lemma_cell_in_its_units(board, peer);
        if box_of(cell) == box_of(peer) {
            assert(in_box[peer % 9] == digit);
        } else if row_of(cell) == row_of(peer) {
            assert(in_row[col_of(peer)] == digit);
        } else {
            assert(in_col[row_of(peer)] == digit);
        }
    }
}

/// The bit of each digit, as a number: digit `d` has the value 2^(d-1).
pub proof fn lemma_digit_bits()
    ensures
        digit_bit(1) == 1,
        digit_bit(2) == 2,
        digit_bit(3) == 4,
        digit_bit(4) == 8,
        digit_bit(5) == 16,
        digit_bit(6) == 32,
        digit_bit(7) == 64,
        digit_bit(8) == 128,
        digit_bit(9) == 256,
        FULL_MASK == 1 + 2 + 4 + 8 + 16 + 32 + 64 + 128 + 256,
{
    assert(1u16 << 0u16 == 1 && 1u16 << 1u16 == 2 && 1u16 << 2u16 == 4) by (bit_vector);
    assert(1u16 << 3u16 == 8 && 1u16 << 4u16 == 16 && 1u16 << 5u16 == 32) by (bit_vector);
    assert(1u16 << 6u16 == 64 && 1u16 << 7u16 == 128 && 1u16 << 8u16 == 256) by (bit_vector);
}

/// The empty mask holds no digit, and no mask holds anything but the digits
/// from 1 to 9.
pub proof fn lemma_digits_only(mask: u16, digit: u8)
    ensures
        !mask_has(0, digit),
        mask_has(mask, digit) ==> 1 <= digit <= 9,
{
    lemma_no_bits(mask);
    lemma_no_bits(digit_bit(digit));
}

/// A mask is determined by the digits it holds: two masks without bits
/// beyond the nine digits that hold the same digits are equal.
pub proof fn lemma_mask_determined(m1: u16, m2: u16)
    requires
        m1 <= FULL_MASK,
        m2 <= FULL_MASK,
        forall|d: u8| 1 <= d <= 9 ==> (#[trigger] mask_has(m1, d) <==> mask_has(m2, d)),
    ensures
        m1 == m2,
{
    assert(mask_has(m1, 1) <==> mask_has(m2, 1));
    assert(mask_has(m1, 2) <==> mask_has(m2, 2));
    assert(mask_has(m1, 3) <==> mask_has(m2, 3));
    assert(mask_has(m1, 4) <==> mask_has(m2, 4));
    assert(mask_has(m1, 5) <==> mask_has(m2, 5));
    assert(mask_has(m1, 6) <==> mask_has(m2, 6));
    assert(mask_has(m1, 7) <==> mask_has(m2, 7));
    assert(mask_has(m1, 8) <==> mask_has(m2, 8));
    assert(mask_has(m1, 9) <==> mask_has(m2, 9));
    lemma_same_bits(m1, m2);
}

/// Two nine-bit masks that agree on each of their nine bits are equal.
proof fn lemma_same_bits(m1: u16, m2: u16)
    by (bit_vector)
    requires
        m1 <= 0x1FF,
        m2 <= 0x1FF,
        (m1 & (1u16 << 0u16) != 0) == (m2 & (1u16 << 0u16) != 0),
        (m1 & (1u16 << 1u16) != 0) == (m2 & (1u16 << 1u16) != 0),
        (m1 & (1u16 << 2u16) != 0) == (m2 & (1u16 << 2u16) != 0),
        (m1 & (1u16 << 3u16) != 0) == (m2 & (1u16 << 3u16) != 0),
        (m1 & (1u16 << 4u16) != 0) == (m2 & (1u16 << 4u16) != 0),
        (m1 & (1u16 << 5u16) != 0) == (m2 & (1u16 << 5u16) != 0),
        (m1 & (1u16 << 6u16) != 0) == (m2 & (1u16 << 6u16) != 0),
        (m1 & (1u16 << 7u16) != 0) == (m2 & (1u16 << 7u16) != 0),
        (m1 & (1u16 << 8u16) != 0) == (m2 & (1u16 << 8u16) != 0),
    ensures
        m1 == m2,
{
}

/// The union of nine masks, each empty or the bit of its own digit, holds
/// the bit of a digit exactly when that digit's mask is not empty.
proof fn lemma_union_bits(
    b1: u16,
    b2: u16,
    b3: u16,
    b4: u16,
    b5: u16,
    b6: u16,
    b7: u16,
    b8: u16,
    b9: u16,
    shift: u16,
)
    by (bit_vector)
    requires
        b1 == 0 || b1 == 1u16 << 0u16,
        b2 == 0 || b2 == 1u16 << 1u16,
        b3 == 0 || b3 == 1u16 << 2u16,
        b4 == 0 || b4 == 1u16 << 3u16,
        b5 == 0 || b5 == 1u16 << 4u16,
        b6 == 0 || b6 == 1u16 << 5u16,
        b7 == 0 || b7 == 1u16 << 6u16,
        b8 == 0 || b8 == 1u16 << 7u16,
        b9 == 0 || b9 == 1u16 << 8u16,
        shift < 9,
    ensures
        (b1 | b2 | b3 | b4 | b5 | b6 | b7 | b8 | b9) <= 0x1FF,
        ((b1 | b2 | b3 | b4 | b5 | b6 | b7 | b8 | b9) == 0) == (b1 == 0 && b2 == 0 && b3 == 0
            && b4 == 0 && b5 == 0 && b6 == 0 && b7 == 0 && b8 == 0 && b9 == 0),
        ((b1 | b2 | b3 | b4 | b5 | b6 | b7 | b8 | b9) & (1u16 << shift) != 0) == (
            (shift == 0 && b1 != 0) || (shift == 1 && b2 != 0) || (shift == 2 && b3 != 0)
            || (shift == 3 && b4 != 0) || (shift == 4 && b5 != 0) || (shift == 5 && b6 != 0)
            || (shift == 6 && b7 != 0) || (shift == 7 && b8 != 0) || (shift == 8 && b9 != 0)),
{
}

/// No mask meets the empty mask.
proof fn lemma_no_bits(mask: u16)
    by (bit_vector)
    ensures
        mask & 0 == 0,
        0 & mask == 0,
{
}

/// The full mask holds each of the nine bits.
proof fn lemma_full_mask(shift: u16)
    by (bit_vector)
    requires
        shift < 9,
    ensures
        0x1FFu16 & (1u16 << shift) != 0,
{
}

/// Clearing one bit removes that bit, keeps every other bit as it was, and
/// adds no bit beyond the nine.
proof fn lemma_clear_bit(mask: u16, shift: u16, other: u16)
    by (bit_vector)
    requires
        shift < 9,
        other < 9,
    ensures
        (mask & !(1u16 << shift)) & (1u16 << shift) == 0,
        other != shift ==> ((mask & !(1u16 << shift)) & (1u16 << other) != 0)
            == (mask & (1u16 << other) != 0),
        mask <= 0x1FF ==> (mask & !(1u16 << shift)) <= 0x1FF,
{
}

/// Each of the nine bits is a mask of its own, within the full mask.
proof fn lemma_bit_in_range(shift: u16)
    by (bit_vector)
    requires
        shift < 9,
    ensures
        1u16 << shift != 0,
        1u16 << shift <= 0x1FF,
{
}

} // verus!
