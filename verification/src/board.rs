//! The board as a value: 81 cells in box-major order, each blank (0) or a
//! digit from 1 to 9.

use vstd::prelude::*;
use crate::mapper::BOARD_CELLS;

verus! {

/// A well-formed board has 81 cells and no value above 9.
pub open spec fn well_formed(board: Seq<u8>) -> bool {
    &&& board.len() == 81
    &&& forall|cell: int| 0 <= cell < 81 ==> board[cell] <= 9
}

/// How often a value stands in a sequence of cells.
pub open spec fn occurrences(cells: Seq<u8>, value: u8) -> nat
    decreases cells.len(),
{
    if cells.len() == 0 {
        0
    } else {
        occurrences(cells.drop_last(), value) + if cells.last() == value {
            1nat
        } else {
            0nat
        }
    }
}

/// The number of blank cells.
pub open spec fn blank_count(cells: Seq<u8>) -> nat {
    occurrences(cells, 0)
}

/// The number of filled cells.
pub open spec fn filled_count(cells: Seq<u8>) -> nat {
    (cells.len() - blank_count(cells)) as nat
}

/// Tells whether the cells form a well-formed board.
pub fn is_well_formed(board: &[u8]) -> (ok: bool)
    ensures
        ok == well_formed(board@),
{
    if board.len() != BOARD_CELLS {
        return false;
    }
    for cell in 0..BOARD_CELLS
        invariant
            board@.len() == 81,
            forall|k: int| 0 <= k < cell ==> board@[k] <= 9,
    {
        if board[cell] > 9 {
            return false;
        }
    }
    true
}

/// Counts the blank cells.
pub fn count_blank(cells: &[u8]) -> (blank: usize)
    ensures
        blank == blank_count(cells@),
        blank <= cells@.len(),
{
    let mut blank: usize = 0;
    for idx in 0..cells.len()
        invariant
            blank == blank_count(cells@.take(idx as int)),
            blank <= idx,
    {
        proof {
            lemma_count_step(cells@, idx as int);
        }
        if cells[idx] == 0 {
            blank += 1;
        }
    }
    assert(cells@.take(cells@.len() as int) == cells@);
    blank
}

/// Counts the filled cells.
pub fn count_filled(cells: &[u8]) -> (filled: usize)
    ensures
        filled == filled_count(cells@),
{
    cells.len() - count_blank(cells)
}

/// Finds the first blank cell.
pub fn first_blank(cells: &[u8]) -> (found: Option<usize>)
    ensures
        match found {
            Some(idx) => {
                &&& idx < cells@.len()
                &&& cells@[idx as int] == 0
                &&& forall|k: int| 0 <= k < idx ==> cells@[k] != 0
            },
            None => forall|k: int| 0 <= k < cells@.len() ==> cells@[k] != 0,
        },
        found is Some <==> blank_count(cells@) > 0,
{
    proof {
        lemma_occurs_iff_contains(cells@, 0);
    }
    for idx in 0..cells.len()
        invariant
            forall|k: int| 0 <= k < idx ==> cells@[k] != 0,
            blank_count(cells@) > 0 <==> cells@.contains(0),
    {
        if cells[idx] == 0 {
            assert(cells@[idx as int] == 0);
            return Some(idx);
        }
    }
    None
}

/// Counting one cell further adds the cell if it holds the value.
pub proof fn lemma_count_step(cells: Seq<u8>, idx: int)
    requires
        0 <= idx < cells.len(),
    ensures
        forall|value: u8| #[trigger]
            occurrences(cells.take(idx + 1), value) == occurrences(cells.take(idx), value)
                + if cells[idx] == value {
                1nat
            } else {
                0nat
            },
        filled_count(cells.take(idx + 1)) == filled_count(cells.take(idx)) + if cells[idx]
            != 0 {
            1nat
        } else {
            0nat
        },
{
    assert(cells.take(idx + 1).drop_last() == cells.take(idx));
    lemma_occurrences_bound(cells.take(idx), 0);
}

/// No value stands more often than there are cells.
pub proof fn lemma_occurrences_bound(cells: Seq<u8>, value: u8)
    ensures
        occurrences(cells, value) <= cells.len(),
    decreases cells.len(),
{
    if cells.len() > 0 {
        lemma_occurrences_bound(cells.drop_last(), value);
    }
}

/// A value occurs at least once exactly when it stands at some place.
pub proof fn lemma_occurs_iff_contains(cells: Seq<u8>, value: u8)
    ensures
        occurrences(cells, value) > 0 <==> cells.contains(value),
    decreases cells.len(),
{
    if cells.len() > 0 {
        let front = cells.drop_last();
        lemma_occurs_iff_contains(front, value);
        if cells.contains(value) {
            let i = choose|i: int| 0 <= i < cells.len() && cells[i] == value;
            if i < cells.len() - 1 {
                assert(front[i] == value);
            }
        }
        if front.contains(value) {
            let i = choose|i: int| 0 <= i < front.len() && front[i] == value;
            assert(cells[i] == value);
        }
        if cells.last() == value {
            assert(cells[cells.len() - 1] == value);
        }
    }
}

/// Filling cells never lowers the number of filled cells: if every cell that
/// is filled before is filled after, at least as many cells are filled after.
pub proof fn lemma_filled_monotone(before: Seq<u8>, after: Seq<u8>)
    requires
        before.len() == after.len(),
        forall|i: int| 0 <= i < before.len() && before[i] != 0 ==> after[i] != 0,
    ensures
        filled_count(before) <= filled_count(after),
        blank_count(after) <= blank_count(before),
    decreases before.len(),
{
    if before.len() > 0 {
        lemma_filled_monotone(before.drop_last(), after.drop_last());
    }
    lemma_occurrences_bound(before, 0);
    lemma_occurrences_bound(after, 0);
}

/// Filling a blank cell raises the number of filled cells: if moreover no
/// filled cell is blanked, more cells are filled after than before.
pub proof fn lemma_filled_grows(before: Seq<u8>, after: Seq<u8>, cell: int)
    requires
        before.len() == after.len(),
        forall|i: int| 0 <= i < before.len() && before[i] != 0 ==> after[i] != 0,
        0 <= cell < before.len(),
        before[cell] == 0,
        after[cell] != 0,
    ensures
        filled_count(before) < filled_count(after),
    decreases before.len(),
{
    let front_before = before.drop_last();
    let front_after = after.drop_last();
    lemma_occurrences_bound(front_before, 0);
    lemma_occurrences_bound(front_after, 0);
    assert(before.last() == before[before.len() - 1]);
    assert(after.last() == after[after.len() - 1]);
    if cell == before.len() - 1 {
        lemma_filled_monotone(front_before, front_after);
    } else {
        assert(front_before[cell] == before[cell] && front_after[cell] == after[cell]);
        lemma_filled_grows(front_before, front_after, cell);
    }
}

} // verus!
