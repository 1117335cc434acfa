//! The board as text: reading digits out of a text, and drawing the board,
//! a row or a column as lines of text.

use vstd::prelude::*;
use vstd::string::{group_string_axioms, StringExecFns};
use crate::board::well_formed;
use crate::units::{col_cells, get_board_col, get_board_row, lemma_unit_place, row_cells};

verus! {

/// The value of a digit character, and `None` for any other character.
pub open spec fn digit_of(c: char) -> Option<u8> {
    if '0' <= c <= '9' {
        Some((c as u8 - '0' as u8) as u8)
    } else {
        None
    }
}

/// The digits of a text, in order; every other character is skipped.
pub open spec fn digits_of(text: Seq<char>) -> Seq<u8> {
    text.filter_map(|c: char| digit_of(c))
}

/// Reads a board out of a text: each digit character gives one cell, every
/// other character is ignored. The cells are not counted: the result has as
/// many cells as the text has digits.
pub fn parse_board(text: &str) -> (board: Vec<u8>)
    ensures
        board@ == digits_of(text@),
        forall|cell: int| 0 <= cell < board@.len() ==> board@[cell] <= 9,
{
    broadcast use group_string_axioms;

    let mut board: Vec<u8> = Vec::new();
    for c in it: text.chars()
        invariant
            it.seq() == text@,
            board@ == digits_of(text@.take(it.index())),
            forall|cell: int| 0 <= cell < board@.len() ==> board@[cell] <= 9,
    {
        proof {
            text@.lemma_filter_map_take_succ(|c: char| digit_of(c), it.index());
        }
        if '0' <= c && c <= '9' {
            board.push(c as u8 - '0' as u8);
        }
    }
    assert(text@.take(text@.len() as int) == text@);
    board
}

/// The character that shows a cell: a space for a blank, else the digit.
pub open spec fn glyph(value: u8) -> char {
    if value == 0 {
        ' '
    } else {
        digit_char(value)
    }
}

/// The character of a one-digit number.
pub open spec fn digit_char(digit: u8) -> char {
    ('0' as u8 + digit) as char
}

/// The text of place `k` of a unit: the cell's character, led by a bar at
/// the start of each group of three and followed by its separator.
pub open spec fn place_text(cells: Seq<u8>, k: int) -> Seq<char> {
    if k % 3 == 0 {
        "| "@ + seq![glyph(cells[k])] + ", "@
    } else if k % 3 == 1 {
        seq![glyph(cells[k])] + ", "@
    } else {
        seq![glyph(cells[k])] + " "@
    }
}

/// The text of the first `n` places of a unit.
pub open spec fn places_text(cells: Seq<u8>, n: nat) -> Seq<char>
    decreases n,
{
    if n == 0 {
        Seq::empty()
    } else {
        places_text(cells, (n - 1) as nat) + place_text(cells, n - 1)
    }
}

/// The line that shows a unit: `| a, b, c | d, e, f | g, h, i |` and a line
/// break.
pub open spec fn unit_text(cells: Seq<u8>) -> Seq<char> {
    places_text(cells, 9) + "|\n"@
}

/// A row under its heading: the axis labels, then the row's number and the
/// row itself.
pub open spec fn one_row_text(board: Seq<u8>, row: u8) -> Seq<char> {
    "Y X  0, 1, 2,  3, 4, 5,  6, 7, 8\n"@ + seq![digit_char(row)] + "  "@
        + unit_text(row_cells(board, row as int))
}

/// A column under its heading: the axis labels, then the column's number and
/// the column itself, laid out as a line.
pub open spec fn one_col_text(board: Seq<u8>, col: u8) -> Seq<char> {
    "X Y  0, 1, 2,  3, 4, 5,  6, 7, 8\n"@ + seq![digit_char(col)] + "  "@
        + unit_text(col_cells(board, col as int))
}

/// Row `row` of the grid: its number and its cells, under a rule when it is
/// the first row of a band.
pub open spec fn grid_row_text(board: Seq<u8>, row: u8) -> Seq<char> {
    (if row % 3 == 0 {
        " -------------------------------\n"@
    } else {
        Seq::empty()
    }) + seq![digit_char(row)] + " "@ + unit_text(row_cells(board, row as int))
}

/// The first `n` rows of the grid.
pub open spec fn grid_rows_text(board: Seq<u8>, n: nat) -> Seq<char>
    decreases n,
{
    if n == 0 {
        Seq::empty()
    } else {
        grid_rows_text(board, (n - 1) as nat) + grid_row_text(board, (n - 1) as u8)
    }
}

/// The whole grid: column labels, the nine rows with their numbers and a
/// rule above each band, and a closing rule.
pub open spec fn board_text(board: Seq<u8>) -> Seq<char> {
    " X  0  1  2   3  4  5   6  7  8\n"@ + "Y"@ + grid_rows_text(board, 9)
        + "  -------------------------------\n"@
}

/// The text of a one-digit number.
fn digit_str(digit: u8) -> (s: &'static str)
    requires
        digit <= 9,
    ensures
        s@ == seq![digit_char(digit)],
{
    proof {
        reveal_strlit("0");
        reveal_strlit("1");
        reveal_strlit("2");
        reveal_strlit("3");
        reveal_strlit("4");
        reveal_strlit("5");
        reveal_strlit("6");
        reveal_strlit("7");
        reveal_strlit("8");
        reveal_strlit("9");
    }
    let s = match digit {
        0 => "0",
        1 => "1",
        2 => "2",
        3 => "3",
        4 => "4",
        5 => "5",
        6 => "6",
        7 => "7",
        8 => "8",
        _ => "9",
    };
    assert(s@ =~= seq![digit_char(digit)]);
    s
}

/// The text that shows a cell.
fn glyph_str(value: u8) -> (s: &'static str)
    requires
        value <= 9,
    ensures
        s@ == seq![glyph(value)],
{
    if value == 0 {
        proof {
            reveal_strlit(" ");
        }
        let s = " ";
        assert(s@ =~= seq![glyph(value)]);
        s
    } else {
        digit_str(value)
    }
}

/// Draws a unit as one line.
pub fn render_unit(cells: &[u8]) -> (line: String)
    requires
        cells@.len() == 9,
        forall|k: int| 0 <= k < 9 ==> cells@[k] <= 9,
    ensures
        line@ == unit_text(cells@),
{
    let mut line = String::new();
    for i in 0..9usize
        invariant
            cells@.len() == 9,
            forall|k: int| 0 <= k < 9 ==> cells@[k] <= 9,
            line@ == places_text(cells@, i as nat),
    {
        let cell = glyph_str(cells[i]);
        if i % 3 == 0 {
            line.append("| ");
            line.append(cell);
            line.append(", ");
        } else if i % 3 == 1 {
            line.append(cell);
            line.append(", ");
        } else {
            line.append(cell);
            line.append(" ");
        }
        assert(line@ =~= places_text(cells@, i as nat) + place_text(cells@, i as int));
    }
    line.append("|\n");
    line
}

/// Draws one row of the board.
pub fn render_row(board: &[u8], row_id: u8) -> (line: String)
    requires
        well_formed(board@),
        row_id < 9,
    ensures
        line@ == unit_text(row_cells(board@, row_id as int)),
{
    let row = get_board_row(board, row_id);
    proof {
        assert forall|k: int| 0 <= k < 9 implies row@[k] <= 9 by {
            lemma_unit_place(board@, row_id as int, k);
        }
    }
    render_unit(row.as_slice())
}

/// Draws one column of the board, as a line.
pub fn render_col(board: &[u8], col_id: u8) -> (line: String)
    requires
        well_formed(board@),
        col_id < 9,
    ensures
        line@ == unit_text(col_cells(board@, col_id as int)),
{
    let col = get_board_col(board, col_id);
    proof {
        assert forall|k: int| 0 <= k < 9 implies col@[k] <= 9 by {
            lemma_unit_place(board@, col_id as int, k);
        }
    }
    render_unit(col.as_slice())
}

/// Draws one row of the board under a heading that labels the axes.
pub fn render_one_row(board: &[u8], row_id: u8) -> (text: String)
    requires
        well_formed(board@),
        row_id < 9,
    ensures
        text@ == one_row_text(board@, row_id),
{
    let mut text = String::new();
    text.append("Y X  0, 1, 2,  3, 4, 5,  6, 7, 8\n");
    text.append(digit_str(row_id));
    text.append("  ");
    let line = render_row(board, row_id);
    text.append(line.as_str());
    assert(text@ =~= one_row_text(board@, row_id));
    text
}

/// Draws one column of the board under a heading that labels the axes.
pub fn render_one_col(board: &[u8], col_id: u8) -> (text: String)
    requires
        well_formed(board@),
        col_id < 9,
    ensures
        text@ == one_col_text(board@, col_id),
{
    let mut text = String::new();
    text.append("X Y  0, 1, 2,  3, 4, 5,  6, 7, 8\n");
    text.append(digit_str(col_id));
    text.append("  ");
    let line = render_col(board, col_id);
    text.append(line.as_str());
    assert(text@ =~= one_col_text(board@, col_id));
    text
}

/// Draws the whole board as a grid with a rule around each band.
pub fn render_board(board: &[u8]) -> (text: String)
    requires
        well_formed(board@),
    ensures
        text@ == board_text(board@),
{
    let mut text = String::new();
    text.append(" X  0  1  2   3  4  5   6  7  8\n");
    text.append("Y");
    let ghost head = text@;
    for row_id in 0..9u8
        invariant
            well_formed(board@),
            head == " X  0  1  2   3  4  5   6  7  8\n"@ + "Y"@,
            text@ == head + grid_rows_text(board@, row_id as nat),
    {
        let ghost before = text@;
        if row_id % 3 == 0 {
            text.append(" -------------------------------\n");
        }
        text.append(digit_str(row_id));
        text.append(" ");
        let line = render_row(board, row_id);
        text.append(line.as_str());
        proof {
            assert(text@ =~= before + grid_row_text(board@, row_id));
            assert(text@ =~= head + grid_rows_text(board@, (row_id + 1) as nat));
        }
    }
    text.append("  -------------------------------\n");
    text
}

} // verus!
