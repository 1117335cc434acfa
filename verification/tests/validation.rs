use sudoku::validation::{
    board_validation, box_validation, col_validation, row_validation, unit_validation,
};

fn digits(text: &str) -> Vec<u8> {
    text.bytes().map(|b| b - b'0').collect()
}

fn solved_board() -> Vec<u8> {
    digits("534672198678195342912348567859426713761853924423791856961287345537419286284635179")
}

#[test]
fn unit_with_each_digit_once_is_valid() {
    assert!(unit_validation(&[1, 2, 3, 4, 5, 6, 7, 8, 9]));
}

#[test]
fn unit_with_a_digit_twice_is_invalid() {
    assert!(!unit_validation(&[1, 1, 3, 4, 5, 6, 7, 8, 9]));
}

#[test]
fn blank_cells_of_a_unit_are_ignored() {
    assert!(unit_validation(&[0, 0, 0, 0, 0, 0, 0, 0, 0]));
    assert!(unit_validation(&[0, 7, 0, 0, 3, 0, 0, 0, 0]));
    assert!(!unit_validation(&[0, 7, 0, 0, 3, 0, 0, 0, 7]));
}

#[test]
fn a_repeat_is_found_at_any_two_places() {
    for first in 0..9 {
        for second in (first + 1)..9 {
            let mut cells = [0u8; 9];
            cells[first] = 4;
            cells[second] = 4;
            assert!(!unit_validation(&cells));
            cells[second] = 5;
            assert!(unit_validation(&cells));
        }
    }
}

#[test]
fn blank_board_is_valid() {
    let board = vec![0u8; 81];
    assert!(board_validation(&board));
}

#[test]
fn solved_board_is_valid() {
    let board = solved_board();
    assert!(board_validation(&board));
    for unit in 0..9 {
        assert!(box_validation(&board, unit));
        assert!(row_validation(&board, unit));
        assert!(col_validation(&board, unit));
    }
}

#[test]
fn two_fives_in_a_row_make_the_board_invalid() {
    let mut board = vec![0u8; 81];
    // cells 0 and 20 are the two ends of row 0, in different boxes and cols
    board[0] = 5;
    board[20] = 5;
    assert!(!row_validation(&board, 0));
    assert!(row_validation(&board, 1));
    assert!(box_validation(&board, 0));
    assert!(box_validation(&board, 2));
    assert!(col_validation(&board, 0));
    assert!(col_validation(&board, 8));
    assert!(!board_validation(&board));
}

#[test]
fn two_fives_in_a_col_make_the_board_invalid() {
    let mut board = vec![0u8; 81];
    // cells 1 and 61 are the two ends of col 1
    board[1] = 5;
    board[61] = 5;
    assert!(!col_validation(&board, 1));
    assert!(row_validation(&board, 0));
    assert!(row_validation(&board, 8));
    assert!(box_validation(&board, 0));
    assert!(box_validation(&board, 6));
    assert!(!board_validation(&board));
}

#[test]
fn two_fives_in_a_box_make_the_board_invalid() {
    let mut board = vec![0u8; 81];
    // cells 36 and 44 are opposite corners of box 4
    board[36] = 5;
    board[44] = 5;
    assert!(!box_validation(&board, 4));
    assert!(row_validation(&board, 3));
    assert!(row_validation(&board, 5));
    assert!(col_validation(&board, 3));
    assert!(col_validation(&board, 5));
    assert!(!board_validation(&board));
}

#[test]
fn equal_digits_in_no_common_unit_are_allowed() {
    let mut board = vec![0u8; 81];
    board[0] = 5;
    board[40] = 5;
    board[80] = 5;
    assert!(board_validation(&board));
}

#[test]
fn swapping_two_cells_of_a_solved_board_breaks_it() {
    let mut board = solved_board();
    board.swap(0, 9);
    assert!(!board_validation(&board));
    assert!(row_validation(&board, 0));
    assert!(!col_validation(&board, 0));
    assert!(!box_validation(&board, 0));
}
