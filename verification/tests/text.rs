use sudoku::text::{
    parse_board, render_board, render_col, render_one_col, render_one_row, render_row,
    render_unit,
};

fn digits(text: &str) -> Vec<u8> {
    text.bytes().map(|b| b - b'0').collect()
}

fn puzzle() -> Vec<u8> {
    digits("530600098070195000000000060800400700060803020003001006060000000000419080280005079")
}

#[test]
fn parse_keeps_the_digits_in_order() {
    assert_eq!(parse_board("0123456789"), vec![0, 1, 2, 3, 4, 5, 6, 7, 8, 9]);
}

#[test]
fn parse_skips_everything_but_digits() {
    assert_eq!(parse_board("1 2,3\n4\t5|6-7 x8y9z\r\n"), vec![1, 2, 3, 4, 5, 6, 7, 8, 9]);
    assert_eq!(parse_board(""), Vec::<u8>::new());
    assert_eq!(parse_board("no digits here\n"), Vec::<u8>::new());
    assert_eq!(parse_board("/0:9"), vec![0, 9]);
}

#[test]
fn parse_skips_characters_beyond_ascii() {
    assert_eq!(parse_board("4\u{0663}\u{ff15}\u{00e9}2"), vec![4, 2]);
}

#[test]
fn parse_does_not_count_the_cells() {
    assert_eq!(parse_board("1 2 3").len(), 3);
    assert_eq!(parse_board(&"5".repeat(100)).len(), 100);
    let text = "530 600 098\n070 195 000\n000 000 060\n800 400 700\n060 803 020\n003 001 006\n\
                060 000 000\n000 419 080\n280 005 079\n";
    assert_eq!(parse_board(text), puzzle());
}

#[test]
fn unit_line_shows_blanks_as_spaces() {
    assert_eq!(
        render_unit(&[1, 2, 3, 4, 5, 6, 7, 8, 9]),
        "| 1, 2, 3 | 4, 5, 6 | 7, 8, 9 |\n"
    );
    assert_eq!(
        render_unit(&[0, 0, 0, 0, 0, 0, 0, 0, 0]),
        "|  ,  ,   |  ,  ,   |  ,  ,   |\n"
    );
    assert_eq!(
        render_unit(&[5, 3, 0, 0, 7, 0, 0, 0, 0]),
        "| 5, 3,   |  , 7,   |  ,  ,   |\n"
    );
}

#[test]
fn row_line_of_the_puzzle() {
    let board = puzzle();
    assert_eq!(render_row(&board, 0), "| 5, 3,   |  , 7,   |  ,  ,   |\n");
    assert_eq!(render_row(&board, 1), "| 6,  ,   | 1, 9, 5 |  ,  ,   |\n");
    assert_eq!(render_row(&board, 8), "|  ,  ,   |  , 8,   |  , 7, 9 |\n");
}

#[test]
fn col_line_of_the_puzzle() {
    let board = puzzle();
    assert_eq!(render_col(&board, 0), "| 5, 6,   | 8, 4, 7 |  ,  ,   |\n");
    assert_eq!(render_col(&board, 4), "| 7, 9,   | 6,  , 2 |  , 1, 8 |\n");
    assert_eq!(render_col(&board, 8), "|  ,  ,   | 3, 1, 6 |  , 5, 9 |\n");
}

#[test]
fn one_row_under_its_heading() {
    let board = puzzle();
    assert_eq!(
        render_one_row(&board, 3),
        "Y X  0, 1, 2,  3, 4, 5,  6, 7, 8\n3  | 8,  ,   |  , 6,   |  ,  , 3 |\n"
    );
}

#[test]
fn one_col_under_its_heading() {
    let board = puzzle();
    assert_eq!(
        render_one_col(&board, 7),
        "X Y  0, 1, 2,  3, 4, 5,  6, 7, 8\n7  |  ,  , 6 |  ,  ,   | 8,  , 7 |\n"
    );
}

#[test]
fn grid_of_the_puzzle() {
    let expected = " X  0  1  2   3  4  5   6  7  8\n\
Y -------------------------------\n\
0 | 5, 3,   |  , 7,   |  ,  ,   |\n\
1 | 6,  ,   | 1, 9, 5 |  ,  ,   |\n\
2 |  , 9, 8 |  ,  ,   |  , 6,   |\n \
-------------------------------\n\
3 | 8,  ,   |  , 6,   |  ,  , 3 |\n\
4 | 4,  ,   | 8,  , 3 |  ,  , 1 |\n\
5 | 7,  ,   |  , 2,   |  ,  , 6 |\n \
-------------------------------\n\
6 |  , 6,   |  ,  ,   | 2, 8,   |\n\
7 |  ,  ,   | 4, 1, 9 |  ,  , 5 |\n\
8 |  ,  ,   |  , 8,   |  , 7, 9 |\n  \
-------------------------------\n";
    assert_eq!(render_board(&puzzle()), expected);
}

#[test]
fn grid_of_a_blank_board() {
    let text = render_board(&[0u8; 81]);
    let lines: Vec<&str> = text.lines().collect();
    assert_eq!(lines.len(), 14);
    assert_eq!(lines[0], " X  0  1  2   3  4  5   6  7  8");
    assert_eq!(lines[1], "Y -------------------------------");
    assert_eq!(lines[2], "0 |  ,  ,   |  ,  ,   |  ,  ,   |");
    assert_eq!(lines[5], " -------------------------------");
    assert_eq!(lines[13], "  -------------------------------");
    assert!(text.ends_with('\n'));
}

#[test]
fn parsing_the_digits_of_a_grid_gives_back_its_rows() {
    let board = puzzle();
    let line = render_row(&board, 4);
    assert_eq!(parse_board(&line), vec![4, 8, 3, 1]);
}
