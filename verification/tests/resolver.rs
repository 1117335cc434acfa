use sudoku::board::count_filled;
use sudoku::candidates::pencil_in;
use sudoku::resolver::{
    cell_state, forced_digit, last_free_cell, solve_pass, unit_total, write_in, CellState,
    Contradiction,
};
use sudoku::validation::board_validation;

fn digits(text: &str) -> Vec<u8> {
    text.bytes().map(|b| b - b'0').collect()
}

fn puzzle() -> Vec<u8> {
    digits("530600098070195000000000060800400700060803020003001006060000000000419080280005079")
}

fn solution() -> Vec<u8> {
    digits("534672198678195342912348567859426713761853924423791856961287345537419286284635179")
}

fn row_of_eight() -> Vec<u8> {
    let mut board = vec![0u8; 81];
    for (cell, digit) in [1usize, 2, 9, 10, 11, 18, 19, 20].into_iter().zip(1u8..) {
        board[cell] = digit;
    }
    board
}

#[test]
fn last_free_cell_fills_in_the_nine() {
    let mut board = vec![0u8; 81];
    board[..8].copy_from_slice(&[1, 2, 3, 4, 5, 6, 7, 8]);
    assert_eq!(last_free_cell(&board, 0), Some(vec![1, 2, 3, 4, 5, 6, 7, 8, 9]));
    assert_eq!(board[8], 0);
}

#[test]
fn last_free_cell_fills_any_place_with_any_digit() {
    for place in 0..9usize {
        let mut full = vec![3u8, 1, 4, 5, 9, 2, 6, 8, 7];
        let missing = full[place];
        let mut board = vec![0u8; 81];
        board[45..54].copy_from_slice(&full);
        board[45 + place] = 0;
        assert_eq!(last_free_cell(&board, 5), Some(full.clone()));
        full[place] = 0;
        assert_eq!(&board[45..54], &full[..]);
        assert!((1..=9).contains(&missing));
    }
}

#[test]
fn last_free_cell_does_not_apply_to_a_full_box() {
    let board = solution();
    for box_id in 0..9 {
        assert_eq!(last_free_cell(&board, box_id), None);
    }
}

#[test]
fn last_free_cell_does_not_apply_to_two_blanks() {
    let mut board = solution();
    board[18] = 0;
    board[26] = 0;
    assert_eq!(last_free_cell(&board, 2), None);
    assert_eq!(last_free_cell(&vec![0u8; 81], 0), None);
}

#[test]
fn last_free_cell_looks_at_its_box_only() {
    let mut board = vec![0u8; 81];
    board[9..17].copy_from_slice(&[9, 8, 7, 6, 5, 4, 3, 2]);
    assert_eq!(last_free_cell(&board, 0), None);
    assert_eq!(last_free_cell(&board, 1), Some(vec![9, 8, 7, 6, 5, 4, 3, 2, 1]));
    assert_eq!(last_free_cell(&board, 2), None);
}

#[test]
fn last_free_cell_takes_the_complement_of_the_sum() {
    // no digit stands twice in a valid box; the complement is taken all the same
    let mut board = vec![0u8; 81];
    board[..9].copy_from_slice(&[1, 1, 1, 1, 0, 1, 1, 1, 1]);
    assert_eq!(last_free_cell(&board, 0), Some(vec![1, 1, 1, 1, 37, 1, 1, 1, 1]));
}

#[test]
fn unit_total_adds_the_nine_values() {
    assert_eq!(unit_total(&[1, 2, 3, 4, 5, 6, 7, 8, 9]), 45);
    assert_eq!(unit_total(&[0; 9]), 0);
    assert_eq!(unit_total(&[255; 9]), 2295);
}

#[test]
fn cell_state_tells_filled_from_stuck_from_open() {
    assert_eq!(cell_state(5, 0), CellState::AlreadyFilled);
    assert_eq!(cell_state(5, 0x1FF), CellState::AlreadyFilled);
    assert_eq!(cell_state(0, 0), CellState::NoCandidates);
    assert_eq!(cell_state(0, 0x100), CellState::Candidates(0x100));
    assert_eq!(cell_state(0, 0x003), CellState::Candidates(0x003));
}

#[test]
fn forced_digit_of_a_single_bit_is_its_position_plus_one() {
    for digit in 1..=9u8 {
        assert_eq!(forced_digit(1 << (digit - 1)), Some(digit));
    }
}

#[test]
fn forced_digit_needs_exactly_one_digit() {
    assert_eq!(forced_digit(0), None);
    assert_eq!(forced_digit(0b11), None);
    assert_eq!(forced_digit(0x1FF), None);
    assert_eq!(forced_digit(0x101), None);
    assert_eq!(forced_digit(0x200), None);
    assert_eq!(forced_digit(0x8000), None);
}

#[test]
fn write_in_writes_single_candidates_and_keeps_the_rest() {
    let board = vec![0u8; 81];
    let mut masks = vec![0x1FFu16; 81];
    masks[0] = 0x100;
    masks[40] = 0x001;
    masks[80] = 0x003;
    let mut expected = vec![0u8; 81];
    expected[0] = 9;
    expected[40] = 1;
    assert_eq!(write_in(&board, &masks), Ok(expected));
    assert_eq!(board, vec![0u8; 81]);
}

#[test]
fn write_in_never_touches_a_filled_cell() {
    let mut board = vec![0u8; 81];
    board[3] = 4;
    let mut masks = vec![0x1FFu16; 81];
    masks[3] = 0x100;
    let next = write_in(&board, &masks).unwrap();
    assert_eq!(next, board);
    masks[3] = 0;
    assert_eq!(write_in(&board, &masks), Ok(board.clone()));
}

#[test]
fn write_in_reports_a_blank_cell_without_candidates() {
    let mut board = vec![1u8; 81];
    board[17] = 0;
    board[60] = 0;
    let mut masks = vec![0u16; 81];
    assert_eq!(write_in(&board, &masks), Err(Contradiction { cell: 17 }));
    masks[17] = 0x010;
    assert_eq!(write_in(&board, &masks), Err(Contradiction { cell: 60 }));
    masks[60] = 0x011;
    let mut expected = board.clone();
    expected[17] = 5;
    assert_eq!(write_in(&board, &masks), Ok(expected));
}

#[test]
fn solve_pass_writes_the_nine_into_the_row_of_eight() {
    let board = row_of_eight();
    let masks = pencil_in(&board);
    assert_eq!(masks[0], 0x100);
    let mut expected = board.clone();
    expected[0] = 9;
    assert_eq!(solve_pass(&board), Ok(expected.clone()));
    assert_eq!(write_in(&board, &masks), Ok(expected));
}

#[test]
fn solve_pass_reports_a_cell_that_nothing_fits() {
    let mut board = row_of_eight();
    board[27] = 9;
    assert_eq!(solve_pass(&board), Err(Contradiction { cell: 0 }));
}

#[test]
fn solve_pass_on_a_blank_board_changes_nothing() {
    let board = vec![0u8; 81];
    assert_eq!(solve_pass(&board), Ok(board.clone()));
}

#[test]
fn solve_pass_on_a_solved_board_changes_nothing() {
    let board = solution();
    assert_eq!(solve_pass(&board), Ok(board.clone()));
}

#[test]
fn first_pass_on_the_puzzle() {
    let next = solve_pass(&puzzle()).unwrap();
    assert_eq!(
        next,
        digits("530600098070195000000000060800400700060853020003001006060000000007419080284035079")
    );
    assert_eq!(count_filled(&puzzle()), 30);
    assert_eq!(count_filled(&next), 34);
}

#[test]
fn passes_never_change_a_filled_cell_nor_lose_one() {
    let mut board = puzzle();
    loop {
        let next = solve_pass(&board).unwrap();
        assert_eq!(next.len(), 81);
        for cell in 0..81 {
            if board[cell] != 0 {
                assert_eq!(next[cell], board[cell]);
            }
        }
        assert!(count_filled(&next) >= count_filled(&board));
        assert!(board_validation(&next));
        if next == board {
            break;
        }
        board = next;
    }
}

#[test]
fn passes_solve_the_puzzle_in_ten_steps() {
    let mut board = puzzle();
    let mut passes = 0;
    loop {
        let next = solve_pass(&board).unwrap();
        if next == board {
            break;
        }
        board = next;
        passes += 1;
    }
    assert_eq!(passes, 10);
    assert_eq!(board, solution());
    assert_eq!(count_filled(&board), 81);
    assert!(board_validation(&board));
}
