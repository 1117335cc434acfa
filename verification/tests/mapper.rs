use sudoku::mapper::{
    col_start_from_cid, col_start_from_idx, get_box_col, get_box_id, get_box_row, get_cell_col,
    get_cell_row, row_start_from_cid, row_start_from_idx,
};

#[test]
fn box_id_is_the_ninth_of_the_cell_index() {
    assert_eq!(get_box_id(0), 0);
    assert_eq!(get_box_id(8), 0);
    assert_eq!(get_box_id(9), 1);
    assert_eq!(get_box_id(40), 4);
    assert_eq!(get_box_id(72), 8);
    assert_eq!(get_box_id(80), 8);
}

#[test]
fn box_row_and_col_in_the_grid_of_boxes() {
    let rows: Vec<u8> = (0..9).map(get_box_row).collect();
    let cols: Vec<u8> = (0..9).map(get_box_col).collect();
    assert_eq!(rows, vec![0, 0, 0, 1, 1, 1, 2, 2, 2]);
    assert_eq!(cols, vec![0, 1, 2, 0, 1, 2, 0, 1, 2]);
}

#[test]
fn cell_rows_of_the_first_band() {
    let rows: Vec<u8> = (0..27).map(get_cell_row).collect();
    assert_eq!(
        rows,
        vec![0, 0, 0, 1, 1, 1, 2, 2, 2, 0, 0, 0, 1, 1, 1, 2, 2, 2, 0, 0, 0, 1, 1, 1, 2, 2, 2]
    );
}

#[test]
fn cell_cols_of_the_first_band() {
    let cols: Vec<u8> = (0..27).map(get_cell_col).collect();
    assert_eq!(
        cols,
        vec![0, 1, 2, 0, 1, 2, 0, 1, 2, 3, 4, 5, 3, 4, 5, 3, 4, 5, 6, 7, 8, 6, 7, 8, 6, 7, 8]
    );
}

#[test]
fn cell_row_and_col_of_single_cells() {
    assert_eq!((get_cell_row(0), get_cell_col(0)), (0, 0));
    assert_eq!((get_cell_row(13), get_cell_col(13)), (1, 4));
    assert_eq!((get_cell_row(40), get_cell_col(40)), (4, 4));
    assert_eq!((get_cell_row(53), get_cell_col(53)), (5, 8));
    assert_eq!((get_cell_row(60), get_cell_col(60)), (8, 0));
    assert_eq!((get_cell_row(80), get_cell_col(80)), (8, 8));
}

#[test]
fn row_starts_step_by_3_and_jump_by_27() {
    let starts: Vec<u8> = (0..9).map(row_start_from_idx).collect();
    assert_eq!(starts, vec![0, 3, 6, 27, 30, 33, 54, 57, 60]);
}

#[test]
fn col_starts_step_by_1_and_jump_by_9() {
    let starts: Vec<u8> = (0..9).map(col_start_from_idx).collect();
    assert_eq!(starts, vec![0, 1, 2, 9, 10, 11, 18, 19, 20]);
}

#[test]
fn unit_starts_from_a_cell() {
    assert_eq!(row_start_from_cid(0), 0);
    assert_eq!(row_start_from_cid(26), 6);
    assert_eq!(row_start_from_cid(40), 30);
    assert_eq!(row_start_from_cid(80), 60);
    assert_eq!(col_start_from_cid(0), 0);
    assert_eq!(col_start_from_cid(26), 20);
    assert_eq!(col_start_from_cid(40), 10);
    assert_eq!(col_start_from_cid(80), 20);
}

#[test]
fn unit_start_from_cell_agrees_with_unit_start_from_id() {
    for cell in 0..81u8 {
        assert_eq!(row_start_from_cid(cell), row_start_from_idx(get_cell_row(cell)));
        assert_eq!(col_start_from_cid(cell), col_start_from_idx(get_cell_col(cell)));
    }
}

#[test]
fn row_start_is_the_band_times_27_plus_the_inner_row() {
    for cell in 0..81u8 {
        let band = get_box_row(get_box_id(cell));
        assert_eq!(row_start_from_cid(cell), band * 27 + (cell % 9 / 3) * 3);
    }
}

#[test]
fn every_cell_is_recovered_from_its_row_and_col() {
    for cell in 0..81u8 {
        let row = get_cell_row(cell);
        let col = get_cell_col(cell);
        assert!(row < 9 && col < 9);
        assert_eq!(row_start_from_idx(row) + (col / 3) * 9 + col % 3, cell);
        assert_eq!(col_start_from_idx(col) + (row / 3) * 27 + (row % 3) * 3, cell);
        assert_eq!(row_start_from_idx(row) + col_start_from_idx(col), cell);
    }
}

#[test]
fn every_position_names_a_different_cell() {
    let mut seen = [false; 81];
    for row in 0..9u8 {
        for col in 0..9u8 {
            let cell = row_start_from_idx(row) + col_start_from_idx(col);
            assert!(cell < 81);
            assert!(!seen[cell as usize]);
            seen[cell as usize] = true;
            assert_eq!(get_cell_row(cell), row);
            assert_eq!(get_cell_col(cell), col);
            assert_eq!(get_box_id(cell), (row / 3) * 3 + col / 3);
        }
    }
}
