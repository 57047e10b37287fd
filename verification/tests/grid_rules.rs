use sudoku::utils::{get_candidates, verify, Cells};

const SOLVED: Cells = [
    1, 2, 3, 4, 5, 6, 7, 8, 9, //
    4, 5, 6, 7, 8, 9, 1, 2, 3, //
    7, 8, 9, 1, 2, 3, 4, 5, 6, //
    2, 3, 4, 5, 6, 7, 8, 9, 1, //
    5, 6, 7, 8, 9, 1, 2, 3, 4, //
    8, 9, 1, 2, 3, 4, 5, 6, 7, //
    3, 4, 5, 6, 7, 8, 9, 1, 2, //
    6, 7, 8, 9, 1, 2, 3, 4, 5, //
    9, 1, 2, 3, 4, 5, 6, 7, 8,
];

fn first_row_filled() -> Cells {
    let mut grid: Cells = [0; 81];
    for column in 0..9 {
        grid[column] = (column + 1) as u8;
    }
    grid
}

#[test]
fn empty_grid_offers_every_digit() {
    let grid: Cells = [0; 81];
    for index in 0..81 {
        assert_eq!(get_candidates(&grid, index), vec![1, 2, 3, 4, 5, 6, 7, 8, 9]);
    }
}

#[test]
fn digit_in_row_is_excluded() {
    let mut grid: Cells = [0; 81];
    grid[0] = 5;
    assert_eq!(get_candidates(&grid, 1), vec![1, 2, 3, 4, 6, 7, 8, 9]);
    assert_eq!(get_candidates(&grid, 8), vec![1, 2, 3, 4, 6, 7, 8, 9]);
}

#[test]
fn digit_in_column_is_excluded() {
    let mut grid: Cells = [0; 81];
    grid[0] = 5;
    assert_eq!(get_candidates(&grid, 9), vec![1, 2, 3, 4, 6, 7, 8, 9]);
    assert_eq!(get_candidates(&grid, 72), vec![1, 2, 3, 4, 6, 7, 8, 9]);
}

#[test]
fn digit_in_box_is_excluded() {
    let mut grid: Cells = [0; 81];
    grid[0] = 5;
    assert_eq!(get_candidates(&grid, 10), vec![1, 2, 3, 4, 6, 7, 8, 9]);
    assert_eq!(get_candidates(&grid, 20), vec![1, 2, 3, 4, 6, 7, 8, 9]);
}

#[test]
fn digit_outside_the_units_is_offered() {
    let mut grid: Cells = [0; 81];
    grid[0] = 5;
    assert_eq!(get_candidates(&grid, 30), vec![1, 2, 3, 4, 5, 6, 7, 8, 9]);
    assert_eq!(get_candidates(&grid, 80), vec![1, 2, 3, 4, 5, 6, 7, 8, 9]);
}

#[test]
fn filled_cell_excludes_its_own_value() {
    let mut grid: Cells = [0; 81];
    grid[0] = 5;
    assert_eq!(get_candidates(&grid, 0), vec![1, 2, 3, 4, 6, 7, 8, 9]);
}

#[test]
fn box_in_the_last_band_and_stack() {
    let mut grid: Cells = [0; 81];
    grid[60] = 1;
    grid[70] = 2;
    grid[80] = 3;
    grid[8] = 4;
    grid[72] = 5;
    assert_eq!(get_candidates(&grid, 79), vec![4, 6, 7, 8, 9]);
    assert_eq!(get_candidates(&grid, 61), vec![4, 5, 6, 7, 8, 9]);
    assert_eq!(get_candidates(&grid, 71), vec![5, 6, 7, 8, 9]);
}

#[test]
fn saturated_row_leaves_no_candidate() {
    let grid = first_row_filled();
    assert!(verify(&grid));
    for index in 0..9 {
        assert_eq!(get_candidates(&grid, index), Vec::<u8>::new());
    }
}

#[test]
fn saturated_row_limits_the_rows_below() {
    let grid = first_row_filled();
    assert_eq!(get_candidates(&grid, 9), vec![4, 5, 6, 7, 8, 9]);
    assert_eq!(get_candidates(&grid, 40), vec![1, 2, 3, 4, 6, 7, 8, 9]);
}

#[test]
fn empty_grid_verifies() {
    let grid: Cells = [0; 81];
    assert!(verify(&grid));
}

#[test]
fn solved_grid_verifies() {
    assert!(verify(&SOLVED));
}

#[test]
fn repeated_digit_in_row_fails() {
    let mut grid: Cells = [0; 81];
    grid[0] = 5;
    grid[8] = 5;
    assert!(!verify(&grid));
}

#[test]
fn repeated_digit_in_column_fails() {
    let mut grid: Cells = [0; 81];
    grid[4] = 7;
    grid[76] = 7;
    assert!(!verify(&grid));
}

#[test]
fn repeated_digit_in_box_fails() {
    let mut grid: Cells = [0; 81];
    grid[30] = 2;
    grid[50] = 2;
    assert!(!verify(&grid));
}

#[test]
fn same_digit_in_unrelated_cells_passes() {
    let mut grid: Cells = [0; 81];
    grid[0] = 5;
    grid[13] = 5;
    grid[80] = 5;
    assert!(verify(&grid));
}

#[test]
fn one_wrong_cell_in_a_solved_grid_fails() {
    let mut grid = SOLVED;
    grid[40] = 1;
    assert!(!verify(&grid));
}

#[test]
fn partial_grid_verifies() {
    let mut grid = SOLVED;
    for index in 0..81 {
        if index % 2 == 0 {
            grid[index] = 0;
        }
    }
    assert!(verify(&grid));
}

#[test]
fn verify_gives_the_same_answer_twice() {
    let mut conflicting: Cells = [0; 81];
    conflicting[0] = 5;
    conflicting[1] = 5;
    for grid in [SOLVED, [0; 81], first_row_filled(), conflicting] {
        let first = verify(&grid);
        let second = verify(&grid);
        assert_eq!(first, second);
    }
}

#[test]
fn cleared_cell_offers_its_old_value() {
    for index in 0..81 {
        let mut grid = SOLVED;
        let value = grid[index];
        grid[index] = 0;
        assert_eq!(get_candidates(&grid, index), vec![value]);
    }
}

#[test]
fn cleared_cell_of_a_partial_grid_offers_its_old_value() {
    let mut grid = SOLVED;
    for index in 0..81 {
        if index % 3 == 0 {
            grid[index] = 0;
        }
    }
    for index in 0..81 {
        if grid[index] != 0 {
            let mut cleared = grid;
            cleared[index] = 0;
            assert!(get_candidates(&cleared, index).contains(&grid[index]));
        }
    }
}
