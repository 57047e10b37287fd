use sudoku::generator::{
    generate, generate_valid_grid, place_candidate, remove_cell, remove_cells,
    remove_cells_in_order, DESIRED_CLUES, PROBE_LIMIT,
};
use sudoku::solver::solve;
use sudoku::utils::{verify, Cells};

const SOLVED: Cells = [
    1, 2, 3, 4, 5, 6, 7, 8, 9, //
    4, 5, 6, 7, 8, 9, 1, 2, 3, //
    7, 8, 9, 1, 2, 3, 4, 5, 6, //
    2, 3, 4, 5, 6, 7, 8, 9, 1, //
    5, 6, 7, 8, 9, 1, 2, 3, 4, //
    8, 9, 1, 2, 3, 4, 5, 6, 7, //
    3, 4, 5, 6, 7, 8, 9, 1, 2, //
    6, 7, 8, 9, 1, 2, 3, 4, 5, //
    9, 1, 2, 3, 4, 5, 6, 7, 8,
];

/// What is left of `SOLVED` when its cells are emptied in index order until
/// 35 clues remain.
const CARVED_IN_INDEX_ORDER: Cells = [
    0, 0, 0, 0, 0, 0, 0, 0, 0, //
    0, 0, 0, 0, 0, 0, 1, 2, 3, //
    0, 0, 0, 1, 2, 3, 4, 5, 6, //
    0, 0, 0, 0, 0, 0, 0, 0, 0, //
    0, 0, 0, 0, 0, 0, 2, 3, 4, //
    0, 0, 1, 2, 3, 0, 5, 6, 7, //
    0, 0, 5, 0, 7, 8, 0, 0, 0, //
    0, 7, 8, 0, 0, 0, 3, 4, 5, //
    9, 1, 2, 3, 4, 5, 6, 7, 8,
];

/// The same in reverse index order.
const CARVED_IN_REVERSE_ORDER: Cells = [
    1, 2, 3, 4, 5, 6, 7, 8, 9, //
    4, 5, 6, 0, 0, 0, 1, 2, 0, //
    0, 0, 0, 1, 2, 0, 4, 0, 0, //
    2, 3, 4, 0, 6, 7, 8, 0, 0, //
    5, 6, 7, 0, 0, 0, 0, 0, 0, //
    0, 0, 0, 0, 0, 0, 0, 0, 0, //
    3, 4, 5, 6, 7, 8, 0, 0, 0, //
    6, 7, 8, 0, 0, 0, 0, 0, 0, //
    0, 0, 0, 0, 0, 0, 0, 0, 0,
];

/// What is left of `SOLVED` when its cells are emptied in index order
/// without a wanted number of clues.
const CARVED_WITHOUT_QUOTA: Cells = [
    0, 0, 0, 0, 0, 0, 0, 0, 0, //
    0, 0, 0, 0, 0, 0, 1, 2, 3, //
    0, 0, 0, 1, 2, 3, 4, 5, 6, //
    0, 0, 0, 0, 0, 0, 0, 0, 0, //
    0, 0, 0, 0, 0, 0, 2, 3, 4, //
    0, 0, 1, 2, 3, 0, 5, 6, 7, //
    0, 0, 5, 0, 7, 8, 0, 0, 0, //
    0, 7, 8, 0, 0, 0, 3, 0, 0, //
    0, 1, 2, 3, 4, 0, 6, 0, 0,
];

fn clues(grid: &Cells) -> usize {
    grid.iter().filter(|&&v| v != 0).count()
}

fn extends(grid: &Cells, solution: &Cells) -> bool {
    (0..81).all(|i| grid[i] == 0 || grid[i] == solution[i])
}

fn is_solved(grid: &Cells) -> bool {
    grid.iter().all(|&v| (1..=9).contains(&v)) && verify(grid)
}

#[test]
fn constants_of_the_generator() {
    assert_eq!(PROBE_LIMIT, 100);
    assert_eq!(DESIRED_CLUES, 35);
}

#[test]
fn generated_puzzle_keeps_the_rules() {
    for _ in 0..5 {
        let grid = generate();
        assert!(grid.iter().all(|&v| v <= 9));
        assert!(verify(&grid));
    }
}

#[test]
fn generated_puzzle_has_enough_clues() {
    for _ in 0..5 {
        let grid = generate();
        assert!(clues(&grid) >= 35);
        assert!(clues(&grid) <= 81);
    }
}

#[test]
fn generated_puzzle_can_be_solved() {
    for _ in 0..5 {
        let grid = generate();
        let found = solve(grid, true, false, None);
        assert_eq!(found.len(), 1);
        assert!(is_solved(&found[0]));
        assert!(extends(&grid, &found[0]));
    }
}

#[test]
fn generated_puzzle_passes_the_bounded_uniqueness_check() {
    for _ in 0..5 {
        let grid = generate();
        assert!(solve(grid, false, true, Some(PROBE_LIMIT)).len() <= 1);
    }
}

#[test]
fn removal_order_is_shuffled() {
    let mut some_early_cell_kept = false;
    for _ in 0..12 {
        let grid = generate();
        if grid[..4].iter().any(|&v| v != 0) {
            some_early_cell_kept = true;
        }
    }
    assert!(some_early_cell_kept);
}

#[test]
fn generated_puzzles_differ() {
    let first = generate();
    let mut differs = false;
    for _ in 0..5 {
        if generate() != first {
            differs = true;
        }
    }
    assert!(differs);
}

#[test]
fn candidate_is_kept_where_a_solution_remains() {
    let mut grid: Cells = [0; 81];
    assert!(place_candidate(&mut grid, 0, 5));
    let mut expected: Cells = [0; 81];
    expected[0] = 5;
    assert_eq!(grid, expected);
    assert!(place_candidate(&mut grid, 80, 5));
    expected[80] = 5;
    assert_eq!(grid, expected);
}

#[test]
fn candidate_is_dropped_where_no_solution_remains() {
    let mut grid: Cells = [0; 81];
    for column in 0..8 {
        grid[column] = (column + 1) as u8;
    }
    let before = grid;
    assert!(!place_candidate(&mut grid, 17, 9));
    assert_eq!(grid, before);
    assert!(place_candidate(&mut grid, 8, 9));
    assert_eq!(grid[8], 9);
}

#[test]
fn last_cell_of_a_solved_grid_can_be_placed() {
    let mut grid = SOLVED;
    grid[40] = 0;
    assert!(place_candidate(&mut grid, 40, 9));
    assert_eq!(grid, SOLVED);
}

#[test]
fn cell_is_removed_where_the_solution_stays_unique() {
    let mut grid = SOLVED;
    assert!(remove_cell(&mut grid, 0));
    let mut expected = SOLVED;
    expected[0] = 0;
    assert_eq!(grid, expected);
}

#[test]
fn cell_is_restored_where_a_second_solution_appears() {
    let mut grid = CARVED_IN_INDEX_ORDER;
    assert!(!remove_cell(&mut grid, 58));
    assert_eq!(grid, CARVED_IN_INDEX_ORDER);
}

#[test]
fn removing_an_empty_cell_counts_as_removed() {
    let mut grid = CARVED_IN_INDEX_ORDER;
    assert!(remove_cell(&mut grid, 0));
    assert_eq!(grid, CARVED_IN_INDEX_ORDER);
}

#[test]
fn carving_in_index_order() {
    let order: Vec<usize> = (0..81).collect();
    let mut grid = SOLVED;
    remove_cells_in_order(&mut grid, &order, Some(35));
    assert_eq!(grid, CARVED_IN_INDEX_ORDER);
    assert_eq!(clues(&grid), 35);
    assert_eq!(solve(grid, false, true, None), vec![SOLVED]);
}

#[test]
fn carving_in_reverse_order() {
    let order: Vec<usize> = (0..81).rev().collect();
    let mut grid = SOLVED;
    remove_cells_in_order(&mut grid, &order, Some(35));
    assert_eq!(grid, CARVED_IN_REVERSE_ORDER);
    assert_eq!(clues(&grid), 35);
    assert_eq!(solve(grid, false, true, None), vec![SOLVED]);
}

#[test]
fn carving_without_a_quota_goes_through_the_whole_order() {
    let order: Vec<usize> = (0..81).collect();
    let mut grid = SOLVED;
    remove_cells_in_order(&mut grid, &order, None);
    assert_eq!(grid, CARVED_WITHOUT_QUOTA);
    assert_eq!(clues(&grid), 29);
    assert_eq!(solve(grid, false, true, None), vec![SOLVED]);
}

#[test]
fn carving_a_short_order() {
    let mut grid = SOLVED;
    remove_cells_in_order(&mut grid, &vec![0, 1, 2], None);
    let mut expected = SOLVED;
    expected[0] = 0;
    expected[1] = 0;
    expected[2] = 0;
    assert_eq!(grid, expected);
}

#[test]
fn carving_an_empty_order_changes_nothing() {
    let mut grid = SOLVED;
    remove_cells_in_order(&mut grid, &Vec::new(), Some(35));
    assert_eq!(grid, SOLVED);
}

#[test]
fn quota_of_one_removal() {
    let order: Vec<usize> = (0..81).collect();
    let mut grid = SOLVED;
    remove_cells_in_order(&mut grid, &order, Some(80));
    let mut expected = SOLVED;
    expected[0] = 0;
    assert_eq!(grid, expected);
}

#[test]
fn target_of_all_clues_removes_nothing() {
    let order: Vec<usize> = (0..81).collect();
    let mut grid = SOLVED;
    remove_cells_in_order(&mut grid, &order, Some(81));
    assert_eq!(grid, SOLVED);
    let mut grid = CARVED_IN_INDEX_ORDER;
    remove_cells_in_order(&mut grid, &order, Some(81));
    assert_eq!(grid, CARVED_IN_INDEX_ORDER);
}

#[test]
fn quota_stops_the_removals_at_the_target() {
    let order: Vec<usize> = (0..81).collect();
    for target in [1u8, 20, 35, 60, 79, 80, 81] {
        let mut grid = SOLVED;
        remove_cells_in_order(&mut grid, &order, Some(target));
        assert!(clues(&grid) >= target as usize);
        assert!(extends(&grid, &SOLVED));
    }
    let mut grid = SOLVED;
    remove_cells_in_order(&mut grid, &order, Some(60));
    assert_eq!(clues(&grid), 60);
    let mut grid = SOLVED;
    remove_cells_in_order(&mut grid, &order, Some(1));
    assert_eq!(grid, CARVED_WITHOUT_QUOTA);
}

#[test]
fn random_removal_with_a_target_of_all_clues_removes_nothing() {
    let mut grid = SOLVED;
    remove_cells(&mut grid, Some(81));
    assert_eq!(grid, SOLVED);
}

#[test]
fn random_removal_keeps_the_wanted_clues() {
    for target in [35u8, 50, 80] {
        let mut grid = SOLVED;
        remove_cells(&mut grid, Some(target));
        assert!(clues(&grid) >= target as usize);
        assert!(extends(&grid, &SOLVED));
        assert!(solve(grid, false, true, Some(PROBE_LIMIT)).len() <= 1);
    }
    let mut grid = SOLVED;
    remove_cells(&mut grid, Some(80));
    assert_eq!(clues(&grid), 80);
}

#[test]
fn random_removal_without_a_target() {
    let mut grid = SOLVED;
    remove_cells(&mut grid, None);
    assert!(extends(&grid, &SOLVED));
    assert!(clues(&grid) < 81);
    let found = solve(grid, true, false, None);
    assert_eq!(found.len(), 1);
    assert!(is_solved(&found[0]));
    assert!(extends(&grid, &found[0]));
}

#[test]
fn first_phase_builds_a_solved_grid() {
    for _ in 0..5 {
        let grid = generate_valid_grid();
        assert!(is_solved(&grid));
    }
}

#[test]
fn first_phase_varies() {
    let first = generate_valid_grid();
    let mut differs = false;
    for _ in 0..5 {
        if generate_valid_grid() != first {
            differs = true;
        }
    }
    assert!(differs);
}

#[test]
fn repeated_cell_counts_each_time() {
    let mut grid = SOLVED;
    remove_cells_in_order(&mut grid, &vec![5, 5, 6], Some(79));
    let mut expected = SOLVED;
    expected[5] = 0;
    assert_eq!(grid, expected);
    let mut grid = SOLVED;
    remove_cells_in_order(&mut grid, &vec![5, 5, 6], Some(78));
    expected[6] = 0;
    assert_eq!(grid, expected);
}
