use sudoku::solver::solve;
use sudoku::utils::{verify, Cells};
use sudoku::Puzzle;

fn clues(grid: &Cells) -> usize {
    grid.iter().filter(|&&v| v != 0).count()
}

#[test]
fn new_puzzle_shows_its_clues() {
    let puzzle = Puzzle::new();
    let cells = *puzzle.cells();
    assert!(cells.iter().all(|&v| v <= 9));
    assert!(clues(&cells) >= 35);
    assert!(puzzle.verify());
    assert!(verify(&cells));
}

#[test]
fn solving_fills_every_cell() {
    let mut puzzle = Puzzle::new();
    let clues_before = *puzzle.cells();
    puzzle.solve();
    let solved = *puzzle.cells();
    assert!(solved.iter().all(|&v| (1..=9).contains(&v)));
    assert!(puzzle.verify());
    for index in 0..81 {
        if clues_before[index] != 0 {
            assert_eq!(solved[index], clues_before[index]);
        }
    }
    assert_eq!(solve(clues_before, true, false, None), vec![solved]);
}

#[test]
fn solving_twice_gives_the_same_grid() {
    let mut puzzle = Puzzle::new();
    puzzle.solve();
    let first = *puzzle.cells();
    puzzle.solve();
    assert_eq!(*puzzle.cells(), first);
}

#[test]
fn edits_do_not_touch_the_clues() {
    let mut puzzle = Puzzle::new();
    let clues_before = *puzzle.cells();
    puzzle.solve();
    let solved = *puzzle.cells();
    for index in 0..81 {
        puzzle.set_cell(index, 0);
    }
    assert_eq!(*puzzle.cells(), [0u8; 81]);
    assert!(puzzle.verify());
    puzzle.solve();
    assert_eq!(*puzzle.cells(), solved);
    assert_eq!(solve(clues_before, true, false, None), vec![solved]);
}

#[test]
fn conflicting_edit_fails_verification() {
    let mut puzzle = Puzzle::new();
    puzzle.solve();
    let solved = *puzzle.cells();
    let wrong = if solved[0] == 9 { 1 } else { solved[0] + 1 };
    puzzle.set_cell(0, wrong);
    assert_eq!(puzzle.cells()[0], wrong);
    assert!(!puzzle.verify());
    puzzle.set_cell(0, 0);
    assert!(puzzle.verify());
    puzzle.set_cell(0, solved[0]);
    assert!(puzzle.verify());
    assert_eq!(*puzzle.cells(), solved);
}

#[test]
fn regenerating_resets_the_working_copy() {
    let mut puzzle = Puzzle::new();
    puzzle.solve();
    puzzle.generate();
    let cells = *puzzle.cells();
    assert!(clues(&cells) >= 35);
    assert!(cells.iter().any(|&v| v == 0) || clues(&cells) == 81);
    assert!(puzzle.verify());
    puzzle.solve();
    let solved = *puzzle.cells();
    for index in 0..81 {
        if cells[index] != 0 {
            assert_eq!(solved[index], cells[index]);
        }
    }
}
