use sudoku::solver::{generate_step, try_backtrack, Step};
use sudoku::utils::Cells;

const SOLVED: Cells = [
    1, 2, 3, 4, 5, 6, 7, 8, 9, //
    4, 5, 6, 7, 8, 9, 1, 2, 3, //
    7, 8, 9, 1, 2, 3, 4, 5, 6, //
    2, 3, 4, 5, 6, 7, 8, 9, 1, //
    5, 6, 7, 8, 9, 1, 2, 3, 4, //
    8, 9, 1, 2, 3, 4, 5, 6, 7, //
    3, 4, 5, 6, 7, 8, 9, 1, 2, //
    6, 7, 8, 9, 1, 2, 3, 4, 5, //
    9, 1, 2, 3, 4, 5, 6, 7, 8,
];

fn step(index: usize, candidates: &[u8]) -> Step {
    Step { index, candidates: candidates.to_vec() }
}

fn shape(steps: &[Step]) -> Vec<(usize, Vec<u8>)> {
    steps.iter().map(|s| (s.index, s.candidates.clone())).collect()
}

#[test]
fn full_grid_has_no_next_step() {
    assert!(generate_step(&SOLVED).is_none());
}

#[test]
fn empty_grid_branches_on_the_first_cell() {
    let next = generate_step(&[0; 81]).unwrap();
    assert_eq!(next.index, 0);
    assert_eq!(next.candidates, vec![1, 2, 3, 4, 5, 6, 7, 8, 9]);
}

#[test]
fn ties_go_to_the_lowest_index() {
    let mut grid: Cells = [0; 81];
    grid[0] = 5;
    let next = generate_step(&grid).unwrap();
    assert_eq!(next.index, 1);
    assert_eq!(next.candidates, vec![1, 2, 3, 4, 6, 7, 8, 9]);
    let mut grid = SOLVED;
    grid[40] = 0;
    grid[3] = 0;
    let next = generate_step(&grid).unwrap();
    assert_eq!(next.index, 3);
    assert_eq!(next.candidates, vec![4]);
}

#[test]
fn cell_with_fewest_candidates_is_chosen() {
    let mut grid: Cells = [0; 81];
    for column in 0..8 {
        grid[column] = (column + 1) as u8;
    }
    let next = generate_step(&grid).unwrap();
    assert_eq!(next.index, 8);
    assert_eq!(next.candidates, vec![9]);
}

#[test]
fn dead_end_is_a_step_without_candidates() {
    let mut grid: Cells = [0; 81];
    for column in 0..8 {
        grid[column] = (column + 1) as u8;
    }
    grid[17] = 9;
    let next = generate_step(&grid).unwrap();
    assert_eq!(next.index, 8);
    assert_eq!(next.candidates, Vec::<u8>::new());
}

#[test]
fn empty_stack_ends_the_search() {
    let mut grid = SOLVED;
    let mut steps: Vec<Step> = Vec::new();
    assert!(!try_backtrack(&mut grid, &mut steps));
    assert!(steps.is_empty());
    assert_eq!(grid, SOLVED);
}

#[test]
fn exhausted_stack_is_emptied() {
    let mut grid: Cells = [0; 81];
    grid[0] = 4;
    grid[3] = 7;
    grid[50] = 2;
    grid[80] = 6;
    let mut steps = vec![step(0, &[]), step(3, &[]), step(50, &[])];
    assert!(!try_backtrack(&mut grid, &mut steps));
    assert!(steps.is_empty());
    let mut expected: Cells = [0; 81];
    expected[80] = 6;
    assert_eq!(grid, expected);
}

#[test]
fn top_step_takes_its_largest_candidate() {
    let mut grid: Cells = [0; 81];
    grid[0] = 9;
    grid[3] = 7;
    let mut steps = vec![step(0, &[1, 2]), step(3, &[2, 5])];
    assert!(try_backtrack(&mut grid, &mut steps));
    assert_eq!(shape(&steps), vec![(0, vec![1, 2]), (3, vec![2])]);
    let mut expected: Cells = [0; 81];
    expected[0] = 9;
    expected[3] = 5;
    assert_eq!(grid, expected);
}

#[test]
fn exhausted_steps_above_are_dropped() {
    let mut grid: Cells = [0; 81];
    grid[0] = 4;
    grid[3] = 7;
    let mut steps = vec![step(0, &[1]), step(3, &[])];
    assert!(try_backtrack(&mut grid, &mut steps));
    assert_eq!(shape(&steps), vec![(0, vec![])]);
    let mut expected: Cells = [0; 81];
    expected[0] = 1;
    assert_eq!(grid, expected);
}

#[test]
fn steps_below_are_kept() {
    let mut grid = SOLVED;
    let mut steps =
        vec![step(10, &[1, 2, 3]), step(20, &[]), step(30, &[6, 8]), step(40, &[]), step(50, &[])];
    assert!(try_backtrack(&mut grid, &mut steps));
    assert_eq!(shape(&steps), vec![(10, vec![1, 2, 3]), (20, vec![]), (30, vec![6])]);
    let mut expected = SOLVED;
    expected[30] = 8;
    expected[40] = 0;
    expected[50] = 0;
    assert_eq!(grid, expected);
}

#[test]
fn backtracking_step_by_step_runs_the_stack_down() {
    let mut grid: Cells = [0; 81];
    grid[0] = 3;
    grid[1] = 4;
    let mut steps = vec![step(0, &[1, 2]), step(1, &[3])];
    assert!(try_backtrack(&mut grid, &mut steps));
    assert_eq!((grid[0], grid[1]), (3, 3));
    assert_eq!(shape(&steps), vec![(0, vec![1, 2]), (1, vec![])]);
    assert!(try_backtrack(&mut grid, &mut steps));
    assert_eq!((grid[0], grid[1]), (2, 0));
    assert_eq!(shape(&steps), vec![(0, vec![1])]);
    assert!(try_backtrack(&mut grid, &mut steps));
    assert_eq!((grid[0], grid[1]), (1, 0));
    assert_eq!(shape(&steps), vec![(0, vec![])]);
    assert!(!try_backtrack(&mut grid, &mut steps));
    assert_eq!(grid, [0u8; 81]);
    assert!(steps.is_empty());
}

#[test]
fn step_on_the_cell_of_a_dropped_step_keeps_its_digit() {
    let mut grid: Cells = [0; 81];
    grid[7] = 9;
    let mut steps = vec![step(7, &[2, 4]), step(7, &[])];
    assert!(try_backtrack(&mut grid, &mut steps));
    assert_eq!(shape(&steps), vec![(7, vec![2])]);
    let mut expected: Cells = [0; 81];
    expected[7] = 4;
    assert_eq!(grid, expected);
}
