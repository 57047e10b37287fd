//! A puzzle together with the player's working copy of it.

use crate::generator::{carved_from, generate, solvable, DESIRED_CLUES};
use crate::search::{empties, search_result};
use crate::solver::{grids, solve};
use crate::theorems::{
    lemma_completions_are_solved, lemma_first_solution, lemma_part_of_solved_grid,
};
use crate::utils::{completes, consistent, extends, solved, verify, well_formed, Cells};
use vstd::prelude::*;

verus! {

/// A generated puzzle (`initial`) and the grid that the player edits
/// (`current`). The two grids never share storage.
pub struct Puzzle {
    initial_cells: Cells,
    current_cells: Cells,
}

impl Puzzle {
    /// The clues of the puzzle.
    pub closed spec fn initial(&self) -> Seq<u8> {
        self.initial_cells@
    }

    /// The grid as the player has filled it in.
    pub closed spec fn current(&self) -> Seq<u8> {
        self.current_cells@
    }

    /// The clues of a puzzle can always be completed to a solved grid.
    #[verifier::type_invariant]
    spec fn has_solution(&self) -> bool {
        solvable(self.initial_cells@)
    }

    /// Generates a puzzle; the working copy starts as a copy of its clues.
    pub fn new() -> (puzzle: Puzzle)
        ensures
            puzzle.current() == puzzle.initial(),
            exists|s: Seq<u8>| solved(s) && #[trigger] carved_from(puzzle.initial(), s),
            solvable(puzzle.initial()),
            well_formed(puzzle.initial()),
            consistent(puzzle.initial()),
            empties(puzzle.initial()) <= 81 - DESIRED_CLUES,
    {
        let grid = generate();
        let ghost s = choose|s: Seq<u8>| solved(s) && #[trigger] carved_from(grid@, s);
        let puzzle = Puzzle { initial_cells: grid, current_cells: grid };
        assert(carved_from(puzzle.initial(), s));
        puzzle
    }

    /// The working copy, for display.
    pub fn cells(&self) -> (cells: &Cells)
        ensures
            cells@ == self.current(),
    {
        &self.current_cells
    }

    /// Replaces the puzzle by a newly generated one and resets the working
    /// copy to its clues.
    pub fn generate(&mut self)
        ensures
            final(self).current() == final(self).initial(),
            exists|s: Seq<u8>| solved(s) && #[trigger] carved_from(final(self).initial(), s),
            solvable(final(self).initial()),
            well_formed(final(self).initial()),
            consistent(final(self).initial()),
            empties(final(self).initial()) <= 81 - DESIRED_CLUES,
    {
        let grid = generate();
        let ghost s = choose|s: Seq<u8>| solved(s) && #[trigger] carved_from(grid@, s);
        self.initial_cells = grid;
        self.current_cells = grid;
        assert(carved_from(self.initial(), s));
    }

    /// Enters the player's value for one cell of the working copy; `0`
    /// empties the cell. The clues stay as they are.
    pub fn set_cell(&mut self, index: usize, value: u8)
        requires
            index < 81,
            value <= 9,
        ensures
            final(self).current() == old(self).current().update(index as int, value),
            final(self).initial() == old(self).initial(),
    {
        proof {
            use_type_invariant(&*self);
        }
        self.current_cells[index] = value;
    }

    /// Checks the working copy against the rules: `true` exactly when no
    /// filled cell repeats a value of its row, column or box.
    pub fn verify(&self) -> (ok: bool)
        ensures
            ok == consistent(self.current()),
    {
        verify(&self.current_cells)
    }

    /// Replaces the working copy by the first solution that the search finds
    /// for the clues.
    pub fn solve(&mut self)
        ensures
            final(self).initial() == old(self).initial(),
            seq![final(self).current()] == search_result(old(self).initial(), true, false, None),
            completes(old(self).initial(), final(self).current()),
            solved(final(self).current()),
    {
        proof {
            use_type_invariant(&*self);
            let clues = self.initial_cells@;
            let s = choose|s: Seq<u8>| #[trigger] extends(clues, s) && solved(s);
            lemma_part_of_solved_grid(clues, s);
            lemma_first_solution(clues, s);
            lemma_completions_are_solved(clues, search_result(clues, true, false, None)[0]);
        }
        let grid: Cells = self.initial_cells;
        let solutions = solve(grid, true, false, None);
        assert(grids(solutions@).len() == solutions@.len());
        assert(grids(solutions@)[0] == solutions@[0]@);
        self.current_cells = solutions[0];
        assert(seq![self.current_cells@] =~= grids(solutions@));
    }
}

} // verus!
