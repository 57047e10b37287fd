//! Construction of new puzzles.
//!
//! A puzzle is made in two phases. The first fills an empty grid cell by cell
//! with random digits, asking the solver after each digit whether the grid
//! can still be solved. The second empties cells of the solved grid in a
//! random order, asking the solver each time whether a second solution has
//! appeared.
//!
//! The random choices come from [`crate::random`]. Everything that follows a
//! choice is a function of its own, stated for every value of the choice.

use crate::random::{choose_digit, random_below, shuffle};
use crate::search::{
    empties, leaves, lemma_empties_clear, lemma_empties_of_full, search_result,
};
use crate::solver::{grids, solve};
use crate::theorems::{
    lemma_completion_digit_is_free, lemma_completions_are_solved,
    lemma_exhaustive_check_is_exact, lemma_first_solution, lemma_free_digit_keeps_consistent,
    lemma_full_grid_is_its_own_result, lemma_full_search_finds_all, lemma_part_of_solved_grid,
    lemma_pattern_grid_is_solved, lemma_results_complete_the_grid, lemma_uniqueness_check,
    pattern_grid,
};
use crate::utils::{
    completes, consistent, extends, free, get_candidates, solved, well_formed, Cells,
};
use std::collections::HashSet;
use vstd::prelude::*;

verus! {

/// The number of backtracks that each question to the solver may cost.
pub const PROBE_LIMIT: u32 = 100;

/// The number of clues that a new puzzle aims for.
pub const DESIRED_CLUES: u8 = 35;

/// The number of digits that the first phase tries at random before it lets
/// the solver fill the remaining cells.
pub const PLACEMENT_BUDGET: u32 = 100000;

/// Some solved grid extends `g`.
pub open spec fn solvable(g: Seq<u8>) -> bool {
    exists|s: Seq<u8>| #[trigger] extends(g, s) && solved(s)
}

/// `p` is `g` with some of its cells emptied.
pub open spec fn thins(g: Seq<u8>, p: Seq<u8>) -> bool {
    &&& p.len() == g.len()
    &&& forall|i: int| 0 <= i < g.len() ==> #[trigger] p[i] == g[i] || p[i] == 0
}

/// The cells of a grid in index order.
pub open spec fn all_cells() -> Seq<usize> {
    Seq::new(81, |i: int| i as usize)
}

/// `order` lists every cell of the grid once.
pub open spec fn is_cell_order(order: Seq<usize>) -> bool {
    order.to_multiset() == all_cells().to_multiset()
}

/// After `removed` removals the second phase has emptied as many cells as
/// the wanted number of clues allows: one more would leave fewer clues than
/// wanted, on a grid that was full.
pub open spec fn quota_met(removed: nat, desired_clue_threshold: Option<u8>) -> bool {
    desired_clue_threshold matches Some(t) && removed >= 81 - t
}

/// The grid that the second phase leaves: the cells of `order` are emptied
/// one after the other. A cell stays filled where the bounded uniqueness
/// check finds two solutions without it. No cell is touched once the quota
/// is met, so a full grid never keeps fewer clues than wanted.
pub open spec fn after_removals(
    g: Seq<u8>,
    order: Seq<usize>,
    removed: nat,
    desired_clue_threshold: Option<u8>,
) -> Seq<u8>
    decreases order.len(),
{
    if order.len() == 0 || quota_met(removed, desired_clue_threshold) {
        g
    } else {
        let cleared = g.update(order[0] as int, 0);
        if search_result(cleared, false, true, Some(PROBE_LIMIT)).len() > 1 {
            after_removals(g, order.skip(1), removed, desired_clue_threshold)
        } else {
            after_removals(cleared, order.skip(1), removed + 1, desired_clue_threshold)
        }
    }
}

/// `p` is what the second phase makes of the solved grid `s` for some order
/// of the cells.
pub open spec fn carved_from(p: Seq<u8>, s: Seq<u8>) -> bool {
    exists|order: Seq<usize>|
        is_cell_order(order) && p == #[trigger] after_removals(s, order, 0, Some(DESIRED_CLUES))
}

/// The second phase only empties cells, and no more of them than the quota
/// allows.
pub proof fn lemma_removals_thin(
    g: Seq<u8>,
    order: Seq<usize>,
    removed: nat,
    desired_clue_threshold: Option<u8>,
)
    requires
        g.len() == 81,
        forall|k: int| 0 <= k < order.len() ==> #[trigger] order[k] < 81,
    ensures
        thins(g, after_removals(g, order, removed, desired_clue_threshold)),
        desired_clue_threshold matches Some(t) ==> (removed <= 81 - t ==> empties(
            after_removals(g, order, removed, desired_clue_threshold),
        ) + removed <= empties(g) + (81 - t)),
    decreases order.len(),
{
    if order.len() > 0 && !quota_met(removed, desired_clue_threshold) {
        let i = order[0] as int;
        let cleared = g.update(i, 0);
        let rest = order.skip(1);
        assert forall|k: int| 0 <= k < rest.len() implies #[trigger] rest[k] < 81 by {
            assert(rest[k] == order[k + 1]);
        }
        lemma_empties_clear(g, i);
        if search_result(cleared, false, true, Some(PROBE_LIMIT)).len() > 1 {
            lemma_removals_thin(g, rest, removed, desired_clue_threshold);
        } else {
            lemma_removals_thin(cleared, rest, removed + 1, desired_clue_threshold);
        }
    }
}

/// What the second phase leaves passes the bounded uniqueness check, unless
/// the phase emptied no cell at all.
pub proof fn lemma_removals_pass_the_check(
    g: Seq<u8>,
    order: Seq<usize>,
    removed: nat,
    desired_clue_threshold: Option<u8>,
)
    ensures
        after_removals(g, order, removed, desired_clue_threshold) == g || search_result(
            after_removals(g, order, removed, desired_clue_threshold),
            false,
            true,
            Some(PROBE_LIMIT),
        ).len() <= 1,
    decreases order.len(),
{
    if order.len() > 0 && !quota_met(removed, desired_clue_threshold) {
        let cleared = g.update(order[0] as int, 0);
        let rest = order.skip(1);
        if search_result(cleared, false, true, Some(PROBE_LIMIT)).len() > 1 {
            lemma_removals_pass_the_check(g, rest, removed, desired_clue_threshold);
        } else {
            lemma_removals_pass_the_check(cleared, rest, removed + 1, desired_clue_threshold);
        }
    }
}

/// Every entry of an order of the cells is a cell.
pub proof fn lemma_cell_order_in_range(order: Seq<usize>)
    requires
        is_cell_order(order),
    ensures
        order.len() == 81,
        forall|k: int| 0 <= k < order.len() ==> #[trigger] order[k] < 81,
{
    broadcast use vstd::seq_lib::to_multiset_contains;

    vstd::seq_lib::to_multiset_len(order);
    vstd::seq_lib::to_multiset_len(all_cells());
    assert forall|k: int| 0 <= k < order.len() implies #[trigger] order[k] < 81 by {
        assert(order.contains(order[k]));
        assert(order.to_multiset().count(order[k]) > 0);
        assert(all_cells().contains(order[k]));
    }
}

/// A grid carved from a solved grid is a puzzle: the solved grid extends it,
/// its cells do not conflict, and it keeps the wanted number of clues.
pub proof fn lemma_carved_grid_is_puzzle(p: Seq<u8>, s: Seq<u8>)
    requires
        solved(s),
        carved_from(p, s),
    ensures
        extends(p, s),
        solvable(p),
        well_formed(p),
        consistent(p),
        empties(p) <= 81 - DESIRED_CLUES,
        search_result(p, true, false, None).len() == 1,
        (forall|t: Seq<u8>| completes(p, t) ==> t == s) ==> search_result(p, true, false, None)
            == seq![s],
        search_result(p, false, true, Some(PROBE_LIMIT)).len() <= 1,
{
    let order = choose|order: Seq<usize>|
        is_cell_order(order) && p == #[trigger] after_removals(s, order, 0, Some(DESIRED_CLUES));
    lemma_cell_order_in_range(order);
    lemma_removals_thin(s, order, 0, Some(DESIRED_CLUES));
    assert(s.take(81) =~= s);
    lemma_empties_of_full(s, 81);
    assert(extends(p, s));
    lemma_part_of_solved_grid(p, s);
    lemma_first_solution(p, s);
    lemma_removals_pass_the_check(s, order, 0, Some(DESIRED_CLUES));
    if p == s {
        lemma_full_grid_is_its_own_result(s, false, true, Some(PROBE_LIMIT));
    }
}

/// A puzzle on which the bounded uniqueness check runs to the end of the tree
/// has exactly one solution: the uniqueness check without a limit returns the
/// solved grid from which the puzzle was carved, and nothing else.
pub proof fn lemma_checked_puzzle_is_unique(p: Seq<u8>, s: Seq<u8>)
    requires
        solved(s),
        carved_from(p, s),
        leaves(p).len() <= PROBE_LIMIT,
    ensures
        search_result(p, false, true, None) == seq![s],
        forall|t: Seq<u8>| completes(p, t) ==> t == s,
{
    lemma_carved_grid_is_puzzle(p, s);
    lemma_exhaustive_check_is_exact(p, PROBE_LIMIT);
    lemma_uniqueness_check(p);
    lemma_full_search_finds_all(p, s);
    lemma_results_complete_the_grid(p, false, true, None, 0);
    assert(search_result(p, false, true, None) =~= seq![s]);
}

/// The element that the set hands out at position `n` when it is walked.
fn nth_index(indices: &HashSet<usize>, n: usize) -> (index: usize)
    requires
        n < indices@.len(),
    ensures
        indices@.contains(index),
{
    broadcast use vstd::std_specs::hash::group_hash_axioms;

    let mut k: usize = 0;
    for x in it: indices.iter()
        invariant
            k == it.index(),
            k <= n < indices@.len(),
            it.seq().unref().to_set() == indices@,
            it.seq().len() == indices@.len(),
    {
        if k == n {
            assert(it.seq().unref()[k as int] == *x);
            assert(it.seq().unref().contains(*x));
            return *x;
        }
        k += 1;
    }
    // Not reached: the walk hands out more than `n` elements.
    0
}

/// Writes `candidate` into cell `index` and asks the solver, within
/// `PROBE_LIMIT` backtracks, for a solution of the grid. The digit stays
/// where the solver finds one; else the cell is emptied again.
pub fn place_candidate(grid: &mut Cells, index: usize, candidate: u8) -> (kept: bool)
    requires
        index < 81,
    ensures
        kept == (search_result(
            old(grid)@.update(index as int, candidate),
            true,
            false,
            Some(PROBE_LIMIT),
        ).len() > 0),
        kept ==> final(grid)@ == old(grid)@.update(index as int, candidate),
        !kept ==> final(grid)@ == old(grid)@.update(index as int, 0),
{
    grid[index] = candidate;
    let solutions = solve(*grid, true, false, Some(PROBE_LIMIT));
    assert(grids(solutions@).len() == solutions@.len());
    if solutions.len() == 0 {
        grid[index] = 0;
        assert(grid@ =~= old(grid)@.update(index as int, 0));
        false
    } else {
        true
    }
}

/// Builds a solved grid at random. Cells and digits are drawn at random and
/// kept where the bounded search still finds a solution. Should
/// `PLACEMENT_BUDGET` draws not fill the grid, the solver fills what is left.
pub fn generate_valid_grid() -> (grid: Cells)
    ensures
        solved(grid@),
{
    broadcast use vstd::std_specs::hash::group_hash_axioms;

    let mut rng = rand::thread_rng();
    let mut grid: Cells = [0;81];
    let mut indices: HashSet<usize> = HashSet::new();
    for i in 0..81usize
        invariant
            indices@.finite(),
            forall|j: usize| indices@.contains(j) <==> j < i,
    {
        indices.insert(i);
    }
    let ghost mut witness = pattern_grid();
    proof {
        lemma_pattern_grid_is_solved();
    }
    let mut attempts: u32 = PLACEMENT_BUDGET;
    while indices.len() > 0 && attempts > 0
        invariant
            indices@.finite(),
            forall|j: usize| indices@.contains(j) <==> j < 81 && grid@[j as int] == 0,
            solved(witness),
            extends(grid@, witness),
        decreases attempts,
    {
        attempts -= 1;
        // Pick a random empty cell.
        let n = random_below(&mut rng, indices.len());
        let index = nth_index(&indices, n);
        // Pick a random candidate for it. There is one: the solved grid that
        // extends the current grid holds a free digit in every empty cell.
        let candidates = get_candidates(&grid, index);
        let ghost before = grid@;
        proof {
            lemma_part_of_solved_grid(before, witness);
            assert(free(before, index as int, witness[index as int])) by {
                lemma_completion_digit_is_free(before, index as int, witness);
            }
            assert(candidates@.contains(witness[index as int]));
        }
        let candidate = choose_digit(&candidates, &mut rng).unwrap();
        // Keep the digit if the grid can still be solved.
        if place_candidate(&mut grid, index, candidate) {
            indices.remove(&index);
            proof {
                let probe = search_result(grid@, true, false, Some(PROBE_LIMIT));
                lemma_free_digit_keeps_consistent(before, index as int, candidate);
                lemma_results_complete_the_grid(grid@, true, false, Some(PROBE_LIMIT), 0);
                lemma_completions_are_solved(grid@, probe[0]);
                witness = probe[0];
            }
        } else {
            assert(grid@ =~= before);
        }
    }
    if indices.len() > 0 {
        // Out of draws: the grid can be solved, so the search fills the rest.
        proof {
            lemma_part_of_solved_grid(grid@, witness);
            lemma_first_solution(grid@, witness);
            lemma_completions_are_solved(grid@, search_result(grid@, true, false, None)[0]);
        }
        let solutions = solve(grid, true, false, None);
        assert(grids(solutions@).len() == solutions@.len());
        assert(grids(solutions@)[0] == solutions@[0]@);
        grid = solutions[0];
    } else {
        proof {
            indices@.lemma_len0_is_empty();
            assert forall|j: int| 0 <= j < 81 implies grid@[j] == witness[j] by {
                assert(!indices@.contains(j as usize));
            }
            assert(grid@ =~= witness);
        }
    }
    grid
}

/// Empties cell `index` and asks the solver, within `PROBE_LIMIT`
/// backtracks, whether the grid has two solutions now. The cell stays empty
/// unless the solver finds two; else it gets its value back.
pub fn remove_cell(grid: &mut Cells, index: usize) -> (removed: bool)
    requires
        index < 81,
    ensures
        removed == (search_result(
            old(grid)@.update(index as int, 0),
            false,
            true,
            Some(PROBE_LIMIT),
        ).len() <= 1),
        removed ==> final(grid)@ == old(grid)@.update(index as int, 0),
        !removed ==> final(grid)@ == old(grid)@,
{
    let old_value = grid[index];
    grid[index] = 0;
    let solutions = solve(*grid, false, true, Some(PROBE_LIMIT));
    assert(grids(solutions@).len() == solutions@.len());
    if solutions.len() > 1 {
        // The solution is no longer unique: put the value back.
        grid[index] = old_value;
        assert(grid@ =~= old(grid)@);
        false
    } else {
        true
    }
}

/// The second phase for a given order of the cells: empties the cells of
/// `order` one after the other and keeps a cell filled where the bounded
/// uniqueness check finds two solutions without it. Once
/// `81 - desired_clue_threshold` cells are emptied no further cell is
/// touched, so that a full grid keeps at least the wanted number of clues.
pub fn remove_cells_in_order(
    grid: &mut Cells,
    order: &Vec<usize>,
    desired_clue_threshold: Option<u8>,
)
    requires
        forall|k: int| 0 <= k < order@.len() ==> #[trigger] order@[k] < 81,
        desired_clue_threshold matches Some(t) ==> t <= 81,
    ensures
        final(grid)@ == after_removals(old(grid)@, order@, 0, desired_clue_threshold),
        thins(old(grid)@, final(grid)@),
        desired_clue_threshold matches Some(t) ==> empties(final(grid)@) <= empties(old(grid)@)
            + (81 - t),
{
    let mut counter: usize = 0;
    let mut k: usize = 0;
    proof {
        assert(order@.skip(0) =~= order@);
        lemma_removals_thin(grid@, order@, 0, desired_clue_threshold);
    }
    while k < order.len()
        invariant
            k <= order@.len(),
            counter <= k,
            forall|m: int| 0 <= m < order@.len() ==> #[trigger] order@[m] < 81,
            desired_clue_threshold matches Some(t) ==> t <= 81,
            after_removals(grid@, order@.skip(k as int), counter as nat, desired_clue_threshold)
                == after_removals(old(grid)@, order@, 0, desired_clue_threshold),
            thins(old(grid)@, after_removals(old(grid)@, order@, 0, desired_clue_threshold)),
            desired_clue_threshold matches Some(t) ==> empties(
                after_removals(old(grid)@, order@, 0, desired_clue_threshold),
            ) <= empties(old(grid)@) + (81 - t),
        decreases order@.len() - k,
    {
        // Stop before a cell is touched once enough cells are emptied.
        if let Some(threshold) = desired_clue_threshold {
            if counter >= (81 - threshold) as usize {
                return ;
            }
        }
        let ghost pending = order@.skip(k as int);
        proof {
            assert(pending[0] == order@[k as int]);
            assert(pending.skip(1) =~= order@.skip(k + 1));
        }
        if remove_cell(grid, order[k]) {
            counter += 1;
        }
        k += 1;
    }
    proof {
        assert(order@.skip(k as int).len() == 0);
    }
}

/// The second phase: empties cells of the grid in a random order, as
/// `remove_cells_in_order` does for that order.
pub fn remove_cells(grid: &mut Cells, desired_clue_threshold: Option<u8>)
    requires
        desired_clue_threshold matches Some(t) ==> t <= 81,
    ensures
        exists|order: Seq<usize>|
            is_cell_order(order) && final(grid)@ == #[trigger] after_removals(
                old(grid)@,
                order,
                0,
                desired_clue_threshold,
            ),
        thins(old(grid)@, final(grid)@),
        desired_clue_threshold matches Some(t) ==> empties(final(grid)@) <= empties(old(grid)@)
            + (81 - t),
{
    let mut rng = rand::thread_rng();
    let mut indices: Vec<usize> = Vec::new();
    for i in 0..81usize
        invariant
            indices@ == all_cells().take(i as int),
    {
        indices.push(i);
        assert(indices@ =~= all_cells().take(i + 1));
    }
    assert(indices@ =~= all_cells());
    shuffle(&mut indices, &mut rng);
    proof {
        lemma_cell_order_in_range(indices@);
    }
    remove_cells_in_order(grid, &indices, desired_clue_threshold);
}

/// Makes a new puzzle: a random solved grid from which cells were emptied in
/// a random order, as long as the bounded uniqueness check allowed it and at
/// most until `DESIRED_CLUES` clues were left.
pub fn generate() -> (grid: Cells)
    ensures
        exists|s: Seq<u8>| solved(s) && #[trigger] carved_from(grid@, s),
        solvable(grid@),
        well_formed(grid@),
        consistent(grid@),
        empties(grid@) <= 81 - DESIRED_CLUES,
        search_result(grid@, true, false, None).len() == 1,
        search_result(grid@, false, true, Some(PROBE_LIMIT)).len() <= 1,
{
    let mut grid = generate_valid_grid();
    let ghost s = grid@;
    remove_cells(&mut grid, Some(DESIRED_CLUES));
    proof {
        assert(carved_from(grid@, s));
        lemma_carved_grid_is_puzzle(grid@, s);
    }
    grid
}

} // verus!
