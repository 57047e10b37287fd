//! Backtracking search for the solutions of a grid.
//!
//! The search keeps an explicit stack of decisions in place of recursion. Its
//! result is stated against the search tree of [`crate::search`].

use crate::search::{
    branch_cell, empties, explored, full, is_branch_cell, leaves, leaves_below,
    lemma_branch_cell_unique, lemma_empties_fill, lemma_largest_candidate,
    lemma_solutions_among_concat, search_result, solutions_among,
};
use crate::theorems::{lemma_full_search_finds_all, lemma_results_complete_the_grid};
use crate::utils::{candidates, candidates_upto, completes, get_candidates, Cells};
use vstd::prelude::*;

verus! {

/// One decision of the search: the cell that was filled, and the candidates
/// of that cell that have not been tried yet, ascending.
pub struct Step {
    pub index: usize,
    pub candidates: Vec<u8>,
}

/// The grids that a vector of cell arrays holds.
pub open spec fn grids(v: Seq<Cells>) -> Seq<Seq<u8>> {
    Seq::new(v.len(), |k: int| v[k]@)
}

/// The stack `steps` records how `g` was reached: each step filled the branch
/// cell of the grid below it with a candidate and kept the smaller ones.
pub open spec fn wf_stack(g: Seq<u8>, steps: Seq<Step>) -> bool
    decreases steps.len(),
{
    if steps.len() == 0 {
        g.len() == 81
    } else {
        let i = steps.last().index as int;
        &&& g.len() == 81
        &&& 0 <= i < 81
        &&& 1 <= g[i] <= 9
        &&& is_branch_cell(g.update(i, 0), i)
        &&& steps.last().candidates@ == candidates_upto(g.update(i, 0), i, (g[i] - 1) as nat)
        &&& wf_stack(g.update(i, 0), steps.drop_last())
    }
}

/// The leaves that the search still has to visit once it is done with the
/// subtree of `g`: those under the untried candidates of each step, the top
/// of the stack first.
pub open spec fn rest(g: Seq<u8>, steps: Seq<Step>) -> Seq<Seq<u8>>
    decreases steps.len(),
{
    if steps.len() == 0 {
        Seq::empty()
    } else {
        let i = steps.last().index as int;
        let parent = g.update(i, 0);
        leaves_below(parent, i, (g[i] - 1) as nat) + rest(parent, steps.drop_last())
    }
}

/// Picks the cell on which to branch: the empty cell with the fewest
/// candidates, the first such cell in index order. Returns the cell with its
/// candidates, or `None` where the grid has no empty cell.
pub fn generate_step(grid: &Cells) -> (step: Option<Step>)
    ensures
        step is None <==> full(grid@),
        step matches Some(s) ==> is_branch_cell(grid@, s.index as int) && s.candidates@
            == candidates(grid@, s.index as int),
{
    let mut first: usize = 0;
    while first < 81 && grid[first] != 0
        invariant
            first <= 81,
            forall|j: int| 0 <= j < first ==> #[trigger] grid@[j] != 0,
        decreases 81 - first,
    {
        first += 1;
    }
    if first == 81 {
        return None;
    }
    let mut best_cell_index: usize = first;
    let mut best_cell_candidates: Vec<u8> = get_candidates(grid, best_cell_index);
    for i in (first + 1)..81usize
        invariant
            first <= best_cell_index < i,
            grid@[best_cell_index as int] == 0,
            best_cell_candidates@ == candidates(grid@, best_cell_index as int),
            forall|j: int|
                0 <= j < i && grid@[j] == 0 ==> candidates(grid@, best_cell_index as int).len() <= (
                #[trigger] candidates(grid@, j)).len() && (j < best_cell_index ==> candidates(
                    grid@,
                    best_cell_index as int,
                ).len() < candidates(grid@, j).len()),
    {
        if grid[i] == 0 {
            let candidates = get_candidates(grid, i);
            if candidates.len() < best_cell_candidates.len() {
                best_cell_index = i;
                best_cell_candidates = candidates;
            }
        }
    }
    Some(Step { index: best_cell_index, candidates: best_cell_candidates })
}

/// Some step of `steps` above position `k` stands on cell `c`.
pub open spec fn dropped_at(steps: Seq<Step>, k: int, c: int) -> bool {
    exists|j: int| k < j < steps.len() && (#[trigger] steps[j]).index == c
}

/// Every step of a stack that records a search stands on a cell of the grid.
pub proof fn lemma_stack_cells_in_range(g: Seq<u8>, steps: Seq<Step>)
    requires
        wf_stack(g, steps),
    ensures
        forall|k: int| 0 <= k < steps.len() ==> (#[trigger] steps[k]).index < 81,
    decreases steps.len(),
{
    if steps.len() > 0 {
        let below = steps.drop_last();
        lemma_stack_cells_in_range(g.update(steps.last().index as int, 0), below);
        assert forall|k: int| 0 <= k < steps.len() implies (#[trigger] steps[k]).index < 81 by {
            if k < below.len() {
                assert(below[k] == steps[k]);
            }
        }
    }
}

/// Undoes decisions until one of them has an untried candidate, and takes
/// that candidate, the largest that is left. The steps above that decision
/// are dropped and their cells emptied; the steps below it and all other
/// cells stay as they are. Returns `false` when no step has an untried
/// candidate: the stack is empty then, which ends the search.
///
/// On a stack that records a search, the leaves under the taken candidate
/// are the next that the search has to visit.
pub fn try_backtrack(grid: &mut Cells, steps: &mut Vec<Step>) -> (more: bool)
    requires
        forall|k: int| 0 <= k < old(steps)@.len() ==> (#[trigger] old(steps)@[k]).index < 81,
    ensures
        more <==> exists|k: int|
            0 <= k < old(steps)@.len() && (#[trigger] old(steps)@[k]).candidates@.len() > 0,
        more ==> ({
            let k = final(steps)@.len() - 1;
            let taken = old(steps)@[k];
            &&& 0 <= k < old(steps)@.len()
            &&& taken.candidates@.len() > 0
            &&& forall|j: int|
                k < j < old(steps)@.len() ==> (#[trigger] old(steps)@[j]).candidates@.len() == 0
            &&& final(steps)@.take(k) == old(steps)@.take(k)
            &&& final(steps)@[k].index == taken.index
            &&& final(steps)@[k].candidates@ == taken.candidates@.drop_last()
            &&& final(grid)@[taken.index as int] == taken.candidates@.last()
            &&& forall|c: int|
                0 <= c < 81 && c != taken.index ==> #[trigger] final(grid)@[c] == (if dropped_at(
                    old(steps)@,
                    k,
                    c,
                ) {
                    0u8
                } else {
                    old(grid)@[c]
                })
        }),
        !more ==> final(steps)@.len() == 0,
        !more ==> forall|c: int|
            0 <= c < 81 ==> #[trigger] final(grid)@[c] == (if dropped_at(old(steps)@, -1, c) {
                0u8
            } else {
                old(grid)@[c]
            }),
        wf_stack(old(grid)@, old(steps)@) ==> wf_stack(final(grid)@, final(steps)@),
        wf_stack(old(grid)@, old(steps)@) && more ==> rest(old(grid)@, old(steps)@) == leaves(
            final(grid)@,
        ) + rest(final(grid)@, final(steps)@),
        wf_stack(old(grid)@, old(steps)@) && !more ==> rest(old(grid)@, old(steps)@) == Seq::<
            Seq<u8>,
        >::empty(),
{
    loop
        invariant
            steps@.len() <= old(steps)@.len(),
            steps@ == old(steps)@.take(steps@.len() as int),
            forall|k: int| 0 <= k < old(steps)@.len() ==> (#[trigger] old(steps)@[k]).index < 81,
            forall|j: int|
                steps@.len() <= j < old(steps)@.len() ==> (
                #[trigger] old(steps)@[j]).candidates@.len() == 0,
            forall|c: int|
                0 <= c < 81 ==> #[trigger] grid@[c] == (if dropped_at(
                    old(steps)@,
                    steps@.len() - 1,
                    c,
                ) {
                    0u8
                } else {
                    old(grid)@[c]
                }),
            wf_stack(old(grid)@, old(steps)@) ==> wf_stack(grid@, steps@) && rest(grid@, steps@)
                == rest(old(grid)@, old(steps)@),
        decreases steps@.len(),
    {
        let ghost g = grid@;
        let ghost stack = steps@;
        let ghost recorded = wf_stack(old(grid)@, old(steps)@);
        match steps.pop() {
            Some(mut step) => {
                let ghost m = stack.len() - 1;
                let ghost taken = step;
                let ghost i = step.index as int;
                let ghost parent = g.update(i, 0);
                let ghost tail = stack.drop_last();
                proof {
                    assert(step == stack.last());
                    assert(step == old(steps)@[m]);
                    assert(steps@ == tail);
                    assert(tail =~= old(steps)@.take(m));
                    if recorded {
                        lemma_largest_candidate(parent, i, (g[i] - 1) as nat);
                    }
                }
                match step.candidates.pop() {
                    Some(candidate) => {
                        // Take the next candidate; the step stays on the stack.
                        grid[step.index] = candidate;
                        steps.push(step);
                        proof {
                            assert(steps@.take(m) =~= old(steps)@.take(m));
                            assert(steps@[m] == step);
                            assert(step.candidates@ =~= taken.candidates@.drop_last());
                            if recorded {
                                assert(grid@ =~= parent.update(i, candidate));
                                assert(grid@.update(i, 0) =~= parent);
                                assert(steps@.drop_last() =~= tail);
                                assert(steps@.last() == step);
                                assert(rest(g, stack) =~= leaves(grid@) + rest(grid@, steps@));
                            }
                        }
                        return true;
                    },
                    None => {
                        // Nothing left to try here: empty the cell and drop the step.
                        grid[step.index] = 0;
                        proof {
                            assert forall|c: int| 0 <= c < 81 implies #[trigger] grid@[c] == (
                            if dropped_at(old(steps)@, m - 1, c) {
                                0u8
                            } else {
                                old(grid)@[c]
                            }) by {
                                if c == i {
                                    assert(old(steps)@[m].index == c);
                                } else if dropped_at(old(steps)@, m - 1, c) {
                                    let j = choose|j: int|
                                        m - 1 < j < old(steps)@.len() && (
                                        #[trigger] old(steps)@[j]).index == c;
                                    assert(m < j);
                                    assert(dropped_at(old(steps)@, m, c));
                                } else if dropped_at(old(steps)@, m, c) {
                                    let j = choose|j: int|
                                        m < j < old(steps)@.len() && (
                                        #[trigger] old(steps)@[j]).index == c;
                                    assert(m - 1 < j);
                                }
                            }
                            if recorded {
                                assert(grid@ =~= parent);
                                assert(rest(g, stack) =~= rest(parent, tail));
                            }
                        }
                    },
                }
            },
            None => {
                return false;
            },
        }
    }
}

/// Where a search has visited the leaves `seen`, with the leaves `tail` still
/// ahead, and one of its reasons to stop holds, the solutions among `seen`
/// are the result of the search.
proof fn lemma_search_stops(
    g: Seq<u8>,
    seen: Seq<Seq<u8>>,
    tail: Seq<Seq<u8>>,
    first_only: bool,
    two_suffice: bool,
    limit: Option<u32>,
)
    requires
        seen + tail == leaves(g),
        limit matches Some(l) ==> seen.len() <= l,
        first_only ==> solutions_among(seen).len() <= 1,
        two_suffice ==> solutions_among(seen).len() <= 2,
        ({
            ||| tail.len() == 0
            ||| (limit matches Some(l) && seen.len() == l)
            ||| (first_only && solutions_among(seen).len() == 1)
            ||| (two_suffice && solutions_among(seen).len() == 2)
        }),
    ensures
        search_result(g, first_only, two_suffice, limit) == solutions_among(seen),
{
    let all = explored(g, limit);
    let n = seen.len() as int;
    assert(seen.len() <= all.len());
    let ahead = all.skip(n);
    assert(all =~= seen + ahead);
    lemma_solutions_among_concat(seen, ahead);
    let found = solutions_among(all);
    let here = solutions_among(seen);
    assert(found == here + solutions_among(ahead));
    if tail.len() == 0 || (limit matches Some(l) && seen.len() == l) {
        assert(seen.len() == all.len());
        assert(ahead =~= Seq::<Seq<u8>>::empty());
        assert(found =~= here);
    } else {
        let cap = here.len() as int;
        assert(found.take(cap) =~= here);
        if found.len() == cap {
            assert(found =~= here);
        }
    }
}

/// What a search result says of the grids that hold it: each of them
/// completes the searched grid, and the flags cap their number.
proof fn lemma_found_grids(
    g: Seq<u8>,
    first_only: bool,
    two_suffice: bool,
    limit: Option<u32>,
    found: Seq<Cells>,
)
    requires
        g.len() == 81,
        grids(found) == search_result(g, first_only, two_suffice, limit),
    ensures
        forall|k: int| 0 <= k < found.len() ==> completes(g, #[trigger] found[k]@),
        first_only ==> found.len() <= 1,
        two_suffice ==> found.len() <= 2,
        limit is None && !first_only && !two_suffice ==> forall|s: Seq<u8>|
            completes(g, s) ==> grids(found).contains(s),
        limit is None ==> (found.len() > 0 <==> exists|s: Seq<u8>| completes(g, s)),
{
    assert(grids(found).len() == found.len());
    assert forall|k: int| 0 <= k < found.len() implies completes(g, #[trigger] found[k]@) by {
        assert(grids(found)[k] == found[k]@);
        lemma_results_complete_the_grid(g, first_only, two_suffice, limit, k);
    }
    if limit is None {
        assert forall|s: Seq<u8>| completes(g, s) implies search_result(
            g,
            first_only,
            two_suffice,
            limit,
        ).len() > 0 && (!first_only && !two_suffice ==> grids(found).contains(s)) by {
            lemma_full_search_finds_all(g, s);
        }
        if found.len() > 0 {
            assert(completes(g, found[0]@));
        }
    }
}

/// At each of its exits the search returns what its contract promises:
/// `found` holds the solutions among the leaves `seen`, the leaves `tail` are
/// still ahead, and one of the reasons to stop holds.
proof fn lemma_search_ends(
    g: Seq<u8>,
    seen: Seq<Seq<u8>>,
    tail: Seq<Seq<u8>>,
    first_only: bool,
    two_suffice: bool,
    limit: Option<u32>,
    found: Seq<Cells>,
)
    requires
        g.len() == 81,
        grids(found) == solutions_among(seen),
        seen + tail == leaves(g),
        limit matches Some(l) ==> seen.len() <= l,
        first_only ==> found.len() <= 1,
        two_suffice ==> found.len() <= 2,
        ({
            ||| tail.len() == 0
            ||| (limit matches Some(l) && seen.len() == l)
            ||| (first_only && found.len() == 1)
            ||| (two_suffice && found.len() == 2)
        }),
    ensures
        grids(found) == search_result(g, first_only, two_suffice, limit),
        forall|k: int| 0 <= k < found.len() ==> completes(g, #[trigger] found[k]@),
        limit is None && !first_only && !two_suffice ==> forall|s: Seq<u8>|
            completes(g, s) ==> grids(found).contains(s),
        limit is None ==> (found.len() > 0 <==> exists|s: Seq<u8>| completes(g, s)),
{
    assert(grids(found).len() == found.len());
    lemma_search_stops(g, seen, tail, first_only, two_suffice, limit);
    lemma_found_grids(g, first_only, two_suffice, limit, found);
}

/// Searches for the solutions of `grid`: the ways to fill its empty cells such
/// that no filled-in digit repeats a value of its row, column or box.
///
/// The search branches on the empty cell with the fewest candidates (the
/// first such cell) and tries the larger candidates first. Reaching a full
/// grid or a cell without candidates costs one backtrack.
///
/// * With `check_solvable` the search ends at the first solution.
/// * With `check_unique` it ends at the second solution.
/// * With a `backtrack_threshold` it ends after that many backtracks and
///   returns the solutions found until then.
///
/// Without a threshold the search ends when the tree is exhausted.
pub fn solve(
    grid: Cells,
    check_solvable: bool,
    check_unique: bool,
    backtrack_threshold: Option<u32>,
) -> (solutions: Vec<Cells>)
    ensures
        grids(solutions@) == search_result(
            grid@,
            check_solvable,
            check_unique,
            backtrack_threshold,
        ),
        forall|k: int| 0 <= k < solutions@.len() ==> completes(grid@, #[trigger] solutions@[k]@),
        check_solvable ==> solutions@.len() <= 1,
        check_unique ==> solutions@.len() <= 2,
        backtrack_threshold is None && !check_solvable && !check_unique ==> forall|s: Seq<u8>|
            completes(grid@, s) ==> grids(solutions@).contains(s),
        backtrack_threshold is None ==> (solutions@.len() > 0 <==> exists|s: Seq<u8>|
            completes(grid@, s)),
{
    let ghost g0 = grid@;
    let mut cells: Cells = grid;
    let mut solutions: Vec<Cells> = Vec::new();
    let mut steps: Vec<Step> = Vec::new();
    let mut backtracks: u32 = 0;
    // The leaves of the tree that the search has left behind.
    let ghost mut seen: Seq<Seq<u8>> = Seq::empty();
    proof {
        assert(seen + leaves(cells@) + rest(cells@, steps@) =~= leaves(g0));
        assert(grids(solutions@) =~= solutions_among(seen));
    }
    loop
        invariant
            g0 == grid@,
            wf_stack(cells@, steps@),
            seen + leaves(cells@) + rest(cells@, steps@) == leaves(g0),
            grids(solutions@) == solutions_among(seen),
            check_solvable ==> solutions@.len() == 0,
            check_unique ==> solutions@.len() <= 1,
            backtrack_threshold matches Some(l) ==> backtracks == seen.len() && backtracks <= l,
        decreases leaves(g0).len() - seen.len(), empties(cells@),
    {
        let ghost g = cells@;
        let ghost stack = steps@;
        assert(grids(solutions@).len() == solutions@.len());
        if let Some(limit) = backtrack_threshold {
            if backtracks >= limit {
                proof {
                    assert(seen + (leaves(g) + rest(g, stack)) =~= leaves(g0));
                    lemma_search_ends(
                        g0,
                        seen,
                        leaves(g) + rest(g, stack),
                        check_solvable,
                        check_unique,
                        backtrack_threshold,
                        solutions@,
                    );
                }
                return solutions;
            }
        }
        match generate_step(&cells) {
            Some(mut step) => {
                let ghost i = step.index as int;
                proof {
                    lemma_branch_cell_unique(g, i, branch_cell(g));
                    lemma_largest_candidate(g, i, 9);
                }
                match step.candidates.pop() {
                    Some(candidate) => {
                        // Try the largest candidate; the step keeps the others.
                        cells[step.index] = candidate;
                        steps.push(step);
                        proof {
                            lemma_empties_fill(g, i, candidate);
                            assert(cells@.update(i, 0) =~= g);
                            assert(steps@.drop_last() =~= stack);
                            assert(steps@.last() == step);
                            assert(leaves(g) + rest(g, stack) =~= leaves(cells@) + rest(
                                cells@,
                                steps@,
                            ));
                            assert(seen + leaves(cells@) + rest(cells@, steps@) =~= seen + leaves(
                                g,
                            ) + rest(g, stack));
                        }
                    },
                    None => {
                        // A dead end: the branch cell has no candidate.
                        proof {
                            assert(leaves(g) =~= seq![g]);
                            assert(seen.push(g) + rest(g, stack) =~= leaves(g0));
                            assert(seq![g].drop_last() =~= Seq::<Seq<u8>>::empty());
                            assert(seen.push(g).drop_last() =~= seen);
                            seen = seen.push(g);
                        }
                        // The count is read only under a threshold, which it never exceeds.
                        backtracks = backtracks.saturating_add(1);
                        proof {
                            lemma_stack_cells_in_range(cells@, steps@);
                        }
                        if !try_backtrack(&mut cells, &mut steps) {
                            proof {
                                lemma_search_ends(
                                    g0,
                                    seen,
                                    Seq::empty(),
                                    check_solvable,
                                    check_unique,
                                    backtrack_threshold,
                                    solutions@,
                                );
                            }
                            return solutions;
                        }
                        proof {
                            assert(seen + leaves(cells@) + rest(cells@, steps@) =~= leaves(g0));
                        }
                    },
                }
            },
            None => {
                // No empty cell is left: the grid is a solution.
                let ghost found = solutions@;
                solutions.push(cells);
                proof {
                    assert(leaves(g) =~= seq![g]);
                    assert(seen.push(g) + rest(g, stack) =~= leaves(g0));
                    assert(seen.push(g).drop_last() =~= seen);
                    assert(grids(solutions@) =~= grids(found).push(g));
                    seen = seen.push(g);
                    assert(grids(solutions@).len() == solutions@.len());
                }
                // One solution proves solvability, two disprove uniqueness.
                if check_solvable || (check_unique && solutions.len() > 1) {
                    proof {
                        lemma_search_ends(
                            g0,
                            seen,
                            rest(g, stack),
                            check_solvable,
                            check_unique,
                            backtrack_threshold,
                            solutions@,
                        );
                    }
                    return solutions;
                }
                // Go on to look for further solutions.
                backtracks = backtracks.saturating_add(1);
                proof {
                    lemma_stack_cells_in_range(cells@, steps@);
                }
                if !try_backtrack(&mut cells, &mut steps) {
                    proof {
                        lemma_search_ends(
                            g0,
                            seen,
                            Seq::empty(),
                            check_solvable,
                            check_unique,
                            backtrack_threshold,
                            solutions@,
                        );
                    }
                    return solutions;
                }
                proof {
                    assert(seen + leaves(cells@) + rest(cells@, steps@) =~= leaves(g0));
                }
            },
        }
    }
}

} // verus!
