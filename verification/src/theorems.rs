//! What the search tree holds: its full leaves are exactly the ways to
//! complete the grid at its root, each of them once.

use crate::search::{
    branch_cell, empties, explored, full, leaves, leaves_below,
    lemma_branch_cell_exists, lemma_empties_fill, search_result, solutions_among,
};
use crate::utils::{
    candidates, candidates_upto, completes, consistent, extends, free, lemma_candidates_upto,
    shares_unit, solved, unit_free, well_formed,
};
use vstd::arithmetic::div_mod::{lemma_div_denominator, lemma_fundamental_div_mod};
use vstd::prelude::*;

verus! {

/// On a grid whose filled cells do not conflict, to complete the grid is to
/// extend it to a solved grid.
pub proof fn lemma_completions_are_solved(g: Seq<u8>, s: Seq<u8>)
    requires
        well_formed(g),
        consistent(g),
    ensures
        completes(g, s) <==> s.len() == 81 && extends(g, s) && solved(s),
{
    if completes(g, s) {
        assert forall|i: int| 0 <= i < 81 implies 1 <= #[trigger] s[i] <= 9 by {
            if g[i] != 0 {
                assert(s[i] == g[i]);
            }
        }
        assert forall|i: int| 0 <= i < 81 && #[trigger] s[i] != 0 implies unit_free(
            s,
            i,
            s[i],
            true,
        ) by {
            if g[i] != 0 {
                assert(unit_free(g, i, g[i], true));
                assert forall|j: int|
                    0 <= j < 81 && shares_unit(i, j) && j != i implies #[trigger] s[j] != s[i] by {
                    if g[j] != 0 {
                        assert(s[j] == g[j]);
                    } else {
                        assert(unit_free(s, j, s[j], true));
                        assert(shares_unit(j, i));
                    }
                }
            }
        }
    }
    if s.len() == 81 && extends(g, s) && solved(s) {
        assert forall|i: int| 0 <= i < 81 && #[trigger] g[i] == 0 implies 1 <= s[i] <= 9
            && unit_free(s, i, s[i], true) by {
            assert(s[i] != 0);
        }
    }
}

/// A completion of a child of `g` in the search tree completes `g` too.
proof fn lemma_completes_parent(g: Seq<u8>, i: int, v: u8, s: Seq<u8>)
    requires
        g.len() == 81,
        0 <= i < 81,
        g[i] == 0,
        1 <= v <= 9,
        free(g, i, v),
        completes(g.update(i, v), s),
    ensures
        completes(g, s),
{
    let child = g.update(i, v);
    assert forall|j: int| 0 <= j < 81 && g[j] != 0 implies s[j] == g[j] by {
        assert(child[j] == g[j]);
    }
    assert forall|j: int| 0 <= j < 81 && #[trigger] g[j] == 0 implies 1 <= s[j] <= 9 && unit_free(
        s,
        j,
        s[j],
        true,
    ) by {
        if j == i {
            assert(child[i] == v);
            assert(s[i] == v);
            assert forall|m: int|
                0 <= m < 81 && shares_unit(i, m) && m != i implies #[trigger] s[m] != v by {
                if g[m] != 0 {
                    assert(child[m] == g[m]);
                    assert(s[m] == g[m]);
                } else {
                    assert(child[m] == 0);
                    assert(unit_free(s, m, s[m], true));
                    assert(shares_unit(m, i));
                }
            }
        } else {
            assert(child[j] == 0);
        }
    }
}

/// The digit that a completion writes into an empty cell is free there.
pub proof fn lemma_completion_digit_is_free(g: Seq<u8>, i: int, s: Seq<u8>)
    requires
        0 <= i < 81,
        g[i] == 0,
        completes(g, s),
    ensures
        1 <= s[i] <= 9,
        free(g, i, s[i]),
{
    lemma_completes_child(g, i, s);
}

/// A completion of `g` completes the child of `g` that it passes through.
proof fn lemma_completes_child(g: Seq<u8>, i: int, s: Seq<u8>)
    requires
        0 <= i < 81,
        g[i] == 0,
        completes(g, s),
    ensures
        free(g, i, s[i]),
        completes(g.update(i, s[i]), s),
{
    let v = s[i];
    let child = g.update(i, v);
    assert(unit_free(s, i, v, true));
    assert forall|j: int| 0 <= j < 81 && shares_unit(i, j) implies #[trigger] g[j] != v by {
        if g[j] != 0 {
            assert(s[j] == g[j]);
        }
    }
    assert forall|j: int| 0 <= j < 81 && child[j] != 0 implies s[j] == child[j] by {
        if j != i {
            assert(g[j] == child[j]);
        }
    }
    assert forall|j: int| 0 <= j < 81 && #[trigger] child[j] == 0 implies 1 <= s[j] <= 9
        && unit_free(s, j, s[j], true) by {
        assert(g[j] == 0);
    }
}

/// Soundness of the tree: every full leaf below `g` completes `g`.
pub proof fn lemma_full_leaves_complete(g: Seq<u8>, k: int)
    requires
        g.len() == 81,
        0 <= k < leaves(g).len(),
        full(leaves(g)[k]),
    ensures
        completes(g, leaves(g)[k]),
    decreases empties(g), 10nat,
{
    if full(g) {
        assert(leaves(g)[k] == g);
    } else if candidates(g, branch_cell(g)).len() == 0 {
        assert(leaves(g)[k] == g);
    } else {
        lemma_branch_cell_exists(g);
        lemma_full_leaves_below_complete(g, branch_cell(g), 9, k);
    }
}

/// Soundness, for the leaves below some of the children of `g`.
proof fn lemma_full_leaves_below_complete(g: Seq<u8>, i: int, d: nat, k: int)
    requires
        g.len() == 81,
        0 <= i < 81,
        g[i] == 0,
        d <= 9,
        0 <= k < leaves_below(g, i, d).len(),
        full(leaves_below(g, i, d)[k]),
    ensures
        completes(g, leaves_below(g, i, d)[k]),
    decreases empties(g), d,
{
    if d > 0 {
        if free(g, i, d as u8) {
            let child = g.update(i, d as u8);
            if k < leaves(child).len() {
                lemma_empties_fill(g, i, d as u8);
                lemma_full_leaves_complete(child, k);
                lemma_completes_parent(g, i, d as u8, leaves(child)[k]);
            } else {
                lemma_full_leaves_below_complete(g, i, (d - 1) as nat, k - leaves(child).len());
            }
        } else {
            lemma_full_leaves_below_complete(g, i, (d - 1) as nat, k);
        }
    }
}

/// The leaves under the child that writes `v` are among the leaves below the
/// children for the digits up to `d`, where `v <= d`.
proof fn lemma_child_leaves_included(g: Seq<u8>, i: int, d: nat, v: u8, s: Seq<u8>)
    requires
        g.len() == 81,
        0 <= i < 81,
        g[i] == 0,
        1 <= v <= d <= 9,
        free(g, i, v),
        leaves(g.update(i, v)).contains(s),
    ensures
        leaves_below(g, i, d).contains(s),
    decreases d,
{
    let under = leaves(g.update(i, v));
    if d == v {
        let k = choose|k: int| 0 <= k < under.len() && under[k] == s;
        assert(leaves_below(g, i, d)[k] == s);
    } else {
        lemma_child_leaves_included(g, i, (d - 1) as nat, v, s);
        let lower = leaves_below(g, i, (d - 1) as nat);
        let k = choose|k: int| 0 <= k < lower.len() && lower[k] == s;
        if free(g, i, d as u8) {
            let first = leaves(g.update(i, d as u8));
            assert(leaves_below(g, i, d)[first.len() + k] == s);
        }
    }
}

/// Completeness of the tree: every completion of `g` is a leaf below `g`.
pub proof fn lemma_completions_are_leaves(g: Seq<u8>, s: Seq<u8>)
    requires
        completes(g, s),
    ensures
        leaves(g).contains(s),
        full(s),
    decreases empties(g),
{
    assert forall|i: int| 0 <= i < 81 implies #[trigger] s[i] != 0 by {
        if g[i] != 0 {
            assert(s[i] == g[i]);
        }
    }
    if full(g) {
        assert forall|i: int| 0 <= i < 81 implies s[i] == g[i] by {
            assert(g[i] != 0);
        }
        assert(s =~= g);
        assert(leaves(g)[0] == s);
    } else {
        lemma_branch_cell_exists(g);
        let b = branch_cell(g);
        let v = s[b];
        lemma_completes_child(g, b, s);
        lemma_candidates_upto(g, b, 9);
        assert(candidates(g, b).contains(v));
        lemma_empties_fill(g, b, v);
        lemma_completions_are_leaves(g.update(b, v), s);
        lemma_child_leaves_included(g, b, 9, v, s);
    }
}

/// Every leaf below `g` is a grid that keeps the filled cells of `g`.
pub proof fn lemma_leaves_extend(g: Seq<u8>, k: int)
    requires
        g.len() == 81,
        0 <= k < leaves(g).len(),
    ensures
        leaves(g)[k].len() == 81,
        extends(g, leaves(g)[k]),
    decreases empties(g), 10nat,
{
    if full(g) {
        assert(leaves(g)[k] == g);
    } else if candidates(g, branch_cell(g)).len() == 0 {
        assert(leaves(g)[k] == g);
    } else {
        lemma_branch_cell_exists(g);
        lemma_leaves_below_extend(g, branch_cell(g), 9, k);
    }
}

/// Every leaf below the children of `g` for the digits up to `d` keeps the
/// filled cells of `g` and holds one of these digits in cell `i`.
proof fn lemma_leaves_below_extend(g: Seq<u8>, i: int, d: nat, k: int)
    requires
        g.len() == 81,
        0 <= i < 81,
        g[i] == 0,
        d <= 9,
        0 <= k < leaves_below(g, i, d).len(),
    ensures
        leaves_below(g, i, d)[k].len() == 81,
        extends(g, leaves_below(g, i, d)[k]),
        1 <= leaves_below(g, i, d)[k][i] <= d,
    decreases empties(g), d,
{
    if d > 0 {
        if free(g, i, d as u8) {
            let child = g.update(i, d as u8);
            if k < leaves(child).len() {
                lemma_empties_fill(g, i, d as u8);
                lemma_leaves_extend(child, k);
                let l = leaves(child)[k];
                assert(child[i] == d);
                assert(l[i] == d);
                assert forall|j: int| 0 <= j < 81 && g[j] != 0 implies l[j] == g[j] by {
                    assert(child[j] == g[j]);
                }
            } else {
                lemma_leaves_below_extend(g, i, (d - 1) as nat, k - leaves(child).len());
            }
        } else {
            lemma_leaves_below_extend(g, i, (d - 1) as nat, k);
        }
    }
}

/// No grid occurs twice among the leaves below `g`.
pub proof fn lemma_leaves_distinct(g: Seq<u8>, a: int, b: int)
    requires
        g.len() == 81,
        0 <= a < b < leaves(g).len(),
    ensures
        leaves(g)[a] != leaves(g)[b],
    decreases empties(g), 10nat,
{
    if !full(g) && candidates(g, branch_cell(g)).len() != 0 {
        lemma_branch_cell_exists(g);
        lemma_leaves_below_distinct(g, branch_cell(g), 9, a, b);
    }
}

/// No grid occurs twice among the leaves below the children of `g`.
proof fn lemma_leaves_below_distinct(g: Seq<u8>, i: int, d: nat, a: int, b: int)
    requires
        g.len() == 81,
        0 <= i < 81,
        g[i] == 0,
        d <= 9,
        0 <= a < b < leaves_below(g, i, d).len(),
    ensures
        leaves_below(g, i, d)[a] != leaves_below(g, i, d)[b],
    decreases empties(g), d,
{
    if d > 0 {
        if free(g, i, d as u8) {
            let child = g.update(i, d as u8);
            let n = leaves(child).len() as int;
            lemma_empties_fill(g, i, d as u8);
            if b < n {
                lemma_leaves_distinct(child, a, b);
            } else if a < n {
                lemma_leaves_extend(child, a);
                assert(child[i] == d);
                assert(leaves(child)[a][i] == d);
                lemma_leaves_below_extend(g, i, (d - 1) as nat, b - n);
            } else {
                lemma_leaves_below_distinct(g, i, (d - 1) as nat, a - n, b - n);
            }
        } else {
            lemma_leaves_below_distinct(g, i, (d - 1) as nat, a, b);
        }
    }
}

/// Each grid of `solutions_among(ls)` is full and comes from `ls`. Returns a
/// place in `ls` where the `k`-th of them stands.
pub proof fn lemma_solution_comes_from(ls: Seq<Seq<u8>>, k: int) -> (j: int)
    requires
        0 <= k < solutions_among(ls).len(),
    ensures
        0 <= j < ls.len(),
        ls[j] == solutions_among(ls)[k],
        full(ls[j]),
    decreases ls.len(),
{
    let before = solutions_among(ls.drop_last());
    if full(ls.last()) && k == before.len() {
        ls.len() - 1
    } else {
        lemma_solution_comes_from(ls.drop_last(), k)
    }
}

/// Each full grid of `ls` is in `solutions_among(ls)`.
pub proof fn lemma_full_grid_is_among(ls: Seq<Seq<u8>>, j: int)
    requires
        0 <= j < ls.len(),
        full(ls[j]),
    ensures
        solutions_among(ls).contains(ls[j]),
    decreases ls.len(),
{
    let before = solutions_among(ls.drop_last());
    if j == ls.len() - 1 {
        assert(solutions_among(ls)[before.len() as int] == ls[j]);
    } else {
        lemma_full_grid_is_among(ls.drop_last(), j);
        let k = choose|k: int| 0 <= k < before.len() && before[k] == ls[j];
        assert(solutions_among(ls)[k] == ls[j]);
    }
}

/// `solutions_among` keeps a sequence free of repetitions.
pub proof fn lemma_solutions_among_distinct(ls: Seq<Seq<u8>>)
    requires
        ls.no_duplicates(),
    ensures
        solutions_among(ls).no_duplicates(),
    decreases ls.len(),
{
    if ls.len() > 0 {
        let init = ls.drop_last();
        lemma_solutions_among_distinct(init);
        let before = solutions_among(init);
        if full(ls.last()) {
            assert forall|a: int, b: int|
                0 <= a < solutions_among(ls).len() && 0 <= b < solutions_among(ls).len() && a
                    != b implies solutions_among(ls)[a] != solutions_among(ls)[b] by {
                if a < before.len() && b < before.len() {
                } else if a < before.len() {
                    let j = lemma_solution_comes_from(init, a);
                    assert(init[j] == ls[j]);
                } else {
                    let j = lemma_solution_comes_from(init, b);
                    assert(init[j] == ls[j]);
                }
            }
        }
    }
}

/// Each grid of a search result is a full leaf of the tree. Returns a place
/// among the leaves where the `k`-th of them stands.
pub proof fn lemma_result_comes_from_leaf(
    g: Seq<u8>,
    first_only: bool,
    two_suffice: bool,
    limit: Option<u32>,
    k: int,
) -> (j: int)
    requires
        0 <= k < search_result(g, first_only, two_suffice, limit).len(),
    ensures
        0 <= j < leaves(g).len(),
        leaves(g)[j] == search_result(g, first_only, two_suffice, limit)[k],
        full(leaves(g)[j]),
{
    lemma_solution_comes_from(explored(g, limit), k)
}

/// Whatever the flags and the limit, every grid that a search of `g` returns
/// completes `g`.
pub proof fn lemma_results_complete_the_grid(
    g: Seq<u8>,
    first_only: bool,
    two_suffice: bool,
    limit: Option<u32>,
    k: int,
)
    requires
        g.len() == 81,
        0 <= k < search_result(g, first_only, two_suffice, limit).len(),
    ensures
        completes(g, search_result(g, first_only, two_suffice, limit)[k]),
{
    let j = lemma_result_comes_from_leaf(g, first_only, two_suffice, limit, k);
    lemma_full_leaves_complete(g, j);
}

/// Whatever the flags and the limit, a search returns no grid twice.
pub proof fn lemma_results_are_distinct(
    g: Seq<u8>,
    first_only: bool,
    two_suffice: bool,
    limit: Option<u32>,
)
    requires
        g.len() == 81,
    ensures
        search_result(g, first_only, two_suffice, limit).no_duplicates(),
{
    assert forall|a: int, b: int|
        0 <= a < leaves(g).len() && 0 <= b < leaves(g).len() && a != b implies leaves(g)[a]
        != leaves(g)[b] by {
        if a < b {
            lemma_leaves_distinct(g, a, b);
        } else {
            lemma_leaves_distinct(g, b, a);
        }
    }
    assert(explored(g, limit).no_duplicates());
    lemma_solutions_among_distinct(explored(g, limit));
}

/// A search without flags and without a limit finds every completion of the
/// grid.
pub proof fn lemma_full_search_finds_all(g: Seq<u8>, s: Seq<u8>)
    requires
        completes(g, s),
    ensures
        search_result(g, false, false, None).contains(s),
        search_result(g, false, true, None).len() >= 1,
        search_result(g, true, false, None).len() == 1,
{
    lemma_completions_are_leaves(g, s);
    let j = choose|j: int| 0 <= j < leaves(g).len() && leaves(g)[j] == s;
    lemma_full_grid_is_among(leaves(g), j);
}

/// A grid that nothing completes has no solution: the search returns an
/// empty sequence, whatever the flags and the limit.
pub proof fn lemma_no_completion_no_result(
    g: Seq<u8>,
    first_only: bool,
    two_suffice: bool,
    limit: Option<u32>,
)
    requires
        g.len() == 81,
        forall|s: Seq<u8>| !completes(g, s),
    ensures
        search_result(g, first_only, two_suffice, limit).len() == 0,
{
    if search_result(g, first_only, two_suffice, limit).len() > 0 {
        lemma_results_complete_the_grid(g, first_only, two_suffice, limit, 0);
    }
}

/// A grid whose filled cells do not conflict and that no solved grid extends
/// has no solution: the search returns an empty sequence.
pub proof fn lemma_unsolvable_grid_has_no_result(
    g: Seq<u8>,
    first_only: bool,
    two_suffice: bool,
    limit: Option<u32>,
)
    requires
        well_formed(g),
        consistent(g),
        forall|s: Seq<u8>| !(s.len() == 81 && extends(g, s) && solved(s)),
    ensures
        search_result(g, first_only, two_suffice, limit).len() == 0,
{
    assert forall|s: Seq<u8>| !completes(g, s) by {
        lemma_completions_are_solved(g, s);
    }
    lemma_no_completion_no_result(g, first_only, two_suffice, limit);
}

/// A search that stops at the first solution returns exactly one grid where
/// the grid can be completed, and that grid completes it. Where `s` is the
/// only completion, the search returns `s`.
pub proof fn lemma_first_solution(g: Seq<u8>, s: Seq<u8>)
    requires
        completes(g, s),
    ensures
        search_result(g, true, false, None).len() == 1,
        completes(g, search_result(g, true, false, None)[0]),
        (forall|t: Seq<u8>| completes(g, t) ==> t == s) ==> search_result(g, true, false, None)
            == seq![s],
{
    lemma_full_search_finds_all(g, s);
    lemma_results_complete_the_grid(g, true, false, None, 0);
    let r = search_result(g, true, false, None);
    if forall|t: Seq<u8>| completes(g, t) ==> t == s {
        assert(r =~= seq![s]);
    }
}

/// The uniqueness check without a limit returns exactly one grid if and only
/// if the grid has exactly one completion.
pub proof fn lemma_uniqueness_check(g: Seq<u8>)
    requires
        g.len() == 81,
    ensures
        search_result(g, false, true, None).len() == 1 <==> (exists|s: Seq<u8>| completes(g, s))
            && (forall|s: Seq<u8>, t: Seq<u8>| completes(g, s) && completes(g, t) ==> s == t),
{
    let r = search_result(g, false, true, None);
    let found = solutions_among(leaves(g));
    if r.len() == 1 {
        assert(found.len() == 1);
        lemma_results_complete_the_grid(g, false, true, None, 0);
        assert forall|s: Seq<u8>, t: Seq<u8>| completes(g, s) && completes(g, t) implies s
            == t by {
            lemma_full_search_finds_all(g, s);
            lemma_full_search_finds_all(g, t);
            assert(found.contains(s));
            assert(found.contains(t));
        }
    }
    if (exists|s: Seq<u8>| completes(g, s)) && (forall|s: Seq<u8>, t: Seq<u8>|
        completes(g, s) && completes(g, t) ==> s == t) {
        let s = choose|s: Seq<u8>| completes(g, s);
        lemma_full_search_finds_all(g, s);
        if found.len() >= 2 {
            lemma_results_are_distinct(g, false, true, None);
            assert(r[0] != r[1]);
            lemma_results_complete_the_grid(g, false, true, None, 0);
            lemma_results_complete_the_grid(g, false, true, None, 1);
        }
    }
}

/// Two grids from a uniqueness check are two different completions: a check
/// that returns two grids is right to deny uniqueness, limit or no limit.
pub proof fn lemma_two_results_disprove_uniqueness(g: Seq<u8>, limit: Option<u32>)
    requires
        g.len() == 81,
        search_result(g, false, true, limit).len() > 1,
    ensures
        exists|s: Seq<u8>, t: Seq<u8>|
            s != t && #[trigger] completes(g, s) && #[trigger] completes(g, t),
{
    let r = search_result(g, false, true, limit);
    lemma_results_are_distinct(g, false, true, limit);
    lemma_results_complete_the_grid(g, false, true, limit, 0);
    lemma_results_complete_the_grid(g, false, true, limit, 1);
    assert(r[0] != r[1]);
}

/// A bounded uniqueness check that visits the whole tree is exact: where the
/// tree has no more leaves than the limit allows backtracks and the check
/// returns at most one grid, the grid has at most one completion.
pub proof fn lemma_exhaustive_check_is_exact(g: Seq<u8>, limit: u32)
    requires
        g.len() == 81,
        leaves(g).len() <= limit,
        search_result(g, false, true, Some(limit)).len() <= 1,
    ensures
        forall|s: Seq<u8>, t: Seq<u8>| completes(g, s) && completes(g, t) ==> s == t,
{
    lemma_generous_limit(g, false, true, limit);
    assert forall|s: Seq<u8>, t: Seq<u8>| completes(g, s) && completes(g, t) implies s == t by {
        lemma_uniqueness_check(g);
        lemma_full_search_finds_all(g, s);
    }
}

/// A limit that the search never reaches changes nothing: where the tree has
/// no more leaves than the limit allows backtracks, the bounded search
/// returns what the unbounded one returns.
pub proof fn lemma_generous_limit(g: Seq<u8>, first_only: bool, two_suffice: bool, limit: u32)
    requires
        leaves(g).len() <= limit,
    ensures
        search_result(g, first_only, two_suffice, Some(limit)) == search_result(
            g,
            first_only,
            two_suffice,
            None,
        ),
{
}

/// A search of a grid without empty cells returns that grid and nothing
/// else, whatever the flags, unless the limit allows no backtrack at all.
pub proof fn lemma_full_grid_is_its_own_result(
    g: Seq<u8>,
    first_only: bool,
    two_suffice: bool,
    limit: Option<u32>,
)
    requires
        full(g),
        limit != Some(0u32),
    ensures
        search_result(g, first_only, two_suffice, limit) == seq![g],
{
    assert(leaves(g) == seq![g]);
    assert(explored(g, limit) == seq![g]);
    let one = seq![g];
    assert(one.last() == g);
    assert(one.drop_last() =~= Seq::<Seq<u8>>::empty());
    assert(solutions_among(one.drop_last()) =~= Seq::<Seq<u8>>::empty());
    assert(solutions_among(one) =~= one);
}

/// A filled cell that conflicts with no other cell finds its own value among
/// its candidates once it is emptied.
pub proof fn lemma_cleared_cell_offers_its_value(g: Seq<u8>, i: int)
    requires
        g.len() == 81,
        0 <= i < 81,
        1 <= g[i] <= 9,
        unit_free(g, i, g[i], true),
    ensures
        candidates(g.update(i, 0), i).contains(g[i]),
{
    let cleared = g.update(i, 0);
    assert forall|j: int| 0 <= j < 81 && shares_unit(i, j) implies #[trigger] cleared[j]
        != g[i] by {
        if j != i {
            assert(cleared[j] == g[j]);
        }
    }
    assert(free(cleared, i, g[i]));
    lemma_candidates_upto(cleared, i, 9);
    assert(candidates_upto(cleared, i, 9).contains(g[i]));
}

/// The verdict on a grid depends on the cells alone: two grids with the same
/// cells are both consistent or both not, so checking a grid again without
/// changing it gives the same answer.
pub proof fn lemma_verdict_is_stable(a: Seq<u8>, b: Seq<u8>)
    requires
        a =~= b,
    ensures
        consistent(a) == consistent(b),
{
}

/// A grid that a solved grid extends is well formed and free of conflicts.
pub proof fn lemma_part_of_solved_grid(g: Seq<u8>, s: Seq<u8>)
    requires
        g.len() == 81,
        extends(g, s),
        solved(s),
    ensures
        well_formed(g),
        consistent(g),
        completes(g, s),
{
    assert forall|i: int| 0 <= i < 81 implies #[trigger] g[i] <= 9 by {
        if g[i] != 0 {
            assert(s[i] == g[i]);
        }
    }
    assert forall|i: int| 0 <= i < 81 && #[trigger] g[i] != 0 implies unit_free(
        g,
        i,
        g[i],
        true,
    ) by {
        assert(s[i] == g[i]);
        assert(unit_free(s, i, s[i], true));
        assert forall|j: int|
            0 <= j < 81 && shares_unit(i, j) && j != i implies #[trigger] g[j] != g[i] by {
            if g[j] != 0 {
                assert(s[j] == g[j]);
            }
        }
    }
    lemma_completions_are_solved(g, s);
}

/// Writing a free digit into an empty cell of a grid without conflicts
/// leaves the grid without conflicts.
pub proof fn lemma_free_digit_keeps_consistent(g: Seq<u8>, i: int, v: u8)
    requires
        g.len() == 81,
        0 <= i < 81,
        consistent(g),
        free(g, i, v),
    ensures
        consistent(g.update(i, v)),
{
    let h = g.update(i, v);
    assert forall|a: int| 0 <= a < 81 && #[trigger] h[a] != 0 implies unit_free(
        h,
        a,
        h[a],
        true,
    ) by {
        assert forall|b: int|
            0 <= b < 81 && shares_unit(a, b) && b != a implies #[trigger] h[b] != h[a] by {
            if a == i {
                assert(g[b] != v);
            } else if b == i {
                assert(shares_unit(i, a));
                assert(g[a] != v);
            } else {
                assert(g[a] != 0);
                assert(unit_free(g, a, g[a], true));
                assert(g[b] != g[a]);
            }
        }
    }
}

/// Where filled cells of the grid conflict, no solved grid extends it, and
/// none of the grids that a search returns is solved.
pub proof fn lemma_conflicting_clues_have_no_solved_result(
    g: Seq<u8>,
    first_only: bool,
    two_suffice: bool,
    limit: Option<u32>,
)
    requires
        g.len() == 81,
        !consistent(g),
    ensures
        forall|s: Seq<u8>| solved(s) ==> !#[trigger] extends(g, s),
        forall|k: int|
            0 <= k < search_result(g, first_only, two_suffice, limit).len() ==> !solved(
                #[trigger] search_result(g, first_only, two_suffice, limit)[k],
            ),
{
    assert forall|s: Seq<u8>| solved(s) implies !#[trigger] extends(g, s) by {
        if extends(g, s) {
            lemma_part_of_solved_grid(g, s);
        }
    }
    assert forall|k: int|
        0 <= k < search_result(g, first_only, two_suffice, limit).len() implies !solved(
        #[trigger] search_result(g, first_only, two_suffice, limit)[k],
    ) by {
        lemma_results_complete_the_grid(g, first_only, two_suffice, limit, k);
    }
}

/// The digit of cell `i` in a fixed solved grid: each row is the row above
/// shifted by three, and by one more at the start of a band.
pub open spec fn pattern_digit(i: int) -> u8 {
    ((3 * ((i / 9) % 3) + (i / 9) / 3 + i % 9) % 9 + 1) as u8
}

/// The fixed solved grid.
pub open spec fn pattern_grid() -> Seq<u8> {
    Seq::new(81, |i: int| pattern_digit(i))
}

/// Two numbers less than nine apart have different remainders modulo nine.
proof fn lemma_near_numbers_differ_mod_nine(a: int, b: int)
    requires
        0 <= a,
        0 <= b,
        a != b,
        -9 < a - b < 9,
    ensures
        a % 9 != b % 9,
{
    lemma_fundamental_div_mod(a, 9);
    lemma_fundamental_div_mod(b, 9);
}

/// Two cells of one unit hold different digits in the fixed grid.
proof fn lemma_pattern_digits_differ(i: int, j: int)
    requires
        0 <= i < 81,
        0 <= j < 81,
        i != j,
        shares_unit(i, j),
    ensures
        pattern_digit(i) != pattern_digit(j),
{
    let (r, c) = (i / 9, i % 9);
    let (q, d) = (j / 9, j % 9);
    lemma_fundamental_div_mod(i, 9);
    lemma_fundamental_div_mod(j, 9);
    lemma_fundamental_div_mod(r, 3);
    lemma_fundamental_div_mod(q, 3);
    lemma_fundamental_div_mod(c, 3);
    lemma_fundamental_div_mod(d, 3);
    lemma_div_denominator(i, 9, 3);
    lemma_div_denominator(j, 9, 3);
    let a = 3 * (r % 3) + r / 3 + c;
    let b = 3 * (q % 3) + q / 3 + d;
    assert(0 <= a <= 16 && 0 <= b <= 16);
    if r == q {
        assert(a - b == c - d);
    } else if c == d {
        assert(a - b == 3 * (r % 3 - q % 3) + (r / 3 - q / 3));
    } else {
        assert(r / 3 == q / 3);
        assert(c / 3 == d / 3);
        assert(a - b == 3 * (r % 3 - q % 3) + (c % 3 - d % 3));
    }
    lemma_near_numbers_differ_mod_nine(a, b);
}

/// The fixed grid is solved, so the empty grid can be completed.
pub proof fn lemma_pattern_grid_is_solved()
    ensures
        solved(pattern_grid()),
{
    let p = pattern_grid();
    assert forall|i: int| 0 <= i < 81 implies 1 <= #[trigger] p[i] <= 9 by {}
    assert forall|i: int| 0 <= i < 81 && #[trigger] p[i] != 0 implies unit_free(
        p,
        i,
        p[i],
        true,
    ) by {
        assert forall|j: int|
            0 <= j < 81 && shares_unit(i, j) && j != i implies #[trigger] p[j] != p[i] by {
            lemma_pattern_digits_differ(i, j);
        }
    }
}

} // verus!
