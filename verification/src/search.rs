//! The search tree of the backtracking solver, as a mathematical model.
//!
//! A node of the tree is a grid. A grid without empty cells is a leaf, and so
//! is a grid whose branch cell has no candidate (a dead end). Every other grid
//! has one child per candidate of its branch cell, the largest candidate
//! first. The solver visits the leaves of this tree from left to right.

use crate::utils::{candidates, candidates_upto, free};
use vstd::prelude::*;

verus! {

/// No cell of the grid is empty.
pub open spec fn full(g: Seq<u8>) -> bool {
    forall|i: int| 0 <= i < 81 ==> #[trigger] g[i] != 0
}

/// The number of empty cells.
pub open spec fn empties(g: Seq<u8>) -> nat
    decreases g.len(),
{
    if g.len() == 0 {
        0
    } else {
        empties(g.drop_last()) + if g.last() == 0 {
            1nat
        } else {
            0nat
        }
    }
}

/// Filling an empty cell lowers the number of empty cells by one.
pub proof fn lemma_empties_fill(g: Seq<u8>, i: int, v: u8)
    requires
        0 <= i < g.len(),
        g[i] == 0,
        v != 0,
    ensures
        empties(g.update(i, v)) + 1 == empties(g),
    decreases g.len(),
{
    let h = g.update(i, v);
    if i == g.len() - 1 {
        assert(h.drop_last() =~= g.drop_last());
    } else {
        assert(h.drop_last() =~= g.drop_last().update(i, v));
        lemma_empties_fill(g.drop_last(), i, v);
    }
}

/// Emptying a cell raises the number of empty cells by one at most.
pub proof fn lemma_empties_clear(g: Seq<u8>, i: int)
    requires
        0 <= i < g.len(),
    ensures
        empties(g.update(i, 0)) <= empties(g) + 1,
        g[i] != 0 ==> empties(g.update(i, 0)) == empties(g) + 1,
        g[i] == 0 ==> empties(g.update(i, 0)) == empties(g),
    decreases g.len(),
{
    let h = g.update(i, 0);
    if i == g.len() - 1 {
        assert(h.drop_last() =~= g.drop_last());
    } else {
        assert(h.drop_last() =~= g.drop_last().update(i, 0));
        lemma_empties_clear(g.drop_last(), i);
    }
}

/// A grid without empty cells counts none.
pub proof fn lemma_empties_of_full(g: Seq<u8>, n: int)
    requires
        0 <= n <= g.len(),
        forall|i: int| 0 <= i < n ==> #[trigger] g[i] != 0,
    ensures
        empties(g.take(n)) == 0,
    decreases n,
{
    if n > 0 {
        assert(g.take(n).drop_last() =~= g.take(n - 1));
        lemma_empties_of_full(g, n - 1);
    }
}

/// Cell `i` is the cell on which the search branches: the empty cell with the
/// fewest candidates, and among several such cells the one of lowest index.
pub open spec fn is_branch_cell(g: Seq<u8>, i: int) -> bool {
    &&& 0 <= i < 81
    &&& g[i] == 0
    &&& forall|j: int|
        0 <= j < 81 && g[j] == 0 ==> candidates(g, i).len() <= (#[trigger] candidates(g, j)).len()
            && (j < i ==> candidates(g, i).len() < candidates(g, j).len())
}

/// The branch cell of a grid that has an empty cell.
pub open spec fn branch_cell(g: Seq<u8>) -> int {
    choose|i: int| is_branch_cell(g, i)
}

/// A grid has at most one branch cell.
pub proof fn lemma_branch_cell_unique(g: Seq<u8>, a: int, b: int)
    requires
        is_branch_cell(g, a),
        is_branch_cell(g, b),
    ensures
        a == b,
{
    assert(candidates(g, a).len() <= candidates(g, b).len());
    assert(candidates(g, b).len() <= candidates(g, a).len());
}

/// The branch cell among the first `n` cells, or `-1` where none of them is
/// empty.
proof fn best_below(g: Seq<u8>, n: int) -> (b: int)
    requires
        0 <= n <= 81,
    ensures
        -1 <= b < n,
        b == -1 ==> forall|j: int| 0 <= j < n ==> #[trigger] g[j] != 0,
        b >= 0 ==> g[b] == 0,
        b >= 0 ==> forall|j: int|
            0 <= j < n && g[j] == 0 ==> candidates(g, b).len() <= (#[trigger] candidates(
                g,
                j,
            )).len() && (j < b ==> candidates(g, b).len() < candidates(g, j).len()),
    decreases n,
{
    if n == 0 {
        -1
    } else {
        let p = best_below(g, n - 1);
        let j = n - 1;
        if g[j] != 0 {
            p
        } else if p < 0 || candidates(g, j).len() < candidates(g, p).len() {
            j
        } else {
            p
        }
    }
}

/// A grid with an empty cell has a branch cell.
pub proof fn lemma_branch_cell_exists(g: Seq<u8>)
    requires
        !full(g),
    ensures
        is_branch_cell(g, branch_cell(g)),
{
    let b = best_below(g, 81);
    assert(is_branch_cell(g, b));
}

/// The leaves of the search tree below `g`, in the order of the search.
pub open spec fn leaves(g: Seq<u8>) -> Seq<Seq<u8>>
    decreases empties(g), 10nat,
{
    if full(g) {
        seq![g]
    } else if candidates(g, branch_cell(g)).len() == 0 {
        seq![g]
    } else {
        leaves_below(g, branch_cell(g), 9)
    }
}

/// The leaves below the children of `g` that write one of the digits
/// `d, d - 1, .., 1` into the empty cell `i`, in that order of the digits.
pub open spec fn leaves_below(g: Seq<u8>, i: int, d: nat) -> Seq<Seq<u8>>
    decreases empties(g), d,
{
    if d == 0 || d > 9 || !(0 <= i < g.len()) || g[i] != 0 {
        Seq::empty()
    } else if free(g, i, d as u8) {
        proof {
            lemma_empties_fill(g, i, d as u8);
        }
        leaves(g.update(i, d as u8)) + leaves_below(g, i, (d - 1) as nat)
    } else {
        leaves_below(g, i, (d - 1) as nat)
    }
}

/// The grids of `ls` that have no empty cell, in their order in `ls`.
pub open spec fn solutions_among(ls: Seq<Seq<u8>>) -> Seq<Seq<u8>>
    decreases ls.len(),
{
    if ls.len() == 0 {
        Seq::empty()
    } else if full(ls.last()) {
        solutions_among(ls.drop_last()).push(ls.last())
    } else {
        solutions_among(ls.drop_last())
    }
}

/// `solutions_among` distributes over concatenation.
pub proof fn lemma_solutions_among_concat(a: Seq<Seq<u8>>, b: Seq<Seq<u8>>)
    ensures
        solutions_among(a + b) == solutions_among(a) + solutions_among(b),
    decreases b.len(),
{
    if b.len() == 0 {
        assert(a + b =~= a);
        assert(solutions_among(a) + solutions_among(b) =~= solutions_among(a));
    } else {
        assert((a + b).drop_last() =~= a + b.drop_last());
        assert((a + b).last() == b.last());
        lemma_solutions_among_concat(a, b.drop_last());
        if full(b.last()) {
            assert(solutions_among(a + b) =~= solutions_among(a) + solutions_among(b));
        }
    }
}

/// The first `n` elements of `s`, or all of `s` where it has fewer.
pub open spec fn at_most<A>(s: Seq<A>, n: nat) -> Seq<A> {
    if n < s.len() {
        s.take(n as int)
    } else {
        s
    }
}

/// The leaves that a search of `g` visits when it may backtrack at most
/// `limit` times: every visited leaf costs one backtrack.
pub open spec fn explored(g: Seq<u8>, limit: Option<u32>) -> Seq<Seq<u8>> {
    match limit {
        Some(l) => at_most(leaves(g), l as nat),
        None => leaves(g),
    }
}

/// What a search of `g` returns: the solutions among the explored leaves, cut
/// after the first one when `first_only` is set, else after the second one
/// when `two_suffice` is set.
pub open spec fn search_result(
    g: Seq<u8>,
    first_only: bool,
    two_suffice: bool,
    limit: Option<u32>,
) -> Seq<Seq<u8>> {
    let found = solutions_among(explored(g, limit));
    if first_only {
        at_most(found, 1)
    } else if two_suffice {
        at_most(found, 2)
    } else {
        found
    }
}

/// The largest candidate among the digits `1..=n` of an empty cell splits the
/// leaves below the cell's children: first come the leaves under that
/// candidate, then those under the smaller digits. Without a candidate there
/// is no leaf.
pub proof fn lemma_largest_candidate(g: Seq<u8>, i: int, n: nat)
    requires
        g.len() == 81,
        0 <= i < 81,
        g[i] == 0,
        n <= 9,
    ensures
        candidates_upto(g, i, n).len() == 0 ==> leaves_below(g, i, n) == Seq::<Seq<u8>>::empty(),
        candidates_upto(g, i, n).len() > 0 ==> ({
            let c = candidates_upto(g, i, n).last();
            &&& 1 <= c <= n
            &&& free(g, i, c)
            &&& candidates_upto(g, i, n).drop_last() == candidates_upto(g, i, (c - 1) as nat)
            &&& leaves_below(g, i, n) == leaves(g.update(i, c)) + leaves_below(
                g,
                i,
                (c - 1) as nat,
            )
        }),
    decreases n,
{
    if n > 0 {
        let prev = candidates_upto(g, i, (n - 1) as nat);
        if free(g, i, n as u8) {
            assert(candidates_upto(g, i, n) == prev.push(n as u8));
            assert(prev.push(n as u8).drop_last() =~= prev);
        } else {
            lemma_largest_candidate(g, i, (n - 1) as nat);
        }
    }
}

} // verus!
