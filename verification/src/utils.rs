//! Grid geometry, candidate computation and rule checking.

use vstd::arithmetic::div_mod::{
    lemma_div_denominator, lemma_fundamental_div_mod, lemma_fundamental_div_mod_converse,
    lemma_mod_mod,
};
use vstd::prelude::*;

verus! {

/// A Sudoku grid: 81 cells in row-major order, `0` for an empty cell.
pub type Cells = [u8; 81];

/// Cells `i` and `j` lie in a common row, column or 3x3 box.
pub open spec fn shares_unit(i: int, j: int) -> bool {
    ||| i / 9 == j / 9
    ||| i % 9 == j % 9
    ||| (i / 27 == j / 27 && (i % 9) / 3 == (j % 9) / 3)
}

/// No cell in the row, column or box of cell `i` holds `v`. With `skip_self`
/// the cell `i` itself is left out of the comparison.
pub open spec fn unit_free(g: Seq<u8>, i: int, v: u8, skip_self: bool) -> bool {
    forall|j: int|
        0 <= j < 81 && shares_unit(i, j) && !(skip_self && j == i) ==> #[trigger] g[j] != v
}

/// The digit `v` could be written into cell `i` without repeating a value of
/// its row, column or box.
pub open spec fn free(g: Seq<u8>, i: int, v: u8) -> bool {
    unit_free(g, i, v, false)
}

/// The free digits of cell `i` among `1..=n`, in ascending order.
pub open spec fn candidates_upto(g: Seq<u8>, i: int, n: nat) -> Seq<u8>
    decreases n,
{
    if n == 0 {
        Seq::empty()
    } else if free(g, i, n as u8) {
        candidates_upto(g, i, (n - 1) as nat).push(n as u8)
    } else {
        candidates_upto(g, i, (n - 1) as nat)
    }
}

/// The candidates of cell `i`: its free digits among `1..=9`, ascending.
pub open spec fn candidates(g: Seq<u8>, i: int) -> Seq<u8> {
    candidates_upto(g, i, 9)
}

/// No filled cell repeats the value of another cell of its row, column or box.
pub open spec fn consistent(g: Seq<u8>) -> bool {
    forall|i: int| 0 <= i < 81 && #[trigger] g[i] != 0 ==> unit_free(g, i, g[i], true)
}

/// The grid has 81 cells, each empty or a digit.
pub open spec fn well_formed(g: Seq<u8>) -> bool {
    &&& g.len() == 81
    &&& forall|i: int| 0 <= i < 81 ==> #[trigger] g[i] <= 9
}

/// `s` keeps every filled cell of `g`.
pub open spec fn extends(g: Seq<u8>, s: Seq<u8>) -> bool {
    forall|i: int|
        #![trigger g[i]]
        #![trigger s[i]]
        0 <= i < 81 && g[i] != 0 ==> s[i] == g[i]
}

/// A solved grid: every cell holds a digit, and no digit occurs twice in a
/// row, a column or a box.
pub open spec fn solved(s: Seq<u8>) -> bool {
    &&& s.len() == 81
    &&& forall|i: int| 0 <= i < 81 ==> 1 <= #[trigger] s[i] <= 9
    &&& consistent(s)
}

/// `s` is `g` with its empty cells filled in by the rules: the filled cells of
/// `g` are kept, and every cell that is empty in `g` holds a digit in `s` that
/// no other cell of its row, column or box holds.
pub open spec fn completes(g: Seq<u8>, s: Seq<u8>) -> bool {
    &&& g.len() == 81
    &&& s.len() == 81
    &&& extends(g, s)
    &&& forall|i: int|
        0 <= i < 81 && #[trigger] g[i] == 0 ==> 1 <= s[i] <= 9 && unit_free(s, i, s[i], true)
}

/// `candidates_upto` lists exactly the free digits up to `n`, each once and in
/// ascending order.
pub proof fn lemma_candidates_upto(g: Seq<u8>, i: int, n: nat)
    requires
        n <= 255,
    ensures
        candidates_upto(g, i, n).len() <= n,
        forall|k: int|
            0 <= k < candidates_upto(g, i, n).len() ==> 1 <= #[trigger] candidates_upto(
                g,
                i,
                n,
            )[k] <= n && free(g, i, candidates_upto(g, i, n)[k]),
        forall|a: int, b: int|
            0 <= a < b < candidates_upto(g, i, n).len() ==> candidates_upto(g, i, n)[a]
                < candidates_upto(g, i, n)[b],
        forall|v: u8|
            candidates_upto(g, i, n).contains(v) <==> 1 <= v <= n && free(g, i, v),
    decreases n,
{
    if n > 0 {
        lemma_candidates_upto(g, i, (n - 1) as nat);
        let prev = candidates_upto(g, i, (n - 1) as nat);
        let cur = candidates_upto(g, i, n);
        if free(g, i, n as u8) {
            assert(cur == prev.push(n as u8));
            assert(cur[prev.len() as int] == n as u8);
            assert forall|v: u8| cur.contains(v) <==> 1 <= v <= n && free(g, i, v) by {
                if cur.contains(v) {
                    let k = choose|k: int| 0 <= k < cur.len() && cur[k] == v;
                    if k < prev.len() {
                        assert(prev[k] == v);
                        assert(prev.contains(v));
                    }
                }
                if 1 <= v <= n && free(g, i, v) {
                    if v == n {
                        assert(cur[prev.len() as int] == v);
                    } else {
                        assert(prev.contains(v));
                        let k = choose|k: int| 0 <= k < prev.len() && prev[k] == v;
                        assert(cur[k] == v);
                    }
                }
            }
        } else {
            assert(cur == prev);
        }
    }
}

/// The `k`-th cell of column `column`, counted from the top.
pub open spec fn column_cell(column: int, k: int) -> int {
    9 * k + column
}

/// The `k`-th cell of row `row`, counted from the left.
pub open spec fn row_cell(row: int, k: int) -> int {
    9 * row + k
}

/// The `k`-th cell of the box in band `band` and stack `stack`, counted row
/// by row from the box's top left corner.
pub open spec fn box_cell(band: int, stack: int, k: int) -> int {
    3 * (9 * band + stack) + (9 * (k / 3) + (k % 3))
}

/// Cell `j` does not stand in the way of `v`: it holds another value, or it
/// is the cell `i` itself and `skip_self` is set.
pub open spec fn clear_of(g: Seq<u8>, j: int, v: u8, i: int, skip_self: bool) -> bool {
    (skip_self && j == i) || g[j] != v
}

/// Every cell that the three scans of `validate_candidate` visit lies in the
/// grid and shares a unit with the scanned cell.
proof fn lemma_scanned_cells_share_unit(i: int, k: int)
    requires
        0 <= i < 81,
        0 <= k < 9,
    ensures
        0 <= column_cell(i % 9, k) < 81,
        shares_unit(i, column_cell(i % 9, k)),
        0 <= row_cell(i / 9, k) < 81,
        shares_unit(i, row_cell(i / 9, k)),
        0 <= box_cell(i / 27, (i % 9) / 3, k) < 81,
        shares_unit(i, box_cell(i / 27, (i % 9) / 3, k)),
{
    let band = i / 27;
    let stack = (i % 9) / 3;
    let b = box_cell(band, stack, k);
    let low = 3 * stack + k % 3;
    let high = 3 * band + k / 3;
    assert(0 <= low < 9 && 0 <= high < 9);
    assert(b == 9 * high + low);
    lemma_fundamental_div_mod_converse(b, 9, high, low);
    lemma_fundamental_div_mod_converse(low, 3, stack, k % 3);
    lemma_fundamental_div_mod_converse(high, 3, band, k / 3);
    assert(b / 27 == (b / 9) / 3) by {
        lemma_div_denominator(b, 9, 3);
    }
    lemma_fundamental_div_mod_converse(column_cell(i % 9, k), 9, k, i % 9);
    lemma_fundamental_div_mod_converse(row_cell(i / 9, k), 9, i / 9, k);
}

/// Every cell that shares a unit with cell `i` is visited by one of the three
/// scans of `validate_candidate`.
proof fn lemma_unit_cells_are_scanned(i: int, j: int)
    requires
        0 <= i < 81,
        0 <= j < 81,
        shares_unit(i, j),
    ensures
        j % 9 == i % 9 ==> column_cell(i % 9, j / 9) == j,
        j / 9 == i / 9 ==> row_cell(i / 9, j % 9) == j,
        (j / 27 == i / 27 && (j % 9) / 3 == (i % 9) / 3) ==> box_cell(
            i / 27,
            (i % 9) / 3,
            3 * ((j / 9) % 3) + (j % 3),
        ) == j,
        0 <= 3 * ((j / 9) % 3) + (j % 3) < 9,
{
    let row = j / 9;
    let col = j % 9;
    lemma_fundamental_div_mod(j, 9);
    lemma_fundamental_div_mod(row, 3);
    lemma_fundamental_div_mod(col, 3);
    assert(j / 27 == row / 3) by {
        lemma_div_denominator(j, 9, 3);
    }
    assert(j % 3 == col % 3) by {
        lemma_mod_mod(j, 3, 3);
    }
    let m = 3 * (row % 3) + col % 3;
    lemma_fundamental_div_mod_converse(m, 3, row % 3, col % 3);
}

/// Whether `value` is absent from the row, column and box of cell `index`;
/// with `exclude_index` the cell itself is not looked at.
fn validate_candidate(grid: &Cells, index: usize, value: u8, exclude_index: bool) -> (ok: bool)
    requires
        index < 81,
    ensures
        ok == unit_free(grid@, index as int, value, exclude_index),
{
    let column_index: usize = index % 9;
    for i in 0..9usize
        invariant
            index < 81,
            column_index == index % 9,
            forall|k: int|
                0 <= k < i ==> clear_of(
                    grid@,
                    #[trigger] column_cell(column_index as int, k),
                    value,
                    index as int,
                    exclude_index,
                ),
    {
        proof {
            lemma_scanned_cells_share_unit(index as int, i as int);
        }
        let idx: usize = 9 * i + column_index;
        if !(exclude_index && idx == index) && grid[idx] == value {
            return false;
        }
    }
    let row_index: usize = index / 9;
    for j in 0..9usize
        invariant
            index < 81,
            row_index == index / 9,
            forall|k: int|
                0 <= k < j ==> clear_of(
                    grid@,
                    #[trigger] row_cell(row_index as int, k),
                    value,
                    index as int,
                    exclude_index,
                ),
    {
        proof {
            lemma_scanned_cells_share_unit(index as int, j as int);
        }
        let idx: usize = 9 * row_index + j;
        if !(exclude_index && idx == index) && grid[idx] == value {
            return false;
        }
    }
    let band_index: usize = row_index / 3;
    let stack_index: usize = column_index / 3;
    for k in 0..9usize
        invariant
            index < 81,
            band_index == index / 27,
            stack_index == (index % 9) / 3,
            forall|m: int|
                0 <= m < k ==> clear_of(
                    grid@,
                    #[trigger] box_cell(band_index as int, stack_index as int, m),
                    value,
                    index as int,
                    exclude_index,
                ),
    {
        proof {
            lemma_scanned_cells_share_unit(index as int, k as int);
        }
        let idx: usize = 3 * (9 * band_index + stack_index) + (9 * (k / 3) + (k % 3));
        if !(exclude_index && idx == index) && grid[idx] == value {
            return false;
        }
    }
    proof {
        let g = grid@;
        assert forall|j: int|
            0 <= j < 81 && shares_unit(index as int, j) && !(exclude_index && j
                == index) implies #[trigger] g[j] != value by {
            lemma_unit_cells_are_scanned(index as int, j);
            let i = index as int;
            if j % 9 == index % 9 {
                assert(clear_of(g, column_cell(i % 9, j / 9), value, i, exclude_index));
            } else if j / 9 == index / 9 {
                assert(clear_of(g, row_cell(i / 9, j % 9), value, i, exclude_index));
            } else {
                let m = 3 * ((j / 9) % 3) + (j % 3);
                assert(clear_of(g, box_cell(i / 27, (i % 9) / 3, m), value, i, exclude_index));
            }
        }
    }
    true
}

/// The digits that may still be written into cell `index`: every digit of
/// `1..=9` that occurs nowhere in the cell's row, column or box, ascending.
pub fn get_candidates(grid: &Cells, index: usize) -> (candidates: Vec<u8>)
    requires
        index < 81,
    ensures
        candidates@ == self::candidates(grid@, index as int),
        candidates@.len() <= 9,
        forall|v: u8| candidates@.contains(v) <==> 1 <= v <= 9 && free(grid@, index as int, v),
        forall|a: int, b: int| 0 <= a < b < candidates@.len() ==> candidates@[a] < candidates@[b],
{
    let mut candidates: Vec<u8> = Vec::new();
    for i in 1..10u8
        invariant
            index < 81,
            candidates@ == candidates_upto(grid@, index as int, (i - 1) as nat),
    {
        if validate_candidate(grid, index, i, false) {
            candidates.push(i);
        }
    }
    proof {
        lemma_candidates_upto(grid@, index as int, 9);
    }
    candidates
}

/// Checks a partial or complete grid against the rules: `true` exactly when
/// no filled cell repeats a value of its row, column or box. Empty cells
/// never conflict.
pub fn verify(grid: &Cells) -> (ok: bool)
    ensures
        ok == consistent(grid@),
{
    for i in 0..81usize
        invariant
            forall|k: int|
                0 <= k < i && #[trigger] grid@[k] != 0 ==> unit_free(grid@, k, grid@[k], true),
    {
        if grid[i] != 0 {
            if !validate_candidate(grid, i, grid[i], true) {
                return false;
            }
        }
    }
    true
}

} // verus!
