//! Sums over grids of integers: by rows, by columns, and how they add.
use vstd::prelude::*;

verus! {

/// `f(a, 0) + … + f(a, k - 1)`.
pub open spec fn row_sum(f: spec_fn(int, int) -> int, a: int, k: int) -> int
    decreases k,
{
    if k <= 0 {
        0
    } else {
        row_sum(f, a, k - 1) + f(a, k - 1)
    }
}

/// `f` summed over the grid `0..m × 0..k`.
pub open spec fn grid_sum(f: spec_fn(int, int) -> int, m: int, k: int) -> int
    decreases m,
{
    if m <= 0 {
        0
    } else {
        grid_sum(f, m - 1, k) + row_sum(f, m - 1, k)
    }
}

pub proof fn lemma_row_sum_add(f: spec_fn(int, int) -> int, g: spec_fn(int, int) -> int, h: spec_fn(int, int) -> int, a: int, k: int)
    requires
        forall|x: int, y: int| #[trigger] h(x, y) == f(x, y) + g(x, y),
    ensures
        row_sum(h, a, k) == row_sum(f, a, k) + row_sum(g, a, k),
    decreases k,
{
    if k > 0 {
        lemma_row_sum_add(f, g, h, a, k - 1);
        assert(h(a, k - 1) == f(a, k - 1) + g(a, k - 1));
    }
}

pub proof fn lemma_grid_add(f: spec_fn(int, int) -> int, g: spec_fn(int, int) -> int, h: spec_fn(int, int) -> int, m: int, k: int)
    requires
        forall|x: int, y: int| #[trigger] h(x, y) == f(x, y) + g(x, y),
    ensures
        grid_sum(h, m, k) == grid_sum(f, m, k) + grid_sum(g, m, k),
    decreases m,
{
    if m > 0 {
        lemma_grid_add(f, g, h, m - 1, k);
        lemma_row_sum_add(f, g, h, m - 1, k);
    }
}

pub proof fn lemma_row_sum_point(f: spec_fn(int, int) -> int, x: int, y: int, a: int, k: int)
    requires
        forall|i: int, j: int| #[trigger] f(i, j) == if i == x && j == y { 1int } else { 0int },
    ensures
        row_sum(f, a, k) == if a == x && 0 <= y < k { 1int } else { 0int },
    decreases k,
{
    if k > 0 {
        lemma_row_sum_point(f, x, y, a, k - 1);
        assert(f(a, k - 1) == if a == x && k - 1 == y { 1int } else { 0int });
    }
}

pub proof fn lemma_grid_point(f: spec_fn(int, int) -> int, x: int, y: int, m: int, k: int)
    requires
        forall|i: int, j: int| #[trigger] f(i, j) == if i == x && j == y { 1int } else { 0int },
    ensures
        grid_sum(f, m, k) == if 0 <= x < m && 0 <= y < k { 1int } else { 0int },
    decreases m,
{
    if m > 0 {
        lemma_grid_point(f, x, y, m - 1, k);
        lemma_row_sum_point(f, x, y, m - 1, k);
    }
}

pub proof fn lemma_row_sum_le(f: spec_fn(int, int) -> int, g: spec_fn(int, int) -> int, a: int, k: int)
    requires
        forall|x: int, y: int| #[trigger] f(x, y) <= g(x, y),
    ensures
        row_sum(f, a, k) <= row_sum(g, a, k),
    decreases k,
{
    if k > 0 {
        lemma_row_sum_le(f, g, a, k - 1);
        assert(f(a, k - 1) <= g(a, k - 1));
    }
}

pub proof fn lemma_grid_le(f: spec_fn(int, int) -> int, g: spec_fn(int, int) -> int, m: int, k: int)
    requires
        forall|x: int, y: int| #[trigger] f(x, y) <= g(x, y),
    ensures
        grid_sum(f, m, k) <= grid_sum(g, m, k),
    decreases m,
{
    if m > 0 {
        lemma_grid_le(f, g, m - 1, k);
        lemma_row_sum_le(f, g, m - 1, k);
    }
}

/// The sum of `f(b, a)` for `a < m`: column `b` of `f` read as a row.
pub open spec fn column_sum(f: spec_fn(int, int) -> int, b: int, m: int) -> int
    decreases m,
{
    if m <= 0 {
        0
    } else {
        column_sum(f, b, m - 1) + f(m - 1, b)
    }
}

/// Peeling the last column off a grid.
pub proof fn lemma_grid_last_column(f: spec_fn(int, int) -> int, m: int, k: int)
    requires
        k > 0,
    ensures
        grid_sum(f, m, k) == grid_sum(f, m, k - 1) + column_sum(f, k - 1, m),
    decreases m,
{
    if m > 0 {
        lemma_grid_last_column(f, m - 1, k);
    }
}

/// `f` with its arguments swapped.
pub open spec fn swapped(f: spec_fn(int, int) -> int) -> spec_fn(int, int) -> int {
    |a: int, b: int| f(b, a)
}

proof fn lemma_column_row(f: spec_fn(int, int) -> int, b: int, m: int)
    ensures
        column_sum(f, b, m) == row_sum(swapped(f), b, m),
    decreases m,
{
    if m > 0 {
        lemma_column_row(f, b, m - 1);
    }
}

/// Summing a grid by rows or by columns gives the same total.
pub proof fn lemma_grid_transpose(f: spec_fn(int, int) -> int, m: int, k: int)
    requires
        m >= 0,
    ensures
        grid_sum(f, m, k) == grid_sum(swapped(f), k, m),
    decreases k,
{
    if k <= 0 {
        lemma_grid_empty(f, m, k);
    } else {
        lemma_grid_transpose(f, m, k - 1);
        lemma_grid_last_column(f, m, k);
        lemma_column_row(f, k - 1, m);
    }
}

proof fn lemma_grid_empty(f: spec_fn(int, int) -> int, m: int, k: int)
    requires
        k <= 0,
    ensures
        grid_sum(f, m, k) == 0,
    decreases m,
{
    if m > 0 {
        lemma_grid_empty(f, m - 1, k);
    }
}

/// Zero everywhere.
pub open spec fn zero_at() -> spec_fn(int, int) -> int {
    |a: int, b: int| 0int
}

pub proof fn lemma_grid_zero(m: int, k: int)
    ensures
        grid_sum(zero_at(), m, k) == 0,
    decreases m,
{
    if m > 0 {
        lemma_grid_zero(m - 1, k);
        lemma_row_zero(m - 1, k);
    }
}

pub proof fn lemma_row_zero(a: int, k: int)
    ensures
        row_sum(zero_at(), a, k) == 0,
    decreases k,
{
    if k > 0 {
        lemma_row_zero(a, k - 1);
    }
}

} // verus!
