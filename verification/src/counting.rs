//! Sums of a nonnegative quantity over a rectangle of grid coordinates.
//!
//! Both headline counts of the library — how many cells the carver has
//! visited and how many passages it has opened — are such sums, as is the
//! size of the closed set that bounds the A* loop. The lemmas here are the
//! usual ones: a pointwise bound bounds the sum, pointwise equal quantities
//! sum alike, and changing the quantity at a single coordinate shifts the sum
//! by exactly that difference.

use vstd::prelude::*;

verus! {

/// Sum of `f(x, y)` over `0 <= y < h` for the single column `x`.
pub open spec fn sum_col(f: spec_fn(int, int) -> nat, x: int, h: int) -> nat
    decreases h,
{
    if h <= 0 {
        0
    } else {
        sum_col(f, x, h - 1) + f(x, h - 1)
    }
}

/// Sum of `f(x, y)` over `0 <= x < w`, `0 <= y < h`.
pub open spec fn sum_grid(f: spec_fn(int, int) -> nat, w: int, h: int) -> nat
    decreases w,
{
    if w <= 0 {
        0
    } else {
        sum_grid(f, w - 1, h) + sum_col(f, w - 1, h)
    }
}

/// A column sum of a 0/1 quantity is at most the column height.
pub proof fn lemma_sum_col_le_one(f: spec_fn(int, int) -> nat, x: int, h: int)
    requires
        forall|y: int| 0 <= y < h ==> #[trigger] f(x, y) <= 1,
        h >= 0,
    ensures
        sum_col(f, x, h) <= h,
    decreases h,
{
    if h > 0 {
        lemma_sum_col_le_one(f, x, h - 1);
    }
}

/// A grid sum of a 0/1 quantity is at most the number of coordinates.
pub proof fn lemma_sum_grid_le_one(f: spec_fn(int, int) -> nat, w: int, h: int)
    requires
        forall|x: int, y: int| 0 <= x < w && 0 <= y < h ==> #[trigger] f(x, y) <= 1,
        w >= 0,
        h >= 0,
    ensures
        sum_grid(f, w, h) <= w * h,
    decreases w,
{
    if w > 0 {
        lemma_sum_grid_le_one(f, w - 1, h);
        lemma_sum_col_le_one(f, w - 1, h);
        assert((w - 1) * h + h == w * h) by (nonlinear_arith);
    }
}

/// Quantities that agree on a column sum alike over it.
pub proof fn lemma_sum_col_agree(
    f: spec_fn(int, int) -> nat,
    g: spec_fn(int, int) -> nat,
    x: int,
    h: int,
)
    requires
        forall|y: int| 0 <= y < h ==> #[trigger] f(x, y) == g(x, y),
    ensures
        sum_col(f, x, h) == sum_col(g, x, h),
    decreases h,
{
    if h > 0 {
        lemma_sum_col_agree(f, g, x, h - 1);
    }
}

/// Quantities that agree on the rectangle sum alike over it.
pub proof fn lemma_sum_grid_agree(
    f: spec_fn(int, int) -> nat,
    g: spec_fn(int, int) -> nat,
    w: int,
    h: int,
)
    requires
        forall|x: int, y: int| 0 <= x < w && 0 <= y < h ==> #[trigger] f(x, y) == g(x, y),
    ensures
        sum_grid(f, w, h) == sum_grid(g, w, h),
    decreases w,
{
    if w > 0 {
        lemma_sum_grid_agree(f, g, w - 1, h);
        lemma_sum_col_agree(f, g, w - 1, h);
    }
}

/// Raising the quantity at one coordinate of a column by `d` raises the
/// column sum by `d`.
pub proof fn lemma_sum_col_diff(
    f: spec_fn(int, int) -> nat,
    g: spec_fn(int, int) -> nat,
    x: int,
    cy: int,
    h: int,
)
    requires
        forall|y: int| 0 <= y < h && y != cy ==> #[trigger] f(x, y) == g(x, y),
        0 <= cy < h,
        g(x, cy) >= f(x, cy),
    ensures
        sum_col(g, x, h) == sum_col(f, x, h) + g(x, cy) - f(x, cy),
    decreases h,
{
    if cy == h - 1 {
        lemma_sum_col_agree(f, g, x, h - 1);
    } else {
        lemma_sum_col_diff(f, g, x, cy, h - 1);
    }
}

/// Raising the quantity at one coordinate of the rectangle by `d` raises the
/// rectangle sum by `d`.
pub proof fn lemma_sum_grid_diff(
    f: spec_fn(int, int) -> nat,
    g: spec_fn(int, int) -> nat,
    cx: int,
    cy: int,
    w: int,
    h: int,
)
    requires
        forall|x: int, y: int|
            0 <= x < w && 0 <= y < h && !(x == cx && y == cy) ==> #[trigger] f(x, y) == g(x, y),
        0 <= cx < w,
        0 <= cy < h,
        g(cx, cy) >= f(cx, cy),
    ensures
        sum_grid(g, w, h) == sum_grid(f, w, h) + g(cx, cy) - f(cx, cy),
    decreases w,
{
    if cx == w - 1 {
        lemma_sum_grid_agree(f, g, w - 1, h);
        lemma_sum_col_diff(f, g, w - 1, cy, h);
    } else {
        lemma_sum_grid_diff(f, g, cx, cy, w - 1, h);
        lemma_sum_col_agree(f, g, w - 1, h);
    }
}

/// A column sum of an everywhere-one quantity is the column height.
pub proof fn lemma_sum_col_one(f: spec_fn(int, int) -> nat, x: int, h: int)
    requires
        forall|y: int| 0 <= y < h ==> #[trigger] f(x, y) == 1,
        h >= 0,
    ensures
        sum_col(f, x, h) == h,
    decreases h,
{
    if h > 0 {
        lemma_sum_col_one(f, x, h - 1);
    }
}

/// A grid sum of an everywhere-one quantity is the number of coordinates.
pub proof fn lemma_sum_grid_one(f: spec_fn(int, int) -> nat, w: int, h: int)
    requires
        forall|x: int, y: int| 0 <= x < w && 0 <= y < h ==> #[trigger] f(x, y) == 1,
        w >= 0,
        h >= 0,
    ensures
        sum_grid(f, w, h) == w * h,
    decreases w,
{
    if w > 0 {
        lemma_sum_grid_one(f, w - 1, h);
        lemma_sum_col_one(f, w - 1, h);
        assert((w - 1) * h + h == w * h) by (nonlinear_arith);
    } else {
        assert(w * h == 0) by (nonlinear_arith)
            requires
                w == 0,
        ;
    }
}

/// A sum of an everywhere-zero quantity is zero.
pub proof fn lemma_sum_col_zero(f: spec_fn(int, int) -> nat, x: int, h: int)
    requires
        forall|y: int| 0 <= y < h ==> #[trigger] f(x, y) == 0,
    ensures
        sum_col(f, x, h) == 0,
    decreases h,
{
    if h > 0 {
        lemma_sum_col_zero(f, x, h - 1);
    }
}

/// A grid sum of an everywhere-zero quantity is zero.
pub proof fn lemma_sum_grid_zero(f: spec_fn(int, int) -> nat, w: int, h: int)
    requires
        forall|x: int, y: int| 0 <= x < w && 0 <= y < h ==> #[trigger] f(x, y) == 0,
    ensures
        sum_grid(f, w, h) == 0,
    decreases w,
{
    if w > 0 {
        lemma_sum_grid_zero(f, w - 1, h);
        lemma_sum_col_zero(f, w - 1, h);
    }
}

} // verus!
