//! A measure of how far the search has come, which every step increases or
//! leaves alone while the scan moves on. It bounds the length of a search.

use vstd::prelude::*;
use crate::grid::Grid;
use crate::search::tried_before;

verus! {

/// The weight of the cell with row-major index `i`: twenty times the weight
/// of the next cell.
pub closed spec fn weight(i: int) -> int
    decreases 81 - i,
{
    if i >= 81 {
        1
    } else {
        20 * weight(i + 1)
    }
}

/// The place of `v` in the order of trial, from 1 for the value tried first.
pub open spec fn rank(reverse: bool, v: i8) -> int {
    if reverse {
        10 - v
    } else {
        v as int
    }
}

/// The value that `now` holds in the cell with row-major index `i`.
pub open spec fn cell(g: Grid, i: int) -> i8 {
    g[i / 9][i % 9]
}

/// What the cell with index `i` adds to the measure: nothing for a clue of
/// `start`, twice its rank times its weight otherwise.
pub open spec fn cell_share(start: Grid, now: Grid, reverse: bool, i: int) -> int {
    if cell(start, i) == 0 {
        2 * rank(reverse, cell(now, i)) * weight(i)
    } else {
        0
    }
}

/// The shares of the cells with index below `n`.
pub closed spec fn filled_share(start: Grid, now: Grid, reverse: bool, n: int) -> int
    decreases n,
{
    if n <= 0 {
        0
    } else {
        filled_share(start, now, reverse, n - 1) + cell_share(start, now, reverse, n - 1)
    }
}

/// The measure of a search state at cell index `at`: the shares of the cells
/// behind it, and, when the search has come back to the cell to try a later
/// value, one more than the share of its present value.
pub open spec fn progress(start: Grid, now: Grid, reverse: bool, at: int, backtrack: bool) -> int {
    filled_share(start, now, reverse, at) + if backtrack {
        (2 * rank(reverse, cell(now, at)) + 1) * weight(at)
    } else {
        0
    }
}

/// No measure reaches this bound.
pub open spec fn progress_limit() -> int {
    20 * weight(0)
}

pub proof fn lemma_weight_positive(i: int)
    ensures
        weight(i) >= 1,
    decreases 81 - i,
{
    if i < 81 {
        lemma_weight_positive(i + 1);
    }
}

/// An earlier cell weighs at least twenty times as much as a later one.
pub proof fn lemma_weight_step(i: int, j: int)
    requires
        i < j <= 81,
    ensures
        weight(i) >= 20 * weight(j),
    decreases j - i,
{
    lemma_weight_positive(j);
    if i + 1 < j {
        lemma_weight_step(i + 1, j);
    }
}

/// A value tried later has a higher rank.
pub proof fn lemma_rank_order(reverse: bool, a: i8, b: i8)
    ensures
        tried_before(reverse, a, b) <==> rank(reverse, a) < rank(reverse, b),
{
}

/// The shares of the cells below `n` depend on those cells alone.
pub proof fn lemma_filled_share_frame(start: Grid, a: Grid, b: Grid, reverse: bool, n: int)
    requires
        0 <= n <= 81,
        forall|i: int| 0 <= i < n ==> cell(a, i) == cell(b, i),
    ensures
        filled_share(start, a, reverse, n) == filled_share(start, b, reverse, n),
    decreases n,
{
    if n > 0 {
        lemma_filled_share_frame(start, a, b, reverse, n - 1);
        assert(cell(a, n - 1) == cell(b, n - 1));
    }
}

/// Clues add nothing.
pub proof fn lemma_filled_share_clues(start: Grid, now: Grid, reverse: bool, m: int, n: int)
    requires
        0 <= m <= n <= 81,
        forall|i: int| m <= i < n ==> cell(start, i) != 0,
    ensures
        filled_share(start, now, reverse, n) == filled_share(start, now, reverse, m),
    decreases n - m,
{
    if m < n {
        lemma_filled_share_clues(start, now, reverse, m, n - 1);
        assert(cell(start, n - 1) != 0);
    }
}

/// The shares of the cells below `n` leave room for those from `n` on.
pub proof fn lemma_filled_share_bound(start: Grid, now: Grid, reverse: bool, n: int)
    requires
        0 <= n <= 81,
        forall|i: int| 0 <= i < n && cell(start, i) == 0 ==> 1 <= cell(now, i) <= 9,
    ensures
        0 <= filled_share(start, now, reverse, n) <= 20 * weight(0) - 20 * weight(n),
    decreases n,
{
    if n > 0 {
        lemma_filled_share_bound(start, now, reverse, n - 1);
        lemma_weight_positive(n);
        let w = weight(n - 1);
        assert(w == 20 * weight(n));
        if cell(start, n - 1) == 0 {
            let k = rank(reverse, cell(now, n - 1));
            assert(1 <= k <= 9);
            assert(0 <= 2 * k * w <= 18 * w) by (nonlinear_arith)
                requires
                    1 <= k <= 9,
                    w >= 1,
            ;
        }
    }
}

/// The share of one more cell.
pub proof fn lemma_filled_share_next(start: Grid, now: Grid, reverse: bool, n: int)
    requires
        0 <= n,
    ensures
        filled_share(start, now, reverse, n + 1) == filled_share(start, now, reverse, n)
            + cell_share(start, now, reverse, n),
{
}

} // verus!
