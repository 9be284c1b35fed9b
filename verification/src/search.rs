//! What the backtracking search computes, stated apart from how it runs:
//! completions of a board and the order in which they are met.

use vstd::prelude::*;
use crate::grid::{fits, full, in_board, place, well_formed, Grid};

verus! {

/// Cell `(r1, c1)` is visited before `(r2, c2)` by a row-major scan.
pub open spec fn scans_before(r1: int, c1: int, r2: int, c2: int) -> bool {
    r1 < r2 || (r1 == r2 && c1 < c2)
}

/// The search tries value `a` before value `b`: ascending by default,
/// descending when `reverse` is set.
pub open spec fn tried_before(reverse: bool, a: i8, b: i8) -> bool {
    if reverse {
        a > b
    } else {
        a < b
    }
}

/// `s` fills every empty cell of `g`: it is well formed and full, keeps each
/// clue of `g`, and no cell that `g` leaves empty repeats the value of one of
/// its peers in `s`.
pub open spec fn completes(s: Grid, g: Grid) -> bool {
    &&& well_formed(s)
    &&& full(s)
    &&& forall|r: int, c: int|
        in_board(r, c) ==> if g[r][c] != 0 {
            #[trigger] s[r][c] == g[r][c]
        } else {
            fits(s, r, c, s[r][c])
        }
}

/// The two boards hold the same values in every cell scanned before
/// `(row, col)`.
pub open spec fn agrees_before(a: Grid, b: Grid, row: int, col: int) -> bool {
    forall|r: int, c: int|
        in_board(r, c) && scans_before(r, c, row, col) ==> #[trigger] a[r][c] == b[r][c]
}

/// The search meets `a` before `b`: at the first cell of the scan where they
/// differ, the value of `a` is tried first.
pub open spec fn search_less(reverse: bool, a: Grid, b: Grid) -> bool {
    exists|r: int, c: int|
        in_board(r, c) && #[trigger] agrees_before(a, b, r, c) && tried_before(
            reverse,
            a[r][c],
            b[r][c],
        )
}

/// `s` is the completion of `g` that the search meets first: the least in
/// row-major lexicographic order, or the greatest when `reverse` is set.
pub open spec fn first_completion(s: Grid, g: Grid, reverse: bool) -> bool {
    &&& completes(s, g)
    &&& forall|t: Grid| #[trigger] completes(t, g) ==> !search_less(reverse, t, s)
}

/// No board completes `g`.
pub open spec fn unsolvable(g: Grid) -> bool {
    forall|s: Grid| !#[trigger] completes(s, g)
}

/// `f` is `g` after a failed search that ended at `(row, col)`: that cell is
/// the first empty cell of `g`, no other cell has changed, and the cell holds
/// the value that fits it in `g` and is tried last, or is still empty when no
/// value fits.
pub open spec fn stalls_at(f: Grid, g: Grid, reverse: bool, row: int, col: int) -> bool {
    &&& in_board(row, col)
    &&& g[row][col] == 0
    &&& forall|r: int, c: int|
        in_board(r, c) && scans_before(r, c, row, col) ==> #[trigger] g[r][c] != 0
    &&& f == place(g, row, col, f[row][col])
    &&& f[row][col] != 0 ==> 1 <= f[row][col] <= 9 && fits(g, row, col, f[row][col])
    &&& forall|v: i8|
        1 <= v <= 9 && #[trigger] fits(g, row, col, v) ==> f[row][col] != 0 && !tried_before(
            reverse,
            f[row][col],
            v,
        )
}

/// `f` is what a failed search leaves of `g`.
pub open spec fn stalled(f: Grid, g: Grid, reverse: bool) -> bool {
    exists|row: int, col: int| #[trigger] stalls_at(f, g, reverse, row, col)
}

/// What a search that started from `g` reports and leaves behind: on success
/// the completion it meets first; on failure a board that has no completion,
/// left as `stalled` describes.
pub open spec fn search_outcome(g: Grid, f: Grid, reverse: bool, found: bool) -> bool {
    if found {
        first_completion(f, g, reverse)
    } else {
        unsolvable(g) && stalled(f, g, reverse)
    }
}

} // verus!
