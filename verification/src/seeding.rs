//! What the generator relies on while it seeds an empty board: the first
//! row, then the first column.

use vstd::prelude::*;
use crate::grid::{fits, in_board, peers, valid_board, well_formed, Grid};
use crate::search::completes;

verus! {

/// Every filled cell lies among the first `cols` cells of the first row or
/// among the first `rows` cells of the first column.
pub open spec fn only_seed_cells(g: Grid, cols: int, rows: int) -> bool {
    forall|r: int, c: int|
        in_board(r, c) && #[trigger] g[r][c] != 0 ==> (r == 0 && c < cols) || (c == 0 && r < rows)
}

/// The values are digits, none of them twice.
pub open spec fn distinct_digits(values: Seq<i8>) -> bool {
    &&& forall|i: int| 0 <= i < values.len() ==> 1 <= #[trigger] values[i] <= 9
    &&& forall|i: int, j: int| 0 <= i < j < values.len() ==> values[i] != values[j]
}

/// No filled cell of the board holds one of the values.
pub open spec fn unused_on(values: Seq<i8>, g: Grid) -> bool {
    forall|r: int, c: int, i: int|
        in_board(r, c) && 0 <= i < values.len() ==> #[trigger] g[r][c] != #[trigger] values[i]
}

/// Fewer than `m` values cannot hold every digit from 1 to `m`.
pub proof fn lemma_some_digit_missing(s: Seq<i8>, m: int)
    requires
        s.len() < m <= 127,
    ensures
        exists|v: i8| 1 <= v <= m && !s.contains(v),
    decreases m,
{
    let top = m as i8;
    if !s.contains(top) {
        assert(1 <= top <= m && !s.contains(top));
    } else {
        let k = choose|k: int| 0 <= k < s.len() && s[k] == top;
        let rest = s.remove(k);
        lemma_some_digit_missing(rest, m - 1);
        let v = choose|v: i8| 1 <= v <= m - 1 && !rest.contains(v);
        if s.contains(v) {
            let j = choose|j: int| 0 <= j < s.len() && s[j] == v;
            if j < k {
                assert(rest[j] == v);
            } else {
                assert(rest[j - 1] == v);
            }
        }
        assert(1 <= v <= m && !s.contains(v));
    }
}

/// While the first column is being seeded below a filled first row, the next
/// cell of the column has a digit that fits it.
pub proof fn lemma_seed_column_has_candidate(g: Grid, row: int)
    requires
        well_formed(g),
        1 <= row < 9,
        only_seed_cells(g, 9, row),
    ensures
        exists|v: i8| 1 <= v <= 9 && fits(g, row, 0, v),
{
    let above = Seq::new(row as nat, |k: int| g[k][0]);
    let beside = if row < 3 {
        seq![g[0][1], g[0][2]]
    } else {
        Seq::<i8>::empty()
    };
    let blockers = above + beside;
    lemma_some_digit_missing(blockers, 9);
    let v = choose|v: i8| 1 <= v <= 9 && !blockers.contains(v);
    assert forall|r: int, c: int| in_board(r, c) && peers(row, 0, r, c) implies #[trigger] g[r][c]
        != v by {
        if g[r][c] != 0 {
            if c == 0 {
                assert(r < row);
                assert(blockers[r] == g[r][c]);
            } else {
                assert(r == 0 && row < 3 && (c == 1 || c == 2));
                assert(blockers[row + c - 1] == g[r][c]);
            }
        }
    }
    assert(1 <= v <= 9 && fits(g, row, 0, v));
}

/// The place in the first row from which cell `(r, c)` takes its value when
/// the rows below are made of the first row by shifting: by three places
/// from row to row within a band, and by one place from band to band.
pub open spec fn shift(r: int, c: int) -> int {
    (3 * (r % 3) + r / 3 + c) % 9
}

/// The board made of a first row by shifting.
pub open spec fn shifted_rows(first: Seq<i8>) -> Grid {
    Seq::new(9, |r: int| Seq::new(9, |c: int| first[shift(r, c)]))
}

/// Two peers take their values from different places of the first row.
pub proof fn lemma_shift_distinct(r1: int, c1: int, r2: int, c2: int)
    requires
        in_board(r1, c1),
        in_board(r2, c2),
        peers(r1, c1, r2, c2),
    ensures
        0 <= shift(r1, c1) < 9,
        0 <= shift(r2, c2) < 9,
        shift(r1, c1) != shift(r2, c2),
{
}

/// A valid board of which the first row is filled and nothing else has a
/// completion: the board made of that row by shifting.
pub proof fn lemma_first_row_completable(g: Grid)
    requires
        valid_board(g),
        only_seed_cells(g, 9, 0),
        forall|c: int| 0 <= c < 9 ==> g[0][c] != 0,
    ensures
        completes(shifted_rows(g[0]), g),
{
    let s = shifted_rows(g[0]);
    assert forall|r: int, c: int| in_board(r, c) implies 1 <= #[trigger] s[r][c] <= 9 by {
        let k = shift(r, c);
        assert(in_board(0, k));
        assert(0 <= g[0][k] <= 9);
    }
    assert forall|r: int, c: int| in_board(r, c) implies if g[r][c] != 0 {
        #[trigger] s[r][c] == g[r][c]
    } else {
        fits(s, r, c, s[r][c])
    } by {
        if g[r][c] != 0 {
            assert(r == 0);
            assert(shift(0, c) == c);
        } else {
            let k = shift(r, c);
            assert forall|r2: int, c2: int|
                in_board(r2, c2) && peers(r, c, r2, c2) implies #[trigger] s[r2][c2]
                != s[r][c] by {
                let k2 = shift(r2, c2);
                lemma_shift_distinct(r, c, r2, c2);
                assert(in_board(0, k));
                assert(g[0][k] != 0);
                assert(fits(g, 0, k, g[0][k]));
                assert(in_board(0, k2) && peers(0, k, 0, k2));
                assert(g[0][k2] != g[0][k]);
            }
        }
    }
}

} // verus!
