//! What holds of the rules and of the search between them, proved once for
//! every board.

use vstd::prelude::*;
use crate::grid::{
    fits, full, has_shape, in_board, legal, lemma_grid_ext, lemma_place, lists_candidates, peers,
    place, solved, valid_board, well_formed, Grid,
};
use crate::progress::cell;
use crate::search::{
    agrees_before, completes, first_completion, scans_before, search_less, search_outcome,
    stalled, stalls_at, tried_before,
};

verus! {

/// Every cell that `g` fills holds the same value in `s`.
pub open spec fn extends(s: Grid, g: Grid) -> bool {
    forall|r: int, c: int| in_board(r, c) && g[r][c] != 0 ==> #[trigger] s[r][c] == g[r][c]
}

/// The board has no two different completions.
pub open spec fn at_most_one_completion(g: Grid) -> bool {
    forall|a: Grid, b: Grid| #[trigger] completes(a, g) && #[trigger] completes(b, g) ==> a == b
}

/// The ascending search and the descending search end on the same board.
pub open spec fn searches_agree(g: Grid) -> bool {
    exists|f: Grid, found: bool|
        #[trigger] search_outcome(g, f, false, found) && search_outcome(g, f, true, found)
}

/// A legal, fully solved board passes validation.
pub proof fn lemma_solved_is_valid(g: Grid)
    requires
        solved(g),
    ensures
        valid_board(g),
{
}

/// A board in which a filled cell repeats the value of another cell of its
/// row, column or box fails validation.
pub proof fn lemma_duplicate_is_invalid(g: Grid, r1: int, c1: int, r2: int, c2: int)
    requires
        in_board(r1, c1),
        in_board(r2, c2),
        peers(r1, c1, r2, c2),
        g[r1][c1] != 0,
        g[r1][c1] == g[r2][c2],
    ensures
        !valid_board(g),
{
    if legal(g) {
        assert(fits(g, r1, c1, g[r1][c1]));
        assert(g[r2][c2] != g[r1][c1]);
    }
}

/// On a valid board, writing a digit into a cell gives a valid board exactly
/// when the digit fits the cell. What the cell held before does not matter.
pub proof fn lemma_placing_keeps_valid(g: Grid, row: int, col: int, v: i8)
    requires
        valid_board(g),
        in_board(row, col),
        1 <= v <= 9,
    ensures
        valid_board(place(g, row, col, v)) <==> fits(g, row, col, v),
{
    let p = place(g, row, col, v);
    lemma_place(g, row, col, v);
    assert(well_formed(p));
    if fits(g, row, col, v) {
        assert forall|r: int, c: int| in_board(r, c) && #[trigger] p[r][c] != 0 implies fits(
            p,
            r,
            c,
            p[r][c],
        ) by {
            if r == row && c == col {
                assert forall|r2: int, c2: int|
                    in_board(r2, c2) && peers(r, c, r2, c2) implies #[trigger] p[r2][c2] != v by {
                    assert(g[r2][c2] != v);
                }
            } else {
                assert(g[r][c] != 0);
                assert(fits(g, r, c, g[r][c]));
                assert forall|r2: int, c2: int|
                    in_board(r2, c2) && peers(r, c, r2, c2) implies #[trigger] p[r2][c2]
                    != p[r][c] by {
                    if r2 == row && c2 == col {
                        assert(peers(row, col, r, c));
                        assert(g[r][c] != v);
                    } else {
                        assert(g[r2][c2] != g[r][c]);
                    }
                }
            }
        }
    }
    if legal(p) {
        assert(p[row][col] != 0);
        assert(fits(p, row, col, v));
        assert forall|r: int, c: int| in_board(r, c) && peers(row, col, r, c) implies #[trigger] g[r][c]
            != v by {
            assert(p[r][c] != v);
        }
    }
}

/// Clearing a cell of a valid board leaves a valid board.
pub proof fn lemma_clearing_keeps_valid(g: Grid, row: int, col: int)
    requires
        valid_board(g),
        in_board(row, col),
    ensures
        valid_board(place(g, row, col, 0)),
{
    let p = place(g, row, col, 0);
    lemma_place(g, row, col, 0);
    assert forall|r: int, c: int| in_board(r, c) && #[trigger] p[r][c] != 0 implies fits(
        p,
        r,
        c,
        p[r][c],
    ) by {
        assert(g[r][c] == p[r][c]);
        assert(fits(g, r, c, g[r][c]));
        assert forall|r2: int, c2: int|
            in_board(r2, c2) && peers(r, c, r2, c2) implies #[trigger] p[r2][c2] != p[r][c] by {
            if r2 == row && c2 == col {
            } else {
                assert(g[r2][c2] != g[r][c]);
            }
        }
    }
}

/// The candidates of a cell of a valid board are exactly the digits that can
/// be written into it with the board staying valid.
pub proof fn lemma_candidates_decide_validity(g: Grid, row: int, col: int, list: Seq<i8>, v: i8)
    requires
        valid_board(g),
        in_board(row, col),
        lists_candidates(list, g, row, col),
        1 <= v <= 9,
    ensures
        list.contains(v) <==> valid_board(place(g, row, col, v)),
{
    lemma_placing_keeps_valid(g, row, col, v);
}

/// A cell has one list of candidates and no other.
pub proof fn lemma_candidate_list_unique(g: Grid, row: int, col: int, a: Seq<i8>, b: Seq<i8>)
    requires
        lists_candidates(a, g, row, col),
        lists_candidates(b, g, row, col),
    ensures
        a == b,
{
    lemma_ascending_equal(a, b);
}

/// Two strictly ascending sequences with the same members are equal.
proof fn lemma_ascending_equal(a: Seq<i8>, b: Seq<i8>)
    requires
        forall|i: int, j: int| 0 <= i < j < a.len() ==> a[i] < a[j],
        forall|i: int, j: int| 0 <= i < j < b.len() ==> b[i] < b[j],
        forall|v: i8| a.contains(v) <==> b.contains(v),
    ensures
        a == b,
    decreases a.len(),
{
    if a.len() == 0 {
        if b.len() > 0 {
            assert(b.contains(b[0]));
        }
        assert(a =~= b);
    } else {
        let x = a[a.len() - 1];
        assert(a.contains(x));
        let k = choose|k: int| 0 <= k < b.len() && b[k] == x;
        if k < b.len() - 1 {
            let y = b[b.len() - 1];
            assert(b.contains(y));
            let j = choose|j: int| 0 <= j < a.len() && a[j] == y;
            assert(j == a.len() - 1 || a[j] < a[a.len() - 1]);
        }
        let a0 = a.drop_last();
        let b0 = b.drop_last();
        assert forall|v: i8| a0.contains(v) <==> b0.contains(v) by {
            if a0.contains(v) {
                let i = choose|i: int| 0 <= i < a0.len() && a0[i] == v;
                assert(a[i] == v);
                assert(a[i] < x);
                assert(a.contains(v));
                let m = choose|m: int| 0 <= m < b.len() && b[m] == v;
                assert(m != b.len() - 1);
                assert(b0[m] == v);
            }
            if b0.contains(v) {
                let i = choose|i: int| 0 <= i < b0.len() && b0[i] == v;
                assert(b[i] == v);
                assert(b[i] < b[b.len() - 1]);
                assert(b.contains(v));
                let m = choose|m: int| 0 <= m < a.len() && a[m] == v;
                assert(m != a.len() - 1);
                assert(a0[m] == v);
            }
        }
        lemma_ascending_equal(a0, b0);
        assert(a =~= a0.push(x));
        assert(b =~= b0.push(x));
    }
}

/// Either the two boards agree on the first `n` cells of the scan, or there
/// is a first cell where they differ.
proof fn lemma_first_difference_upto(a: Grid, b: Grid, n: int)
    requires
        has_shape(a),
        has_shape(b),
        0 <= n <= 81,
    ensures
        (forall|i: int| 0 <= i < n ==> cell(a, i) == cell(b, i)) || (exists|r: int, c: int|
            in_board(r, c) && #[trigger] agrees_before(a, b, r, c) && a[r][c] != b[r][c]),
    decreases n,
{
    if n > 0 {
        lemma_first_difference_upto(a, b, n - 1);
        if forall|i: int| 0 <= i < n - 1 ==> cell(a, i) == cell(b, i) {
            if cell(a, n - 1) != cell(b, n - 1) {
                let r = (n - 1) / 9;
                let c = (n - 1) % 9;
                assert(agrees_before(a, b, r, c)) by {
                    assert forall|r2: int, c2: int|
                        in_board(r2, c2) && scans_before(r2, c2, r, c) implies #[trigger] a[r2][c2]
                        == b[r2][c2] by {
                        let i = r2 * 9 + c2;
                        assert(cell(a, i) == cell(b, i));
                    }
                }
                assert(in_board(r, c) && agrees_before(a, b, r, c) && a[r][c] != b[r][c]);
            }
        }
    }
}

/// Two different boards have a first cell, in scan order, where they differ.
pub proof fn lemma_first_difference(a: Grid, b: Grid)
    requires
        has_shape(a),
        has_shape(b),
        a != b,
    ensures
        exists|r: int, c: int|
            in_board(r, c) && #[trigger] agrees_before(a, b, r, c) && a[r][c] != b[r][c],
{
    lemma_first_difference_upto(a, b, 81);
    if forall|i: int| 0 <= i < 81 ==> cell(a, i) == cell(b, i) {
        assert forall|r: int, c: int| in_board(r, c) implies #[trigger] a[r][c] == b[r][c] by {
            let i = r * 9 + c;
            assert(cell(a, i) == cell(b, i));
        }
        lemma_grid_ext(a, b);
    }
}

/// The order of the search is total: of two different boards, one is met
/// before the other.
pub proof fn lemma_search_order_total(reverse: bool, a: Grid, b: Grid)
    requires
        has_shape(a),
        has_shape(b),
        a != b,
    ensures
        search_less(reverse, a, b) || search_less(reverse, b, a),
{
    lemma_first_difference(a, b);
    let (r, c) = choose|r: int, c: int|
        in_board(r, c) && #[trigger] agrees_before(a, b, r, c) && a[r][c] != b[r][c];
    if tried_before(reverse, a[r][c], b[r][c]) {
    } else {
        assert(tried_before(reverse, b[r][c], a[r][c]));
        assert(agrees_before(b, a, r, c)) by {
            assert forall|r2: int, c2: int|
                in_board(r2, c2) && scans_before(r2, c2, r, c) implies #[trigger] b[r2][c2]
                == a[r2][c2] by {
                assert(a[r2][c2] == b[r2][c2]);
            }
        }
    }
}

/// A board has at most one first completion in either direction.
pub proof fn lemma_first_completion_unique(g: Grid, a: Grid, b: Grid, reverse: bool)
    requires
        first_completion(a, g, reverse),
        first_completion(b, g, reverse),
    ensures
        a == b,
{
    if a != b {
        lemma_search_order_total(reverse, a, b);
    }
}

/// A failed search can leave a board in one way only.
pub proof fn lemma_stalled_unique(g: Grid, a: Grid, b: Grid, reverse: bool)
    requires
        stalled(a, g, reverse),
        stalled(b, g, reverse),
    ensures
        a == b,
{
    let (ra, ca) = choose|r: int, c: int| #[trigger] stalls_at(a, g, reverse, r, c);
    let (rb, cb) = choose|r: int, c: int| #[trigger] stalls_at(b, g, reverse, r, c);
    if scans_before(ra, ca, rb, cb) {
        assert(g[ra][ca] != 0);
    }
    if scans_before(rb, cb, ra, ca) {
        assert(g[rb][cb] != 0);
    }
    assert(ra == rb && ca == cb);
    let wa = a[ra][ca];
    let wb = b[ra][ca];
    if wa != 0 {
        assert(fits(g, ra, ca, wa));
    }
    if wb != 0 {
        assert(fits(g, ra, ca, wb));
    }
    assert(wa == wb);
}

/// What a search reports and what it leaves behind are determined by the
/// board it starts from and by its direction.
pub proof fn lemma_outcome_unique(
    g: Grid,
    reverse: bool,
    f1: Grid,
    found1: bool,
    f2: Grid,
    found2: bool,
)
    requires
        search_outcome(g, f1, reverse, found1),
        search_outcome(g, f2, reverse, found2),
    ensures
        found1 == found2,
        f1 == f2,
{
    if found1 && found2 {
        lemma_first_completion_unique(g, f1, f2, reverse);
    } else if !found1 && !found2 {
        lemma_stalled_unique(g, f1, f2, reverse);
    } else if found1 {
        assert(completes(f1, g));
    } else {
        assert(completes(f2, g));
    }
}

/// A search succeeds exactly on the boards that have a completion.
pub proof fn lemma_found_iff_completable(g: Grid, f: Grid, reverse: bool, found: bool)
    requires
        search_outcome(g, f, reverse, found),
    ensures
        found <==> exists|s: Grid| completes(s, g),
{
    if found {
        assert(completes(f, g));
    }
}

/// What completes a valid board is a solved board that keeps its clues.
pub proof fn lemma_completion_is_solved(g: Grid, s: Grid)
    requires
        valid_board(g),
        completes(s, g),
    ensures
        solved(s),
        extends(s, g),
{
    assert forall|r: int, c: int| in_board(r, c) && #[trigger] s[r][c] != 0 implies fits(
        s,
        r,
        c,
        s[r][c],
    ) by {
        if g[r][c] != 0 {
            assert(fits(g, r, c, g[r][c]));
            assert forall|r2: int, c2: int|
                in_board(r2, c2) && peers(r, c, r2, c2) implies #[trigger] s[r2][c2]
                != s[r][c] by {
                if g[r2][c2] != 0 {
                    assert(g[r2][c2] != g[r][c]);
                    assert(s[r2][c2] == g[r2][c2]);
                } else {
                    assert(peers(r2, c2, r, c));
                    assert(fits(s, r2, c2, s[r2][c2]));
                    assert(s[r][c] != s[r2][c2]);
                }
            }
        }
    }
}

/// A solved board that keeps the clues of `g` completes `g`.
pub proof fn lemma_solved_extension_completes(g: Grid, s: Grid)
    requires
        solved(s),
        extends(s, g),
    ensures
        completes(s, g),
{
    assert forall|r: int, c: int| in_board(r, c) implies if g[r][c] != 0 {
        #[trigger] s[r][c] == g[r][c]
    } else {
        fits(s, r, c, s[r][c])
    } by {
        assert(s[r][c] != 0);
    }
}

/// A successful search on a valid board leaves a solved board that keeps
/// every clue.
pub proof fn lemma_success_is_solved(g: Grid, f: Grid, reverse: bool)
    requires
        valid_board(g),
        search_outcome(g, f, reverse, true),
    ensures
        solved(f),
        extends(f, g),
{
    lemma_completion_is_solved(g, f);
}

/// A search on a valid board succeeds exactly when some solved board keeps
/// every clue of it.
pub proof fn lemma_found_iff_solvable(g: Grid, f: Grid, reverse: bool, found: bool)
    requires
        valid_board(g),
        search_outcome(g, f, reverse, found),
    ensures
        found <==> exists|s: Grid| solved(s) && #[trigger] extends(s, g),
{
    if found {
        lemma_completion_is_solved(g, f);
        assert(solved(f) && extends(f, g));
    }
    if exists|s: Grid| solved(s) && #[trigger] extends(s, g) {
        let s = choose|s: Grid| solved(s) && #[trigger] extends(s, g);
        lemma_solved_extension_completes(g, s);
        assert(completes(s, g));
    }
}

/// A full board has itself for its only completion.
pub proof fn lemma_full_board_unique(g: Grid)
    requires
        well_formed(g),
        full(g),
    ensures
        at_most_one_completion(g),
{
    assert forall|a: Grid, b: Grid| #[trigger]
        completes(a, g) && #[trigger] completes(b, g) implies a == b by {
        assert forall|r: int, c: int| in_board(r, c) implies #[trigger] a[r][c] == b[r][c] by {
            assert(g[r][c] != 0);
            assert(a[r][c] == g[r][c]);
            assert(b[r][c] == g[r][c]);
        }
        lemma_grid_ext(a, b);
    }
}

/// Where the ascending and the descending search end on the same board, the
/// board they started from has no two completions.
pub proof fn lemma_agreement_means_unique(g: Grid)
    requires
        searches_agree(g),
    ensures
        at_most_one_completion(g),
{
    let (f, found) = choose|f: Grid, found: bool|
        #[trigger] search_outcome(g, f, false, found) && search_outcome(g, f, true, found);
    assert forall|a: Grid, b: Grid| #[trigger]
        completes(a, g) && #[trigger] completes(b, g) implies a == b by {
        assert(found);
        if a != f {
            lemma_search_order_total(false, a, f);
            assert(search_less(false, f, a));
            let (r, c) = choose|r: int, c: int|
                in_board(r, c) && #[trigger] agrees_before(f, a, r, c) && tried_before(
                    false,
                    f[r][c],
                    a[r][c],
                );
            assert(agrees_before(a, f, r, c)) by {
                assert forall|r2: int, c2: int|
                    in_board(r2, c2) && scans_before(r2, c2, r, c) implies #[trigger] a[r2][c2]
                    == f[r2][c2] by {
                    assert(f[r2][c2] == a[r2][c2]);
                }
            }
            assert(tried_before(true, a[r][c], f[r][c]));
            assert(search_less(true, a, f));
        }
        if b != f {
            lemma_search_order_total(false, b, f);
            assert(search_less(false, f, b));
            let (r, c) = choose|r: int, c: int|
                in_board(r, c) && #[trigger] agrees_before(f, b, r, c) && tried_before(
                    false,
                    f[r][c],
                    b[r][c],
                );
            assert(agrees_before(b, f, r, c)) by {
                assert forall|r2: int, c2: int|
                    in_board(r2, c2) && scans_before(r2, c2, r, c) implies #[trigger] b[r2][c2]
                    == f[r2][c2] by {
                    assert(f[r2][c2] == b[r2][c2]);
                }
            }
            assert(tried_before(true, b[r][c], f[r][c]));
            assert(search_less(true, b, f));
        }
    }
}

/// On a board with no two completions, the ascending and the descending
/// search report the same, and where they succeed they end on the same
/// board.
pub proof fn lemma_unique_means_agreement(
    g: Grid,
    up: Grid,
    found_up: bool,
    down: Grid,
    found_down: bool,
)
    requires
        at_most_one_completion(g),
        search_outcome(g, up, false, found_up),
        search_outcome(g, down, true, found_down),
    ensures
        found_up == found_down,
        found_up ==> up == down,
{
    if found_up {
        assert(completes(up, g));
    }
    if found_down {
        assert(completes(down, g));
    }
}

/// A search on a board with exactly one completion ends on that completion,
/// whatever its direction.
pub proof fn lemma_unique_completion_is_found(
    g: Grid,
    s: Grid,
    f: Grid,
    reverse: bool,
    found: bool,
)
    requires
        completes(s, g),
        at_most_one_completion(g),
        search_outcome(g, f, reverse, found),
    ensures
        found,
        f == s,
{
    if found {
        assert(completes(f, g));
    }
}

/// What a search leaves of a valid board is a valid board with no two
/// completions.
pub proof fn lemma_outcome_valid(g: Grid, f: Grid, reverse: bool, found: bool)
    requires
        valid_board(g),
        search_outcome(g, f, reverse, found),
    ensures
        valid_board(f),
        at_most_one_completion(f),
{
    if found {
        lemma_completion_is_solved(g, f);
        lemma_full_board_unique(f);
    } else {
        let (row, col) = choose|r: int, c: int| #[trigger] stalls_at(f, g, reverse, r, c);
        let w = f[row][col];
        lemma_place(g, row, col, w);
        if w != 0 {
            lemma_placing_keeps_valid(g, row, col, w);
        } else {
            lemma_grid_ext(f, g);
        }
        assert forall|a: Grid, b: Grid| #[trigger]
            completes(a, f) && #[trigger] completes(b, f) implies a == b by {
            lemma_completes_stalled(g, f, reverse, row, col, a);
        }
    }
}

/// What completes the board that a failed search left also completes the
/// board that the search started from.
proof fn lemma_completes_stalled(g: Grid, f: Grid, reverse: bool, row: int, col: int, s: Grid)
    requires
        well_formed(g),
        stalls_at(f, g, reverse, row, col),
        completes(s, f),
    ensures
        completes(s, g),
{
    let w = f[row][col];
    lemma_place(g, row, col, w);
    assert forall|r: int, c: int| in_board(r, c) implies if g[r][c] != 0 {
        #[trigger] s[r][c] == g[r][c]
    } else {
        fits(s, r, c, s[r][c])
    } by {
        if r == row && c == col {
            if w != 0 {
                assert(s[r][c] == w);
                assert forall|r2: int, c2: int|
                    in_board(r2, c2) && peers(r, c, r2, c2) implies #[trigger] s[r2][c2] != w by {
                    assert(f[r2][c2] == g[r2][c2]);
                    if g[r2][c2] != 0 {
                        assert(g[r2][c2] != w);
                        assert(s[r2][c2] == f[r2][c2]);
                    } else {
                        assert(peers(r2, c2, r, c));
                        assert(fits(s, r2, c2, s[r2][c2]));
                        assert(s[r][c] != s[r2][c2]);
                    }
                }
            } else {
                assert(f[r][c] == 0);
            }
        } else {
            assert(f[r][c] == g[r][c]);
        }
    }
}

/// What a search leaves behind is a well-formed board.
pub proof fn lemma_search_shape(g: Grid, f: Grid, reverse: bool, found: bool)
    requires
        well_formed(g),
        search_outcome(g, f, reverse, found),
    ensures
        well_formed(f),
{
    if !found {
        let (row, col) = choose|r: int, c: int| #[trigger] stalls_at(f, g, reverse, r, c);
        lemma_place(g, row, col, f[row][col]);
    }
}

} // verus!
