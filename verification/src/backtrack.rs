//! The state of a backtracking search, what holds of it between steps, and
//! what each step does to it.

use vstd::prelude::*;
use crate::grid::{fits, in_board, lemma_grid_ext, lemma_place, peers, place, well_formed, Grid};
use crate::progress::{
    cell, cell_share, lemma_filled_share_bound, lemma_filled_share_clues,
    lemma_filled_share_frame, lemma_filled_share_next, lemma_rank_order, lemma_weight_positive,
    lemma_weight_step, progress, progress_limit, rank, weight,
};
use crate::search::{
    agrees_before, completes, first_completion, scans_before, search_less, stalled, stalls_at,
    tried_before, unsolvable,
};

verus! {

/// A search under way: the board it started from, the board as it stands,
/// the cells filled so far in the order of filling, the cell the scan is at,
/// and whether the scan has come back to that cell to try a later value.
pub struct Search {
    pub start: Grid,
    pub now: Grid,
    pub trail: Seq<(usize, usize)>,
    pub row: int,
    pub col: int,
    pub backtrack: bool,
    pub reverse: bool,
}

/// The scan is inside the board, at the end of a row, or past the last row.
pub open spec fn position_ok(st: Search) -> bool {
    &&& 0 <= st.row <= 9
    &&& 0 <= st.col <= 9
    &&& st.row == 9 ==> st.col == 0
    &&& st.backtrack ==> in_board(st.row, st.col) && st.start[st.row][st.col] == 0
        && st.now[st.row][st.col] != 0
}

/// Every clue is still in place.
pub open spec fn clues_kept(st: Search) -> bool {
    forall|r: int, c: int|
        in_board(r, c) && st.start[r][c] != 0 ==> #[trigger] st.now[r][c] == st.start[r][c]
}

/// Every cell behind the scan is filled.
pub open spec fn behind_filled(st: Search) -> bool {
    forall|r: int, c: int|
        in_board(r, c) && scans_before(r, c, st.row, st.col) ==> #[trigger] st.now[r][c] != 0
}

/// Every cell ahead of the scan that is no clue is empty, but for the cell
/// that the scan has come back to.
pub open spec fn ahead_empty(st: Search) -> bool {
    forall|r: int, c: int|
        in_board(r, c) && !scans_before(r, c, st.row, st.col) && st.start[r][c] == 0 && !(
        st.backtrack && r == st.row && c == st.col) ==> #[trigger] st.now[r][c] == 0
}

/// Every value that the search has placed repeats none of its peers.
pub open spec fn placed_fit(st: Search) -> bool {
    forall|r: int, c: int|
        in_board(r, c) && st.start[r][c] == 0 && #[trigger] st.now[r][c] != 0 ==> fits(
            st.now,
            r,
            c,
            st.now[r][c],
        )
}

/// The trail lists, in scan order, the cells behind the scan that are no
/// clues.
pub open spec fn trail_ok(st: Search) -> bool {
    &&& forall|i: int|
        0 <= i < st.trail.len() ==> {
            let t = #[trigger] st.trail[i];
            in_board(t.0 as int, t.1 as int) && st.start[t.0 as int][t.1 as int] == 0
                && scans_before(t.0 as int, t.1 as int, st.row, st.col)
        }
    &&& forall|i: int, j: int|
        0 <= i < j < st.trail.len() ==> scans_before(
            (#[trigger] st.trail[i]).0 as int,
            st.trail[i].1 as int,
            (#[trigger] st.trail[j]).0 as int,
            st.trail[j].1 as int,
        )
    &&& forall|r: int, c: int|
        in_board(r, c) && scans_before(r, c, st.row, st.col) && #[trigger] st.start[r][c] == 0
            ==> exists|i: int|
            0 <= i < st.trail.len() && #[trigger] st.trail[i] == (r as usize, c as usize)
}

/// No completion that the search should have met by now was passed over: a
/// completion that agrees with the board up to a cell behind the scan holds
/// there a value that is not tried before the board's.
pub open spec fn none_skipped(st: Search) -> bool {
    forall|s: Grid, r: int, c: int|
        completes(s, st.start) && in_board(r, c) && scans_before(r, c, st.row, st.col)
            && #[trigger] agrees_before(s, st.now, r, c) ==> !tried_before(
            st.reverse,
            s[r][c],
            st.now[r][c],
        )
}

/// Where the scan has come back to a cell, the value in it is used up: a
/// completion that agrees with the board up to that cell holds a later value
/// there.
pub open spec fn bound_exhausted(st: Search) -> bool {
    st.backtrack ==> forall|s: Grid|
        completes(s, st.start) && #[trigger] agrees_before(s, st.now, st.row, st.col)
            ==> tried_before(st.reverse, st.now[st.row][st.col], s[st.row][st.col])
}

/// What holds of a search between two steps.
pub open spec fn search_inv(st: Search) -> bool {
    &&& well_formed(st.start)
    &&& well_formed(st.now)
    &&& position_ok(st)
    &&& clues_kept(st)
    &&& behind_filled(st)
    &&& ahead_empty(st)
    &&& placed_fit(st)
    &&& trail_ok(st)
    &&& none_skipped(st)
    &&& bound_exhausted(st)
}

/// The scan stands at a cell for which a value has to be found.
pub open spec fn at_open_cell(st: Search) -> bool {
    &&& in_board(st.row, st.col)
    &&& st.backtrack || st.now[st.row][st.col] == 0
}

/// `u` is a digit that the search has yet to try at the present cell.
pub open spec fn awaits_trial(st: Search, u: i8) -> bool {
    &&& 1 <= u <= 9
    &&& st.backtrack ==> tried_before(st.reverse, st.now[st.row][st.col], u)
}

/// `v` is the next digit to place at the present cell: it fits, and no digit
/// that is tried before it does.
pub open spec fn next_value(st: Search, v: i8) -> bool {
    &&& awaits_trial(st, v)
    &&& fits(st.now, st.row, st.col, v)
    &&& forall|u: i8|
        awaits_trial(st, u) && tried_before(st.reverse, u, v) ==> !#[trigger] fits(
            st.now,
            st.row,
            st.col,
            u,
        )
}

/// No digit is left for the present cell.
pub open spec fn no_value(st: Search) -> bool {
    forall|u: i8| awaits_trial(st, u) ==> !#[trigger] fits(st.now, st.row, st.col, u)
}

/// The search before its first step.
pub open spec fn search_start(g: Grid, reverse: bool) -> Search {
    Search { start: g, now: g, trail: Seq::empty(), row: 0, col: 0, backtrack: false, reverse }
}

pub proof fn lemma_search_start(g: Grid, reverse: bool)
    requires
        well_formed(g),
    ensures
        search_inv(search_start(g, reverse)),
{
}

/// The search one row further, at the row's first cell.
pub open spec fn wrapped(st: Search) -> Search {
    Search { row: st.row + 1, col: 0, ..st }
}

/// The search one cell further in the row.
pub open spec fn advanced(st: Search) -> Search {
    Search { col: st.col + 1, ..st }
}

/// The search after `v` was placed at the present cell.
pub open spec fn placed(st: Search, v: i8) -> Search {
    Search {
        now: place(st.now, st.row, st.col, v),
        trail: st.trail.push((st.row as usize, st.col as usize)),
        col: st.col + 1,
        backtrack: false,
        ..st
    }
}

/// The search after it gave the present cell up and went back to the cell
/// filled last.
pub open spec fn retreated(st: Search) -> Search {
    Search {
        now: place(st.now, st.row, st.col, 0),
        trail: st.trail.drop_last(),
        row: st.trail.last().0 as int,
        col: st.trail.last().1 as int,
        backtrack: true,
        ..st
    }
}

/// Passing from the end of a row to the start of the next keeps the
/// invariant.
pub proof fn lemma_search_wrap(st: Search)
    requires
        search_inv(st),
        st.col == 9,
    ensures
        search_inv(wrapped(st)),
{
    let nx = wrapped(st);
    assert forall|r: int, c: int|
        in_board(r, c) implies scans_before(r, c, st.row, st.col) == scans_before(
        r,
        c,
        nx.row,
        nx.col,
    ) by {}
    assert(trail_ok(nx)) by {
        assert forall|r: int, c: int|
            in_board(r, c) && scans_before(r, c, nx.row, nx.col) && #[trigger] nx.start[r][c]
                == 0 implies exists|i: int|
            0 <= i < nx.trail.len() && #[trigger] nx.trail[i] == (r as usize, c as usize) by {
            assert(scans_before(r, c, st.row, st.col));
            let i = choose|i: int|
                0 <= i < st.trail.len() && #[trigger] st.trail[i] == (r as usize, c as usize);
            assert(nx.trail[i] == (r as usize, c as usize));
        }
    }
}

/// A completion that agrees with the board behind the scan cannot hold, at
/// the present cell, a digit that does not fit the board there.
pub proof fn lemma_blocked(st: Search, s: Grid, u: i8)
    requires
        search_inv(st),
        in_board(st.row, st.col),
        st.start[st.row][st.col] == 0,
        completes(s, st.start),
        agrees_before(s, st.now, st.row, st.col),
        1 <= u <= 9,
        !fits(st.now, st.row, st.col, u),
    ensures
        s[st.row][st.col] != u,
{
    let (r, c) = choose|r: int, c: int|
        in_board(r, c) && peers(st.row, st.col, r, c) && st.now[r][c] == u;
    if scans_before(r, c, st.row, st.col) {
        assert(s[r][c] == st.now[r][c]);
    } else if st.start[r][c] != 0 {
        assert(st.now[r][c] == st.start[r][c]);
        assert(s[r][c] == st.start[r][c]);
    } else {
        assert(st.now[r][c] == 0);
    }
    assert(s[r][c] == u);
    if s[st.row][st.col] == u {
        assert(fits(s, st.row, st.col, s[st.row][st.col]));
    }
}

/// A completion that agrees with the board behind the scan holds, at the
/// present cell, a digit that the search has yet to try.
pub proof fn lemma_awaited(st: Search, s: Grid)
    requires
        search_inv(st),
        in_board(st.row, st.col),
        completes(s, st.start),
        agrees_before(s, st.now, st.row, st.col),
    ensures
        awaits_trial(st, s[st.row][st.col]),
{
    assert(0 <= s[st.row][st.col] <= 9);
    assert(s[st.row][st.col] != 0);
}

/// Passing over a clue keeps the invariant.
pub proof fn lemma_search_skip(st: Search)
    requires
        search_inv(st),
        in_board(st.row, st.col),
        !st.backtrack,
        st.now[st.row][st.col] != 0,
    ensures
        search_inv(advanced(st)),
{
    let nx = advanced(st);
    assert(st.start[st.row][st.col] != 0);
    assert(trail_ok(nx)) by {
        assert forall|r: int, c: int|
            in_board(r, c) && scans_before(r, c, nx.row, nx.col) && #[trigger] nx.start[r][c]
                == 0 implies exists|i: int|
            0 <= i < nx.trail.len() && #[trigger] nx.trail[i] == (r as usize, c as usize) by {
            assert(scans_before(r, c, st.row, st.col));
            let i = choose|i: int|
                0 <= i < st.trail.len() && #[trigger] st.trail[i] == (r as usize, c as usize);
            assert(nx.trail[i] == (r as usize, c as usize));
        }
    }
    assert(none_skipped(nx)) by {
        assert forall|s: Grid, r: int, c: int|
            completes(s, nx.start) && in_board(r, c) && scans_before(r, c, nx.row, nx.col)
                && #[trigger] agrees_before(s, nx.now, r, c) implies !tried_before(
            nx.reverse,
            s[r][c],
            nx.now[r][c],
        ) by {
            if !scans_before(r, c, st.row, st.col) {
                assert(s[r][c] == st.start[r][c]);
            }
        }
    }
}

/// Placing the next digit and moving on keeps the invariant.
pub proof fn lemma_search_place(st: Search, v: i8)
    requires
        search_inv(st),
        at_open_cell(st),
        next_value(st, v),
    ensures
        search_inv(placed(st, v)),
{
    let nx = placed(st, v);
    lemma_place(st.now, st.row, st.col, v);
    assert(st.start[st.row][st.col] == 0);
    assert(well_formed(nx.now));
    assert(clues_kept(nx));
    assert(behind_filled(nx)) by {
        assert forall|r: int, c: int|
            in_board(r, c) && scans_before(r, c, nx.row, nx.col) implies #[trigger] nx.now[r][c]
            != 0 by {
            if scans_before(r, c, st.row, st.col) {
                assert(st.now[r][c] != 0);
            }
        }
    }
    assert(ahead_empty(nx)) by {
        assert forall|r: int, c: int|
            in_board(r, c) && !scans_before(r, c, nx.row, nx.col) && nx.start[r][c] == 0 && !(
            nx.backtrack && r == nx.row && c == nx.col) implies #[trigger] nx.now[r][c] == 0 by {
            assert(st.now[r][c] == 0);
        }
    }
    assert(placed_fit(nx)) by {
        assert forall|r: int, c: int|
            in_board(r, c) && nx.start[r][c] == 0 && #[trigger] nx.now[r][c] != 0 implies fits(
            nx.now,
            r,
            c,
            nx.now[r][c],
        ) by {
            if r == st.row && c == st.col {
                assert forall|r2: int, c2: int|
                    in_board(r2, c2) && peers(r, c, r2, c2) implies #[trigger] nx.now[r2][c2]
                    != v by {
                    assert(st.now[r2][c2] != v);
                }
            } else {
                assert(st.now[r][c] != 0);
                assert(fits(st.now, r, c, st.now[r][c]));
                assert forall|r2: int, c2: int|
                    in_board(r2, c2) && peers(r, c, r2, c2) implies #[trigger] nx.now[r2][c2]
                    != nx.now[r][c] by {
                    if r2 == st.row && c2 == st.col {
                        assert(peers(st.row, st.col, r, c));
                        assert(st.now[r][c] != v);
                    } else {
                        assert(st.now[r2][c2] != st.now[r][c]);
                    }
                }
            }
        }
    }
    assert(trail_ok(nx)) by {
        let k = st.trail.len() as int;
        assert(nx.trail[k] == (st.row as usize, st.col as usize));
        assert forall|i: int| 0 <= i < nx.trail.len() implies {
            let t = #[trigger] nx.trail[i];
            in_board(t.0 as int, t.1 as int) && nx.start[t.0 as int][t.1 as int] == 0
                && scans_before(t.0 as int, t.1 as int, nx.row, nx.col)
        } by {
            if i < k {
                assert(nx.trail[i] == st.trail[i]);
            }
        }
        assert forall|i: int, j: int| 0 <= i < j < nx.trail.len() implies scans_before(
            (#[trigger] nx.trail[i]).0 as int,
            nx.trail[i].1 as int,
            (#[trigger] nx.trail[j]).0 as int,
            nx.trail[j].1 as int,
        ) by {
            assert(nx.trail[i] == st.trail[i]);
            if j < k {
                assert(nx.trail[j] == st.trail[j]);
            }
        }
        assert forall|r: int, c: int|
            in_board(r, c) && scans_before(r, c, nx.row, nx.col) && #[trigger] nx.start[r][c]
                == 0 implies exists|i: int|
            0 <= i < nx.trail.len() && #[trigger] nx.trail[i] == (r as usize, c as usize) by {
            if scans_before(r, c, st.row, st.col) {
                let i = choose|i: int|
                    0 <= i < st.trail.len() && #[trigger] st.trail[i] == (r as usize, c as usize);
                assert(nx.trail[i] == (r as usize, c as usize));
            } else {
                assert(nx.trail[k] == (r as usize, c as usize));
            }
        }
    }
    assert(none_skipped(nx)) by {
        assert forall|s: Grid, r: int, c: int|
            completes(s, nx.start) && in_board(r, c) && scans_before(r, c, nx.row, nx.col)
                && #[trigger] agrees_before(s, nx.now, r, c) implies !tried_before(
            nx.reverse,
            s[r][c],
            nx.now[r][c],
        ) by {
            assert(agrees_before(s, st.now, r, c)) by {
                assert forall|r2: int, c2: int|
                    in_board(r2, c2) && scans_before(r2, c2, r, c) implies #[trigger] s[r2][c2]
                    == st.now[r2][c2] by {
                    assert(nx.now[r2][c2] == st.now[r2][c2]);
                }
            }
            if scans_before(r, c, st.row, st.col) {
                assert(nx.now[r][c] == st.now[r][c]);
            } else {
                let u = s[r][c];
                lemma_awaited(st, s);
                if tried_before(st.reverse, u, v) {
                    assert(!fits(st.now, st.row, st.col, u));
                    lemma_blocked(st, s, u);
                }
            }
        }
    }
}

/// Where no digit is left for the present cell, no completion agrees with
/// the board behind the scan.
pub proof fn lemma_dead_end(st: Search, s: Grid)
    requires
        search_inv(st),
        at_open_cell(st),
        no_value(st),
        completes(s, st.start),
    ensures
        !agrees_before(s, st.now, st.row, st.col),
{
    if agrees_before(s, st.now, st.row, st.col) {
        let u = s[st.row][st.col];
        lemma_awaited(st, s);
        assert(!fits(st.now, st.row, st.col, u));
        assert(st.start[st.row][st.col] == 0);
        lemma_blocked(st, s, u);
    }
}

/// Every cell between the cell filled last and the scan is a clue.
pub proof fn lemma_clues_since_last(st: Search, r: int, c: int)
    requires
        search_inv(st),
        st.trail.len() > 0,
        in_board(r, c),
        scans_before(st.trail.last().0 as int, st.trail.last().1 as int, r, c),
        scans_before(r, c, st.row, st.col),
    ensures
        st.start[r][c] != 0,
{
    if st.start[r][c] == 0 {
        let i = choose|i: int|
            0 <= i < st.trail.len() && #[trigger] st.trail[i] == (r as usize, c as usize);
        let k = st.trail.len() - 1;
        if i < k {
            assert(scans_before(
                st.trail[i].0 as int,
                st.trail[i].1 as int,
                st.trail[k].0 as int,
                st.trail[k].1 as int,
            ));
        }
    }
}

/// Giving the present cell up and going back to the cell filled last keeps
/// the invariant.
pub proof fn lemma_search_retreat(st: Search)
    requires
        search_inv(st),
        at_open_cell(st),
        no_value(st),
        st.trail.len() > 0,
    ensures
        search_inv(retreated(st)),
{
    let nx = retreated(st);
    let k = st.trail.len() - 1;
    let q = st.trail[k];
    lemma_place(st.now, st.row, st.col, 0);
    assert(in_board(q.0 as int, q.1 as int));
    assert(scans_before(q.0 as int, q.1 as int, st.row, st.col));
    assert(st.start[st.row][st.col] == 0);
    assert(nx.now[nx.row][nx.col] == st.now[nx.row][nx.col]);
    assert(st.now[nx.row][nx.col] != 0);
    assert(well_formed(nx.now));
    assert(clues_kept(nx));
    assert(behind_filled(nx)) by {
        assert forall|r: int, c: int|
            in_board(r, c) && scans_before(r, c, nx.row, nx.col) implies #[trigger] nx.now[r][c]
            != 0 by {
            assert(st.now[r][c] != 0);
        }
    }
    assert(ahead_empty(nx)) by {
        assert forall|r: int, c: int|
            in_board(r, c) && !scans_before(r, c, nx.row, nx.col) && nx.start[r][c] == 0 && !(
            nx.backtrack && r == nx.row && c == nx.col) implies #[trigger] nx.now[r][c] == 0 by {
            if r == st.row && c == st.col {
            } else if scans_before(r, c, st.row, st.col) {
                lemma_clues_since_last(st, r, c);
            } else {
                assert(st.now[r][c] == 0);
            }
        }
    }
    assert(placed_fit(nx)) by {
        assert forall|r: int, c: int|
            in_board(r, c) && nx.start[r][c] == 0 && #[trigger] nx.now[r][c] != 0 implies fits(
            nx.now,
            r,
            c,
            nx.now[r][c],
        ) by {
            assert(st.now[r][c] == nx.now[r][c]);
            assert(fits(st.now, r, c, st.now[r][c]));
            assert forall|r2: int, c2: int|
                in_board(r2, c2) && peers(r, c, r2, c2) implies #[trigger] nx.now[r2][c2]
                != nx.now[r][c] by {
                if r2 == st.row && c2 == st.col {
                } else {
                    assert(st.now[r2][c2] != st.now[r][c]);
                }
            }
        }
    }
    assert(trail_ok(nx)) by {
        assert forall|i: int| 0 <= i < nx.trail.len() implies {
            let t = #[trigger] nx.trail[i];
            in_board(t.0 as int, t.1 as int) && nx.start[t.0 as int][t.1 as int] == 0
                && scans_before(t.0 as int, t.1 as int, nx.row, nx.col)
        } by {
            assert(nx.trail[i] == st.trail[i]);
            assert(scans_before(
                st.trail[i].0 as int,
                st.trail[i].1 as int,
                st.trail[k].0 as int,
                st.trail[k].1 as int,
            ));
        }
        assert forall|i: int, j: int| 0 <= i < j < nx.trail.len() implies scans_before(
            (#[trigger] nx.trail[i]).0 as int,
            nx.trail[i].1 as int,
            (#[trigger] nx.trail[j]).0 as int,
            nx.trail[j].1 as int,
        ) by {
            assert(nx.trail[i] == st.trail[i]);
            assert(nx.trail[j] == st.trail[j]);
        }
        assert forall|r: int, c: int|
            in_board(r, c) && scans_before(r, c, nx.row, nx.col) && #[trigger] nx.start[r][c]
                == 0 implies exists|i: int|
            0 <= i < nx.trail.len() && #[trigger] nx.trail[i] == (r as usize, c as usize) by {
            assert(scans_before(r, c, st.row, st.col));
            let i = choose|i: int|
                0 <= i < st.trail.len() && #[trigger] st.trail[i] == (r as usize, c as usize);
            assert(i != k);
            assert(nx.trail[i] == (r as usize, c as usize));
        }
    }
    assert(none_skipped(nx)) by {
        assert forall|s: Grid, r: int, c: int|
            completes(s, nx.start) && in_board(r, c) && scans_before(r, c, nx.row, nx.col)
                && #[trigger] agrees_before(s, nx.now, r, c) implies !tried_before(
            nx.reverse,
            s[r][c],
            nx.now[r][c],
        ) by {
            assert(agrees_before(s, st.now, r, c)) by {
                assert forall|r2: int, c2: int|
                    in_board(r2, c2) && scans_before(r2, c2, r, c) implies #[trigger] s[r2][c2]
                    == st.now[r2][c2] by {
                    assert(nx.now[r2][c2] == st.now[r2][c2]);
                }
            }
            assert(nx.now[r][c] == st.now[r][c]);
        }
    }
    assert(bound_exhausted(nx)) by {
        assert forall|s: Grid|
            completes(s, nx.start) && #[trigger] agrees_before(
                s,
                nx.now,
                nx.row,
                nx.col,
            ) implies tried_before(nx.reverse, nx.now[nx.row][nx.col], s[nx.row][nx.col]) by {
            assert(agrees_before(s, st.now, nx.row, nx.col)) by {
                assert forall|r2: int, c2: int|
                    in_board(r2, c2) && scans_before(r2, c2, nx.row, nx.col) implies #[trigger] s[r2][c2]
                    == st.now[r2][c2] by {
                    assert(nx.now[r2][c2] == st.now[r2][c2]);
                }
            }
            assert(!tried_before(st.reverse, s[nx.row][nx.col], st.now[nx.row][nx.col]));
            if s[nx.row][nx.col] == st.now[nx.row][nx.col] {
                assert(agrees_before(s, st.now, st.row, st.col)) by {
                    assert forall|r2: int, c2: int|
                        in_board(r2, c2) && scans_before(r2, c2, st.row, st.col) implies #[trigger] s[r2][c2]
                        == st.now[r2][c2] by {
                        if scans_before(r2, c2, nx.row, nx.col) {
                        } else if r2 == nx.row && c2 == nx.col {
                        } else {
                            lemma_clues_since_last(st, r2, c2);
                            assert(st.now[r2][c2] == st.start[r2][c2]);
                        }
                    }
                }
                lemma_dead_end(st, s);
            }
        }
    }
}

/// Where no digit is left for the present cell and no cell is left to go
/// back to, the board has no completion, and what the search leaves is the
/// board it started from with at most one cell filled.
pub proof fn lemma_search_stuck(st: Search)
    requires
        search_inv(st),
        at_open_cell(st),
        no_value(st),
        st.trail.len() == 0,
    ensures
        unsolvable(st.start),
        stalled(st.now, st.start, st.reverse),
{
    assert forall|r: int, c: int|
        in_board(r, c) && scans_before(r, c, st.row, st.col) implies #[trigger] st.start[r][c]
        != 0 by {
        if st.start[r][c] == 0 {
            let i = choose|i: int|
                0 <= i < st.trail.len() && #[trigger] st.trail[i] == (r as usize, c as usize);
        }
    }
    assert forall|s: Grid| !#[trigger] completes(s, st.start) by {
        if completes(s, st.start) {
            assert(agrees_before(s, st.now, st.row, st.col)) by {
                assert forall|r2: int, c2: int|
                    in_board(r2, c2) && scans_before(r2, c2, st.row, st.col) implies #[trigger] s[r2][c2]
                    == st.now[r2][c2] by {
                    assert(st.start[r2][c2] != 0);
                    assert(st.now[r2][c2] == st.start[r2][c2]);
                }
            }
            lemma_dead_end(st, s);
        }
    }
    let w = st.now[st.row][st.col];
    let f = place(st.start, st.row, st.col, w);
    lemma_place(st.start, st.row, st.col, w);
    assert(st.start[st.row][st.col] == 0);
    assert(st.now == f) by {
        assert forall|r: int, c: int| in_board(r, c) implies #[trigger] st.now[r][c] == f[r][c] by {
            if r == st.row && c == st.col {
            } else if st.start[r][c] != 0 {
            } else {
                assert(!scans_before(r, c, st.row, st.col));
                assert(st.now[r][c] == 0);
            }
        }
        lemma_grid_ext(st.now, f);
    }
    assert forall|v: i8| fits(st.now, st.row, st.col, v) == fits(st.start, st.row, st.col, v) by {
        if fits(st.now, st.row, st.col, v) {
            assert forall|r: int, c: int|
                in_board(r, c) && peers(st.row, st.col, r, c) implies #[trigger] st.start[r][c]
                != v by {
                assert(st.now[r][c] != v);
            }
        }
        if fits(st.start, st.row, st.col, v) {
            assert forall|r: int, c: int|
                in_board(r, c) && peers(st.row, st.col, r, c) implies #[trigger] st.now[r][c]
                != v by {
                assert(st.start[r][c] != v);
            }
        }
    }
    if w != 0 {
        assert(st.backtrack);
        assert(fits(st.now, st.row, st.col, w));
    }
    assert forall|v: i8| 1 <= v <= 9 && #[trigger] fits(st.start, st.row, st.col, v) implies w
        != 0 && !tried_before(st.reverse, w, v) by {
        assert(fits(st.now, st.row, st.col, v));
        assert(!awaits_trial(st, v));
    }
    assert(stalls_at(st.now, st.start, st.reverse, st.row, st.col));
}

/// Once the scan has passed the last cell, the board is the completion that
/// the search meets first.
pub proof fn lemma_search_done(st: Search)
    requires
        search_inv(st),
        st.row == 9,
    ensures
        first_completion(st.now, st.start, st.reverse),
{
    assert forall|r: int, c: int| in_board(r, c) implies scans_before(r, c, st.row, st.col) by {}
    assert(completes(st.now, st.start)) by {
        assert forall|r: int, c: int| in_board(r, c) implies if st.start[r][c] != 0 {
            #[trigger] st.now[r][c] == st.start[r][c]
        } else {
            fits(st.now, r, c, st.now[r][c])
        } by {
            assert(st.now[r][c] != 0);
        }
        assert forall|r: int, c: int| in_board(r, c) implies #[trigger] st.now[r][c] != 0 by {
            assert(scans_before(r, c, st.row, st.col));
        }
    }
    assert forall|t: Grid| #[trigger] completes(t, st.start) implies !search_less(
        st.reverse,
        t,
        st.now,
    ) by {
        if search_less(st.reverse, t, st.now) {
            let (r, c) = choose|r: int, c: int|
                in_board(r, c) && #[trigger] agrees_before(t, st.now, r, c) && tried_before(
                    st.reverse,
                    t[r][c],
                    st.now[r][c],
                );
            assert(scans_before(r, c, st.row, st.col));
        }
    }
}

/// The row-major index of the cell the scan is at.
pub open spec fn at_index(st: Search) -> int {
    st.row * 9 + st.col
}

/// The measure of the search.
pub open spec fn search_progress(st: Search) -> int {
    progress(st.start, st.now, st.reverse, at_index(st), st.backtrack)
}

/// The cells behind the scan that are no clues hold digits.
proof fn lemma_behind_digits(st: Search)
    requires
        search_inv(st),
    ensures
        0 <= at_index(st) <= 81,
        forall|i: int|
            0 <= i < at_index(st) && cell(st.start, i) == 0 ==> 1 <= cell(st.now, i) <= 9,
{
    assert forall|i: int| 0 <= i < at_index(st) && cell(st.start, i) == 0 implies 1 <= cell(
        st.now,
        i,
    ) <= 9 by {
        let r = i / 9;
        let c = i % 9;
        assert(in_board(r, c));
        assert(scans_before(r, c, st.row, st.col));
        assert(st.now[r][c] != 0);
        assert(0 <= st.now[r][c] <= 9);
    }
}

/// The measure stays below its limit.
pub proof fn lemma_progress_bound(st: Search)
    requires
        search_inv(st),
    ensures
        0 <= search_progress(st) < progress_limit(),
{
    let at = at_index(st);
    lemma_behind_digits(st);
    lemma_filled_share_bound(st.start, st.now, st.reverse, at);
    lemma_weight_positive(at);
    if st.backtrack {
        let w = weight(at);
        assert(cell(st.now, at) == st.now[st.row][st.col]);
        assert(0 <= st.now[st.row][st.col] <= 9);
        let k = rank(st.reverse, cell(st.now, at));
        assert(0 <= (2 * k + 1) * w <= 19 * w) by (nonlinear_arith)
            requires
                1 <= k <= 9,
                w >= 1,
        ;
    }
}

/// Passing to the next row leaves the measure and the index alone.
pub proof fn lemma_progress_wrap(st: Search)
    requires
        search_inv(st),
        st.col == 9,
    ensures
        search_progress(wrapped(st)) == search_progress(st),
        at_index(wrapped(st)) == at_index(st),
{
}

/// Passing over a clue leaves the measure alone.
pub proof fn lemma_progress_skip(st: Search)
    requires
        search_inv(st),
        in_board(st.row, st.col),
        !st.backtrack,
        st.now[st.row][st.col] != 0,
    ensures
        search_progress(advanced(st)) == search_progress(st),
{
    let at = at_index(st);
    assert(cell(st.start, at) == st.start[st.row][st.col]);
    assert(st.start[st.row][st.col] != 0);
    lemma_filled_share_next(st.start, st.now, st.reverse, at);
}

/// Placing a digit raises the measure.
pub proof fn lemma_progress_place(st: Search, v: i8)
    requires
        search_inv(st),
        at_open_cell(st),
        next_value(st, v),
    ensures
        search_progress(placed(st, v)) > search_progress(st),
{
    let nx = placed(st, v);
    let at = at_index(st);
    let w = weight(at);
    lemma_place(st.now, st.row, st.col, v);
    lemma_weight_positive(at);
    assert(st.start[st.row][st.col] == 0);
    assert(cell(st.start, at) == st.start[st.row][st.col]);
    assert(cell(nx.now, at) == v);
    assert(cell(st.now, at) == st.now[st.row][st.col]);
    assert forall|i: int| 0 <= i < at implies cell(nx.now, i) == cell(st.now, i) by {
        assert(in_board(i / 9, i % 9));
        assert(nx.now[i / 9][i % 9] == st.now[i / 9][i % 9]);
    }
    lemma_filled_share_frame(st.start, nx.now, st.now, st.reverse, at);
    lemma_filled_share_next(st.start, nx.now, st.reverse, at);
    let kv = rank(st.reverse, v);
    assert(cell_share(st.start, nx.now, st.reverse, at) == 2 * kv * w);
    if st.backtrack {
        let kw = rank(st.reverse, st.now[st.row][st.col]);
        lemma_rank_order(st.reverse, st.now[st.row][st.col], v);
        assert(2 * kv * w > (2 * kw + 1) * w) by (nonlinear_arith)
            requires
                kw < kv,
                w >= 1,
        ;
    } else {
        assert(2 * kv * w > 0) by (nonlinear_arith)
            requires
                1 <= kv,
                w >= 1,
        ;
    }
}

/// Going back to the cell filled last raises the measure.
pub proof fn lemma_progress_retreat(st: Search)
    requires
        search_inv(st),
        at_open_cell(st),
        no_value(st),
        st.trail.len() > 0,
    ensures
        search_progress(retreated(st)) > search_progress(st),
{
    let nx = retreated(st);
    let at = at_index(st);
    let back = at_index(nx);
    let q = st.trail[st.trail.len() - 1];
    assert(in_board(q.0 as int, q.1 as int));
    assert(scans_before(q.0 as int, q.1 as int, st.row, st.col));
    assert(0 <= back < at <= 80);
    lemma_place(st.now, st.row, st.col, 0);
    lemma_weight_positive(at);
    lemma_weight_step(back, at);
    assert(cell(st.start, back) == st.start[nx.row][nx.col]);
    assert(cell(st.now, back) == st.now[nx.row][nx.col]);
    assert(cell(nx.now, back) == st.now[nx.row][nx.col]);
    assert(cell(st.now, at) == st.now[st.row][st.col]);
    assert(st.start[nx.row][nx.col] == 0);
    assert forall|i: int| 0 <= i < back implies cell(nx.now, i) == cell(st.now, i) by {
        assert(in_board(i / 9, i % 9));
        assert(nx.now[i / 9][i % 9] == st.now[i / 9][i % 9]);
    }
    lemma_filled_share_frame(st.start, nx.now, st.now, st.reverse, back);
    assert forall|i: int| back + 1 <= i < at implies cell(st.start, i) != 0 by {
        assert(in_board(i / 9, i % 9));
        lemma_clues_since_last(st, i / 9, i % 9);
    }
    lemma_filled_share_clues(st.start, st.now, st.reverse, back + 1, at);
    lemma_filled_share_next(st.start, st.now, st.reverse, back);
    let wb = weight(back);
    let wa = weight(at);
    let kq = rank(st.reverse, st.now[nx.row][nx.col]);
    assert(cell_share(st.start, st.now, st.reverse, back) == 2 * kq * wb);
    assert((2 * kq + 1) * wb == 2 * kq * wb + wb) by (nonlinear_arith);
    if st.backtrack {
        assert(0 <= st.now[st.row][st.col] <= 9);
        let kw = rank(st.reverse, st.now[st.row][st.col]);
        assert((2 * kw + 1) * wa <= 19 * wa) by (nonlinear_arith)
            requires
                kw <= 9,
                wa >= 1,
        ;
    }
}

} // verus!
