//! The executable engine.

use vstd::pervasive::unreached;
use vstd::prelude::*;
use crate::backtrack::{
    advanced, lemma_progress_bound, lemma_progress_place, lemma_progress_retreat,
    lemma_progress_skip, lemma_progress_wrap, lemma_search_done, lemma_search_place,
    lemma_search_retreat, lemma_search_skip, lemma_search_start, lemma_search_stuck,
    lemma_search_wrap, next_value, no_value, placed, retreated, search_inv, search_progress,
    wrapped, Search,
};
use crate::grid::{
    candidates, candidates_upto, fits, grid_of, has_shape, in_board, lemma_candidates_listed,
    lemma_grid_ext, lemma_place, peers, place, valid_board, well_formed, Grid, SudokuError,
};
use crate::laws::{
    at_most_one_completion, lemma_outcome_unique, lemma_outcome_valid,
    lemma_placing_keeps_valid, lemma_search_shape, lemma_solved_extension_completes,
    searches_agree,
};
use crate::progress::progress_limit;
use crate::puzzle::{
    all_digits, clue_needed, dig, dig_step, drawn_from, empty_grid, ends_on, generated,
    has_completion, lemma_dig_step, lemma_drawn_next, lemma_given_numbers_decide,
    lemma_seeded_column_frame, lemma_seeded_row_frame, lemma_seeded_solution_frame,
    puzzle_from, search_end, seeded_column, seeded_row, seeded_solution, DIG_ATTEMPTS,
};
use crate::random::Draws;
use crate::seeding::{
    distinct_digits, lemma_first_row_completable, lemma_seed_column_has_candidate,
    only_seed_cells, shifted_rows, unused_on,
};
use crate::search::{completes, search_outcome, tried_before};

verus! {

/// Whether `ch` could occupy `(row, col)` without repeating the content of
/// any other cell of its row, column or box.
pub fn is_valid(board: &Vec<Vec<i8>>, row: usize, col: usize, ch: i8) -> (ok: bool)
    requires
        has_shape(grid_of(board@)),
        row < 9,
        col < 9,
    ensures
        ok == fits(grid_of(board@), row as int, col as int, ch),
{
    let ghost g = grid_of(board@);
    let mut i: usize = 0;
    while i < 9
        invariant
            i <= 9,
            row < 9,
            col < 9,
            g == grid_of(board@),
            has_shape(g),
            forall|c: int| 0 <= c < i && c != col ==> g[row as int][c] != ch,
        decreases 9 - i,
    {
        assert(g[row as int] == board@[row as int]@);
        if i != col && board[row][i] == ch {
            assert(peers(row as int, col as int, row as int, i as int));
            return false;
        }
        i += 1;
    }
    let mut i: usize = 0;
    while i < 9
        invariant
            i <= 9,
            row < 9,
            col < 9,
            g == grid_of(board@),
            has_shape(g),
            forall|c: int| 0 <= c < 9 && c != col ==> g[row as int][c] != ch,
            forall|r: int| 0 <= r < i && r != row ==> (#[trigger] g[r])[col as int] != ch,
        decreases 9 - i,
    {
        assert(g[i as int] == board@[i as int]@);
        if i != row && board[i][col] == ch {
            assert(peers(row as int, col as int, i as int, col as int));
            return false;
        }
        i += 1;
    }
    let box_i: usize = (row / 3) * 3;
    let box_j: usize = (col / 3) * 3;
    let mut i: usize = 0;
    while i < 3
        invariant
            i <= 3,
            row < 9,
            col < 9,
            box_i == (row / 3) * 3,
            box_j == (col / 3) * 3,
            g == grid_of(board@),
            has_shape(g),
            forall|c: int| 0 <= c < 9 && c != col ==> g[row as int][c] != ch,
            forall|r: int| 0 <= r < 9 && r != row ==> (#[trigger] g[r])[col as int] != ch,
            forall|r: int, c: int|
                box_i <= r < box_i + i && box_j <= c < box_j + 3 && r != row && c != col
                    ==> #[trigger] g[r][c] != ch,
        decreases 3 - i,
    {
        let r: usize = i + box_i;
        let mut j: usize = 0;
        while j < 3
            invariant
                i < 3,
                r == i + box_i,
                j <= 3,
                row < 9,
                col < 9,
                box_i == (row / 3) * 3,
                box_j == (col / 3) * 3,
                g == grid_of(board@),
                has_shape(g),
                forall|r: int, c: int|
                    box_i <= r < box_i + i && box_j <= c < box_j + 3 && r != row && c != col
                        ==> #[trigger] g[r][c] != ch,
                forall|c: int|
                    box_j <= c < box_j + j && r != row && c != col ==> g[r as int][c] != ch,
            decreases 3 - j,
        {
            assert(g[r as int] == board@[r as int]@);
            if row != r && col != j + box_j && board[r][j + box_j] == ch {
                assert(peers(row as int, col as int, r as int, j + box_j));
                return false;
            }
            j += 1;
        }
        i += 1;
    }
    assert forall|r: int, c: int| in_board(r, c) && peers(row as int, col as int, r, c)
        implies #[trigger] g[r][c] != ch by {
        if r != row && c != col {
            assert(box_i <= r < box_i + 3 && box_j <= c < box_j + 3);
        }
    }
    true
}

/// Whether the board is 9x9 with every cell in `0..=9`.
fn is_well_formed(board: &Vec<Vec<i8>>) -> (ok: bool)
    ensures
        ok == well_formed(grid_of(board@)),
{
    let ghost g = grid_of(board@);
    if board.len() != 9 {
        return false;
    }
    let mut i: usize = 0;
    while i < 9
        invariant
            i <= 9,
            board.len() == 9,
            g == grid_of(board@),
            forall|r: int| 0 <= r < i ==> (#[trigger] g[r]).len() == 9,
            forall|r: int, c: int| 0 <= r < i && 0 <= c < 9 ==> 0 <= #[trigger] g[r][c] <= 9,
        decreases 9 - i,
    {
        assert(g[i as int] == board@[i as int]@);
        if board[i].len() != 9 {
            return false;
        }
        let mut j: usize = 0;
        while j < 9
            invariant
                i < 9,
                j <= 9,
                board.len() == 9,
                g == grid_of(board@),
                g[i as int] == board@[i as int]@,
                g[i as int].len() == 9,
                forall|c: int| 0 <= c < j ==> 0 <= #[trigger] g[i as int][c] <= 9,
            decreases 9 - j,
        {
            let value = board[i][j];
            if value < 0 || value > 9 {
                assert(in_board(i as int, j as int));
                return false;
            }
            j += 1;
        }
        i += 1;
    }
    true
}

/// The digits that may legally occupy `(row, col)`, in ascending order.
/// The value already in the cell is neither consulted nor changed.
/// A malformed board is refused.
pub fn get_suggestions(board: &Vec<Vec<i8>>, row: usize, col: usize) -> (res: Result<
    Vec<i8>,
    SudokuError,
>)
    requires
        row < 9,
        col < 9,
    ensures
        match res {
            Ok(list) => well_formed(grid_of(board@)) && list@ == candidates(
                grid_of(board@),
                row as int,
                col as int,
            ),
            Err(e) => !well_formed(grid_of(board@)) && e == SudokuError::MalformedGrid,
        },
{
    if !is_well_formed(board) {
        return Err(SudokuError::MalformedGrid);
    }
    let ghost g = grid_of(board@);
    let mut suggestions: Vec<i8> = Vec::new();
    let mut i: i8 = 1;
    while i < 10
        invariant
            1 <= i <= 10,
            row < 9,
            col < 9,
            g == grid_of(board@),
            well_formed(g),
            suggestions@ == candidates_upto(g, row as int, col as int, i - 1),
        decreases 10 - i,
    {
        if is_valid(board, row, col, i) {
            suggestions.push(i);
        }
        i += 1;
    }
    Ok(suggestions)
}

/// The candidates of every cell, as nine rows of nine lists. A cell with no
/// candidate has an empty list. A malformed board is refused.
pub fn get_all_suggestions(board: &Vec<Vec<i8>>) -> (res: Result<Vec<Vec<Vec<i8>>>, SudokuError>)
    ensures
        match res {
            Ok(all) => {
                &&& well_formed(grid_of(board@))
                &&& all@.len() == 9
                &&& forall|r: int| 0 <= r < 9 ==> (#[trigger] all@[r])@.len() == 9
                &&& forall|r: int, c: int|
                    in_board(r, c) ==> (#[trigger] all@[r]@[c])@ == candidates(grid_of(board@), r, c)
            },
            Err(e) => !well_formed(grid_of(board@)) && e == SudokuError::MalformedGrid,
        },
{
    if !is_well_formed(board) {
        return Err(SudokuError::MalformedGrid);
    }
    let ghost g = grid_of(board@);
    let mut all: Vec<Vec<Vec<i8>>> = Vec::new();
    let mut i: usize = 0;
    while i < 9
        invariant
            i <= 9,
            g == grid_of(board@),
            well_formed(g),
            all@.len() == i,
            forall|r: int| 0 <= r < i ==> (#[trigger] all@[r])@.len() == 9,
            forall|r: int, c: int|
                0 <= r < i && 0 <= c < 9 ==> (#[trigger] all@[r]@[c])@ == candidates(g, r, c),
        decreases 9 - i,
    {
        let mut row: Vec<Vec<i8>> = Vec::new();
        let mut j: usize = 0;
        while j < 9
            invariant
                i < 9,
                j <= 9,
                g == grid_of(board@),
                well_formed(g),
                row@.len() == j,
                forall|c: int| 0 <= c < j ==> (#[trigger] row@[c])@ == candidates(g, i as int, c),
            decreases 9 - j,
        {
            match get_suggestions(board, i, j) {
                Ok(list) => {
                    row.push(list);
                },
                Err(e) => {
                    return Err(e);
                },
            }
            j += 1;
        }
        all.push(row);
        i += 1;
    }
    Ok(all)
}

/// Whether the board is well formed and none of its clues repeats in a row,
/// a column or a box. Empty cells are allowed: the answer says nothing about
/// whether the board can be completed.
pub fn validate_sudoku(board: &Vec<Vec<i8>>) -> (ok: bool)
    ensures
        ok == valid_board(grid_of(board@)),
{
    if !is_well_formed(board) {
        return false;
    }
    let ghost g = grid_of(board@);
    let mut i: usize = 0;
    while i < 9
        invariant
            i <= 9,
            g == grid_of(board@),
            well_formed(g),
            forall|r: int, c: int|
                0 <= r < i && 0 <= c < 9 && #[trigger] g[r][c] != 0 ==> fits(g, r, c, g[r][c]),
        decreases 9 - i,
    {
        let mut j: usize = 0;
        while j < 9
            invariant
                i < 9,
                j <= 9,
                g == grid_of(board@),
                well_formed(g),
                forall|r: int, c: int|
                    0 <= r < i && 0 <= c < 9 && #[trigger] g[r][c] != 0 ==> fits(g, r, c, g[r][c]),
                forall|c: int|
                    0 <= c < j && g[i as int][c] != 0 ==> fits(g, i as int, c, g[i as int][c]),
            decreases 9 - j,
        {
            assert(g[i as int] == board@[i as int]@);
            let value = board[i][j];
            if value != 0 && !is_valid(board, i, j, value) {
                assert(in_board(i as int, j as int));
                return false;
            }
            j += 1;
        }
        i += 1;
    }
    true
}

/// Writes `v` into `(row, col)`.
pub(crate) fn set_cell(board: &mut Vec<Vec<i8>>, row: usize, col: usize, v: i8)
    requires
        has_shape(grid_of(old(board)@)),
        row < 9,
        col < 9,
    ensures
        grid_of(final(board)@) == place(grid_of(old(board)@), row as int, col as int, v),
{
    assert(grid_of(board@)[row as int] == board@[row as int]@);
    board[row][col] = v;
    assert(grid_of(board@)[row as int] == board@[row as int]@);
    assert(grid_of(board@) =~= place(grid_of(old(board)@), row as int, col as int, v));
}

/// The next digit to try at `(row, col)` that fits there, or `0` when none is
/// left. The digits run upwards from 1, or downwards from 9 when `reverse`
/// is set; with `backtrack` set they start past `current`, the digit that
/// the cell holds.
fn next_candidate(
    board: &Vec<Vec<i8>>,
    row: usize,
    col: usize,
    current: i8,
    backtrack: bool,
    reverse: bool,
) -> (v: i8)
    requires
        has_shape(grid_of(board@)),
        row < 9,
        col < 9,
        0 <= current <= 9,
    ensures
        0 <= v <= 9,
        v != 0 ==> fits(grid_of(board@), row as int, col as int, v),
        v != 0 && backtrack ==> tried_before(reverse, current, v),
        forall|u: i8|
            1 <= u <= 9 && (backtrack ==> tried_before(reverse, current, u)) && (v != 0
                ==> tried_before(reverse, u, v)) ==> !#[trigger] fits(
                grid_of(board@),
                row as int,
                col as int,
                u,
            ),
{
    let mut start: i8 = if reverse {
        9
    } else {
        1
    };
    let end: i8 = if reverse {
        0
    } else {
        10
    };
    if backtrack {
        start = current;
    }
    while start != end
        invariant
            has_shape(grid_of(board@)),
            row < 9,
            col < 9,
            0 <= current <= 9,
            end == if reverse { 0i8 } else { 10i8 },
            0 <= start <= 10,
            reverse ==> start <= 9,
            backtrack ==> start == current || tried_before(reverse, current, start),
            forall|u: i8|
                1 <= u <= 9 && (backtrack ==> tried_before(reverse, current, u)) && tried_before(
                    reverse,
                    u,
                    start,
                ) ==> !#[trigger] fits(grid_of(board@), row as int, col as int, u),
        decreases
                if reverse {
                    start as int
                } else {
                    10 - start
                },
    {
        let i = start;
        start = if reverse {
            start - 1
        } else {
            start + 1
        };
        if i != 0 && !(backtrack && i == current) && is_valid(board, row, col, i) {
            return i;
        }
    }
    0
}

/// The state of the search that the solver's variables stand for.
pub open spec fn search_state(
    start: Grid,
    board: Seq<Vec<i8>>,
    trail: Seq<(usize, usize)>,
    row: usize,
    col: usize,
    backtrack: bool,
    reverse: bool,
) -> Search {
    Search {
        start,
        now: grid_of(board),
        trail,
        row: row as int,
        col: col as int,
        backtrack,
        reverse,
    }
}

/// Exhaustive depth-first search over the empty cells in row-major order,
/// with an explicit trail of the cells filled so far. Candidates are tried
/// from 1 upwards, or from 9 downwards when `reverse` is set.
///
/// Returns `true` with the board turned into the completion that this order
/// meets first, or `false` when the board has no completion; the board is
/// then left with at most its first empty cell changed.
pub fn solve_iteratively(board: &mut Vec<Vec<i8>>, reverse: bool) -> (found: bool)
    requires
        well_formed(grid_of(old(board)@)),
    ensures
        search_outcome(grid_of(old(board)@), grid_of(final(board)@), reverse, found),
{
    let ghost start = grid_of(board@);
    let mut row: usize = 0;
    let mut col: usize = 0;
    let mut trail: Vec<(usize, usize)> = Vec::new();
    let mut backtrack = false;
    proof {
        lemma_search_start(start, reverse);
        lemma_progress_bound(search_state(start, board@, trail@, row, col, backtrack, reverse));
    }
    while row < 9
        invariant
            search_inv(search_state(start, board@, trail@, row, col, backtrack, reverse)),
            start == grid_of(old(board)@),
        decreases
                progress_limit() - search_progress(
                    search_state(start, board@, trail@, row, col, backtrack, reverse),
                ),
                81 - (row * 9 + col),
                if col == 9 {
                    1int
                } else {
                    0int
                },
    {
        let ghost st = search_state(start, board@, trail@, row, col, backtrack, reverse);
        proof {
            lemma_progress_bound(st);
        }
        if col == 9 {
            proof {
                lemma_search_wrap(st);
                lemma_progress_wrap(st);
            }
            col = 0;
            row += 1;
            assert(search_state(start, board@, trail@, row, col, backtrack, reverse) == wrapped(st));
        } else {
            assert(st.now[row as int] == board@[row as int]@);
            let current = board[row][col];
            if current == 0 || backtrack {
                let v = next_candidate(board, row, col, current, backtrack, reverse);
                if v != 0 {
                    proof {
                        assert(next_value(st, v));
                        lemma_search_place(st, v);
                        lemma_progress_place(st, v);
                        lemma_progress_bound(placed(st, v));
                    }
                    backtrack = false;
                    trail.push((row, col));
                    set_cell(board, row, col, v);
                    col += 1;
                    assert(search_state(start, board@, trail@, row, col, backtrack, reverse)
                        == placed(st, v));
                } else {
                    assert(no_value(st));
                    if trail.len() == 0 {
                        proof {
                            lemma_search_stuck(st);
                        }
                        return false;
                    }
                    proof {
                        lemma_search_retreat(st);
                        lemma_progress_retreat(st);
                        lemma_progress_bound(retreated(st));
                    }
                    set_cell(board, row, col, 0);
                    let last = trail.pop().unwrap();
                    row = last.0;
                    col = last.1;
                    backtrack = true;
                    assert(search_state(start, board@, trail@, row, col, backtrack, reverse)
                        == retreated(st));
                }
            } else {
                proof {
                    lemma_search_skip(st);
                    lemma_progress_skip(st);
                }
                col += 1;
                assert(search_state(start, board@, trail@, row, col, backtrack, reverse)
                    == advanced(st));
            }
        }
    }
    proof {
        lemma_search_done(search_state(start, board@, trail@, row, col, backtrack, reverse));
    }
    true
}

/// Solves the board in place. Candidates are tried in ascending order, or in
/// descending order when `reverse` is set.
///
/// A malformed board is refused and left as it is. Otherwise the answer says
/// whether the board has a completion; if it has, the board becomes the
/// first one in the order of the search.
pub fn solve_sudoku(board: &mut Vec<Vec<i8>>, reverse: bool) -> (res: Result<bool, SudokuError>)
    ensures
        match res {
            Ok(found) => well_formed(grid_of(old(board)@)) && search_outcome(
                grid_of(old(board)@),
                grid_of(final(board)@),
                reverse,
                found,
            ),
            Err(e) => !well_formed(grid_of(old(board)@)) && e == SudokuError::MalformedGrid
                && final(board)@ == old(board)@,
        },
{
    if !is_well_formed(board) {
        return Err(SudokuError::MalformedGrid);
    }
    Ok(solve_iteratively(board, reverse))
}

/// A board of nine rows of nine empty cells.
pub(crate) fn empty_board() -> (board: Vec<Vec<i8>>)
    ensures
        grid_of(board@) == empty_grid(),
{
    let mut board: Vec<Vec<i8>> = Vec::new();
    let mut r: usize = 0;
    while r < 9
        invariant
            r <= 9,
            board@.len() == r,
            forall|i: int| 0 <= i < r ==> (#[trigger] board@[i])@.len() == 9,
            forall|i: int, j: int| 0 <= i < r && 0 <= j < 9 ==> #[trigger] board@[i]@[j] == 0,
        decreases 9 - r,
    {
        let mut row: Vec<i8> = Vec::new();
        let mut c: usize = 0;
        while c < 9
            invariant
                c <= 9,
                row@.len() == c,
                forall|j: int| 0 <= j < c ==> row@[j] == 0,
            decreases 9 - c,
        {
            row.push(0);
            c += 1;
        }
        board.push(row);
        r += 1;
    }
    proof {
        let g = grid_of(board@);
        assert forall|i: int| 0 <= i < 9 implies #[trigger] g[i] == empty_grid()[i] by {
            assert(g[i] =~= empty_grid()[i]);
        }
        assert(g =~= empty_grid());
    }
    board
}

/// A copy of the board.
fn copy_board(board: &Vec<Vec<i8>>) -> (copy: Vec<Vec<i8>>)
    ensures
        grid_of(copy@) == grid_of(board@),
{
    let mut copy: Vec<Vec<i8>> = Vec::new();
    let mut r: usize = 0;
    while r < board.len()
        invariant
            r <= board@.len(),
            copy@.len() == r,
            forall|i: int| 0 <= i < r ==> (#[trigger] copy@[i])@ == board@[i]@,
        decreases board@.len() - r,
    {
        let mut row: Vec<i8> = Vec::new();
        let mut c: usize = 0;
        while c < board[r].len()
            invariant
                r < board@.len(),
                c <= board@[r as int]@.len(),
                row@.len() == c,
                forall|j: int| 0 <= j < c ==> row@[j] == board@[r as int]@[j],
            decreases board@[r as int]@.len() - c,
        {
            row.push(board[r][c]);
            c += 1;
        }
        assert(row@ =~= board@[r as int]@);
        copy.push(row);
        r += 1;
    }
    assert(grid_of(copy@) =~= grid_of(board@));
    copy
}

/// Whether two 9x9 boards hold the same values.
fn same_board(a: &Vec<Vec<i8>>, b: &Vec<Vec<i8>>) -> (same: bool)
    requires
        has_shape(grid_of(a@)),
        has_shape(grid_of(b@)),
    ensures
        same == (grid_of(a@) == grid_of(b@)),
{
    let ghost ga = grid_of(a@);
    let ghost gb = grid_of(b@);
    let mut r: usize = 0;
    while r < 9
        invariant
            r <= 9,
            ga == grid_of(a@),
            gb == grid_of(b@),
            has_shape(ga),
            has_shape(gb),
            forall|i: int, j: int| 0 <= i < r && 0 <= j < 9 ==> #[trigger] ga[i][j] == gb[i][j],
        decreases 9 - r,
    {
        assert(ga[r as int] == a@[r as int]@);
        assert(gb[r as int] == b@[r as int]@);
        let mut c: usize = 0;
        while c < 9
            invariant
                r < 9,
                c <= 9,
                ga == grid_of(a@),
                gb == grid_of(b@),
                ga[r as int] == a@[r as int]@,
                gb[r as int] == b@[r as int]@,
                has_shape(ga),
                has_shape(gb),
                forall|j: int| 0 <= j < c ==> ga[r as int][j] == gb[r as int][j],
            decreases 9 - c,
        {
            if a[r][c] != b[r][c] {
                return false;
            }
            c += 1;
        }
        r += 1;
    }
    proof {
        lemma_grid_ext(ga, gb);
    }
    true
}

/// Draws without replacement: takes the value at position `draw` modulo the
/// number of values left, and removes it from them.
pub fn take_value(values: &mut Vec<i8>, draw: usize) -> (v: i8)
    requires
        old(values)@.len() > 0,
    ensures
        v == old(values)@[draw as int % old(values)@.len() as int],
        final(values)@ == old(values)@.remove(draw as int % old(values)@.len() as int),
{
    let index = draw % values.len();
    let v = values[index];
    values.remove(index);
    v
}

/// One step of clue removal, for the cell with row-major index `draw` modulo
/// 81.
///
/// An empty cell is passed over. Otherwise the cell is cleared and the
/// cleared board is searched in both directions, on copies. Where the two
/// searches end on different boards, the clue was needed: the board as it
/// was before the removal is handed back, and the caller stops there.
pub fn dig_once(board: &mut Vec<Vec<i8>>, draw: usize) -> (kept: Option<Vec<Vec<i8>>>)
    requires
        well_formed(grid_of(old(board)@)),
    ensures
        ({
            let g = grid_of(old(board)@);
            let row = (draw as int % 81) / 9;
            let col = (draw as int % 81) % 9;
            if g[row][col] == 0 {
                kept is None && grid_of(final(board)@) == g
            } else {
                &&& grid_of(final(board)@) == place(g, row, col, 0)
                &&& kept is None <==> searches_agree(place(g, row, col, 0))
                &&& kept matches Some(prev) ==> grid_of(prev@) == g
            }
        }),
{
    let index = draw % 81;
    let row = index / 9;
    let col = index % 9;
    let ghost g = grid_of(board@);
    assert(g[row as int] == board@[row as int]@);
    if board[row][col] == 0 {
        return None;
    }
    let prev_board = copy_board(board);
    set_cell(board, row, col, 0);
    let ghost cleared = grid_of(board@);
    proof {
        lemma_place(g, row as int, col as int, 0);
    }
    let mut board1 = copy_board(board);
    let mut board2 = copy_board(board);
    let found1 = solve_iteratively(&mut board1, true);
    let found2 = solve_iteratively(&mut board2, false);
    let ghost f1 = grid_of(board1@);
    let ghost f2 = grid_of(board2@);
    proof {
        lemma_search_shape(cleared, f1, true, found1);
        lemma_search_shape(cleared, f2, false, found2);
        if searches_agree(cleared) {
            let (f, found) = choose|f: Grid, found: bool|
                #[trigger] search_outcome(cleared, f, false, found) && search_outcome(
                    cleared,
                    f,
                    true,
                    found,
                );
            lemma_outcome_unique(cleared, true, f, found, f1, found1);
            lemma_outcome_unique(cleared, false, f, found, f2, found2);
        }
        if f1 == f2 {
            if found1 {
                assert(completes(f1, cleared));
            }
            if found2 {
                assert(completes(f2, cleared));
            }
            assert(search_outcome(cleared, f2, false, found2) && search_outcome(cleared, f2, true, found2));
        }
    }
    if !same_board(&board1, &board2) {
        return Some(prev_board);
    }
    None
}

/// A new puzzle, made of the numbers that `draws` gives.
///
/// The first row is seeded with a permutation of the digits, by nine draws
/// without replacement; the rest of the first column with one drawn
/// candidate for each cell; and the board is completed by a descending
/// search. Should the seeded column leave the board without a completion,
/// the search starts again from the first row alone, which always has one.
/// Then clues are removed from drawn cells for as long as the ascending and
/// the descending search still end on the same board; the board before the
/// first removal that parts them is the puzzle. No more than `DIG_ATTEMPTS`
/// cells are drawn; after that the board as it stands is the puzzle.
///
/// Whatever numbers are drawn, the puzzle is a valid board with exactly one
/// completion, and it is the board that `generated` describes for the
/// numbers drawn. Unless the limit of draws was used up, one of its clues is
/// needed. Where the numbers given in advance suffice, they determine the
/// puzzle.
pub fn generate_from(draws: &mut Draws) -> (board: Vec<Vec<i8>>)
    ensures
        valid_board(grid_of(board@)),
        has_completion(grid_of(board@)),
        at_most_one_completion(grid_of(board@)),
        exists|drawn: Seq<usize>|
            #[trigger] drawn_from(old(draws)@, final(draws)@, drawn) && generated(
                grid_of(board@),
                drawn,
            ) && (clue_needed(grid_of(board@)) || drawn.len() == 17 + DIG_ATTEMPTS),
        puzzle_from(old(draws)@) matches Some(puzzle) ==> grid_of(board@) == puzzle,
{
    let ghost given = draws@;
    let ghost mut drawn: Seq<usize> = Seq::empty();
    proof {
        draws.lemma_given_bounded();
        assert(drawn =~= given.take(0));
        assert(draws@ =~= given.skip(0));
    }
    let mut board = empty_board();
    let mut values: Vec<i8> = vec![1, 2, 3, 4, 5, 6, 7, 8, 9];
    assert(values@ =~= all_digits());
    let mut i: usize = 0;
    assert(valid_board(grid_of(board@))) by {
        let g = grid_of(board@);
        assert forall|r: int, c: int| in_board(r, c) && #[trigger] g[r][c] != 0 implies fits(
            g,
            r,
            c,
            g[r][c],
        ) by {}
    }
    // fill the first row with 1-9 randomly
    while i < 9
        invariant
            i <= 9,
            values@.len() == 9 - i,
            distinct_digits(values@),
            valid_board(grid_of(board@)),
            only_seed_cells(grid_of(board@), i as int, 0),
            unused_on(values@, grid_of(board@)),
            forall|c: int| 0 <= c < i ==> grid_of(board@)[0][c] != 0,
            given == old(draws)@,
            drawn_from(given, draws@, drawn),
            drawn.len() == i,
            seeded_row(drawn, i as int) == (grid_of(board@), values@),
        decreases 9 - i,
    {
        let ghost g = grid_of(board@);
        let ghost before = values@;
        let ghost pending = draws@;
        let ghost so_far = drawn;
        let draw = draws.next();
        // remove the value from the list so it won't be used again
        let v = take_value(&mut values, draw);
        proof {
            lemma_drawn_next(given, pending, so_far, draws@, draw);
            drawn = so_far.push(draw);
            lemma_seeded_row_frame(drawn, so_far, i as int);
            let k = draw as int % before.len() as int;
            assert(before[k] == v);
            assert forall|r: int, c: int|
                in_board(r, c) && peers(0, i as int, r, c) implies #[trigger] g[r][c] != v by {
                assert(g[r][c] != before[k]);
            }
            lemma_placing_keeps_valid(g, 0, i as int, v);
            lemma_place(g, 0, i as int, v);
        }
        set_cell(&mut board, 0, i, v);
        proof {
            let k = draw as int % before.len() as int;
            let p = grid_of(board@);
            assert forall|j: int| 0 <= j < values@.len() implies values@[j] == before[if j < k {
                j
            } else {
                j + 1
            }] by {}
            assert forall|r: int, c: int, j: int|
                in_board(r, c) && 0 <= j < values@.len() implies #[trigger] p[r][c]
                != #[trigger] values@[j] by {
                let j0 = if j < k {
                    j
                } else {
                    j + 1
                };
                assert(values@[j] == before[j0]);
                if r == 0 && c == i {
                    assert(before[j0] != before[k]);
                } else {
                    assert(g[r][c] != before[j0]);
                }
            }
            assert forall|a: int| 0 <= a < values@.len() implies 1 <= #[trigger] values@[a] <= 9 by {
                assert(values@[a] == before[if a < k {
                    a
                } else {
                    a + 1
                }]);
            }
            assert forall|a: int, b: int| 0 <= a < b < values@.len() implies values@[a]
                != values@[b] by {
                assert(values@[a] == before[if a < k {
                    a
                } else {
                    a + 1
                }]);
                assert(values@[b] == before[if b < k {
                    b
                } else {
                    b + 1
                }]);
            }
            assert forall|c: int| 0 <= c < i + 1 implies p[0][c] != 0 by {
                if c < i {
                    assert(in_board(0, c));
                    assert(p[0][c] == g[0][c]);
                }
            }
        }
        i += 1;
    }
    let first_row = copy_board(&board);
    let ghost first = grid_of(board@);
    // fill the first column below it with values that fit
    let mut i: usize = 1;
    while i < 9
        invariant
            1 <= i <= 9,
            valid_board(grid_of(board@)),
            only_seed_cells(grid_of(board@), 9, i as int),
            given == old(draws)@,
            drawn_from(given, draws@, drawn),
            drawn.len() == 8 + i,
            first == seeded_row(drawn, 9).0,
            seeded_column(first, drawn, i - 1) == grid_of(board@),
        decreases 9 - i,
    {
        let ghost g = grid_of(board@);
        let ghost pending = draws@;
        let ghost so_far = drawn;
        let suggestions = match get_suggestions(&board, i, 0) {
            Ok(list) => list,
            Err(_) => unreached(),
        };
        proof {
            lemma_candidates_listed(g, i as int, 0);
            lemma_seed_column_has_candidate(g, i as int);
            let v = choose|v: i8| 1 <= v <= 9 && fits(g, i as int, 0, v);
            assert(suggestions@.contains(v));
        }
        let draw = draws.next();
        let index = draw % suggestions.len();
        let v = suggestions[index];
        proof {
            lemma_drawn_next(given, pending, so_far, draws@, draw);
            drawn = so_far.push(draw);
            lemma_seeded_row_frame(drawn, so_far, 9);
            lemma_seeded_column_frame(first, drawn, so_far, i - 1);
            assert(suggestions@.contains(v));
            lemma_placing_keeps_valid(g, i as int, 0, v);
            lemma_place(g, i as int, 0, v);
        }
        set_cell(&mut board, i, 0, v);
        i += 1;
    }
    let ghost seed = grid_of(board@);
    let found = solve_iteratively(&mut board, true);
    if !found {
        board = first_row;
        let again = solve_iteratively(&mut board, true);
        proof {
            lemma_first_row_completable(first);
            assert(completes(shifted_rows(first[0]), first));
            assert(again);
            assert(!has_completion(seed));
            assert(ends_on(first, grid_of(board@), true));
            let f = search_end(first, true);
            if search_outcome(first, f, true, true) {
                lemma_outcome_unique(first, true, f, true, grid_of(board@), true);
            } else {
                lemma_outcome_unique(first, true, f, false, grid_of(board@), true);
            }
            lemma_outcome_valid(first, grid_of(board@), true, true);
        }
    } else {
        proof {
            assert(completes(grid_of(board@), seed));
            assert(ends_on(seed, grid_of(board@), true));
            let f = search_end(seed, true);
            if search_outcome(seed, f, true, true) {
                lemma_outcome_unique(seed, true, f, true, grid_of(board@), true);
            } else {
                lemma_outcome_unique(seed, true, f, false, grid_of(board@), true);
            }
            lemma_outcome_valid(seed, grid_of(board@), true, true);
        }
    }
    let ghost full = grid_of(board@);
    let ghost seeds = drawn;
    proof {
        assert(full == seeded_solution(seeds));
        lemma_solved_extension_completes(full, full);
        assert(drawn.skip(17) =~= Seq::<usize>::empty());
    }
    // Randomly remove values
    // Solve the puzzle both ways and check if the solutions match
    // The first time solutions don't match, return the previous board
    let mut attempts: u64 = 0;
    while attempts < DIG_ATTEMPTS
        invariant
            valid_board(grid_of(board@)),
            completes(full, grid_of(board@)),
            at_most_one_completion(grid_of(board@)),
            given == old(draws)@,
            given.len() <= usize::MAX,
            drawn_from(given, draws@, drawn),
            drawn.len() == 17 + attempts,
            seeds.len() == 17,
            seeds == drawn.take(17),
            full == seeded_solution(seeds),
            dig(full, drawn.skip(17)) == (grid_of(board@), false),
        decreases DIG_ATTEMPTS - attempts,
    {
        attempts += 1;
        let ghost g = grid_of(board@);
        let ghost pending = draws@;
        let ghost so_far = drawn;
        let draw = draws.next();
        let kept = dig_once(&mut board, draw);
        proof {
            lemma_drawn_next(given, pending, so_far, draws@, draw);
            drawn = so_far.push(draw);
            assert(drawn.take(17) =~= seeds);
            assert(drawn.skip(17) =~= so_far.skip(17).push(draw));
            assert(drawn.skip(17).drop_last() =~= so_far.skip(17));
            assert(dig(full, drawn.skip(17)) == dig_step(g, draw));
            lemma_dig_step(g, draw, full);
            lemma_seeded_solution_frame(seeds, drawn);
        }
        match kept {
            Some(prev_board) => {
                proof {
                    assert(generated(grid_of(prev_board@), drawn));
                    assert(clue_needed(grid_of(prev_board@)));
                    if puzzle_from(given) is Some {
                        lemma_given_numbers_decide(given, draws@, drawn, grid_of(prev_board@));
                    }
                }
                return prev_board;
            },
            None => {},
        }
    }
    proof {
        lemma_seeded_solution_frame(seeds, drawn);
        assert(generated(grid_of(board@), drawn));
        if puzzle_from(given) is Some {
            lemma_given_numbers_decide(given, draws@, drawn, grid_of(board@));
        }
    }
    board
}

/// A new puzzle, made of random numbers: a valid board with exactly one
/// completion, which is the board that `generated` describes for the numbers
/// drawn. Unless the limit of draws was used up, one of its clues is needed.
pub fn generate_sudoku() -> (board: Vec<Vec<i8>>)
    ensures
        valid_board(grid_of(board@)),
        has_completion(grid_of(board@)),
        at_most_one_completion(grid_of(board@)),
        exists|drawn: Seq<usize>|
            #[trigger] generated(grid_of(board@), drawn) && (clue_needed(grid_of(board@))
                || drawn.len() == 17 + DIG_ATTEMPTS),
{
    let mut draws = Draws::random();
    generate_from(&mut draws)
}

} // verus!
