//! The puzzle that the generator makes of the numbers it draws.

use vstd::prelude::*;
use crate::grid::{candidates, fits, in_board, lemma_place, place, valid_board, Grid};
use crate::grid::solved;
use crate::laws::{
    at_most_one_completion, extends, lemma_agreement_means_unique, lemma_clearing_keeps_valid,
    lemma_completion_is_solved, lemma_solved_extension_completes, searches_agree,
};
use crate::search::{completes, search_outcome};

verus! {

/// How many cells the generator draws, at most, while it removes clues.
pub const DIG_ATTEMPTS: u64 = 0xffff_ffff_ffff_ffff;

/// The board with no cell filled.
pub open spec fn empty_grid() -> Grid {
    Seq::new(9, |r: int| Seq::new(9, |c: int| 0i8))
}

/// The digits from 1 to 9 in ascending order.
pub open spec fn all_digits() -> Seq<i8> {
    seq![1i8, 2i8, 3i8, 4i8, 5i8, 6i8, 7i8, 8i8, 9i8]
}

/// Some board completes `g`.
pub open spec fn has_completion(g: Grid) -> bool {
    exists|s: Grid| completes(s, g)
}

/// Some clue of `g` is needed: with it cleared, the ascending and the
/// descending search end on different boards.
pub open spec fn clue_needed(g: Grid) -> bool {
    exists|r: int, c: int|
        in_board(r, c) && g[r][c] != 0 && !searches_agree(#[trigger] place(g, r, c, 0))
}

/// The board and the digits left after the first `n` cells of the first row
/// were seeded: cell `k` takes, of the digits then left, the one at position
/// `draws[k]` modulo their number.
pub open spec fn seeded_row(draws: Seq<usize>, n: int) -> (Grid, Seq<i8>)
    decreases n,
{
    if n <= 0 {
        (empty_grid(), all_digits())
    } else {
        let (g, left) = seeded_row(draws, n - 1);
        let k = draws[n - 1] as int % left.len() as int;
        (place(g, 0, n - 1, left[k]), left.remove(k))
    }
}

/// The board after the rows 1 to `n` of the first column were seeded: row
/// `k` takes, of the candidates of its cell, the one at position
/// `draws[8 + k]` modulo their number.
pub open spec fn seeded_column(g: Grid, draws: Seq<usize>, n: int) -> Grid
    decreases n,
{
    if n <= 0 {
        g
    } else {
        let b = seeded_column(g, draws, n - 1);
        let list = candidates(b, n, 0);
        place(b, n, 0, list[draws[8 + n] as int % list.len() as int])
    }
}

/// A search that starts from `g` can end on `f`.
pub open spec fn ends_on(g: Grid, f: Grid, reverse: bool) -> bool {
    search_outcome(g, f, reverse, true) || search_outcome(g, f, reverse, false)
}

/// The board that a search from `g` ends on.
pub open spec fn search_end(g: Grid, reverse: bool) -> Grid {
    choose|f: Grid| ends_on(g, f, reverse)
}

/// The full board that the generator removes clues from. The first row is
/// seeded by the numbers 0 to 8, the first column by the numbers 9 to 16,
/// and a descending search fills in the rest. Should the seeded column leave
/// the board without a completion, the search starts from the first row
/// alone.
pub open spec fn seeded_solution(draws: Seq<usize>) -> Grid {
    let first_row = seeded_row(draws, 9).0;
    let seed = seeded_column(first_row, draws, 8);
    if has_completion(seed) {
        search_end(seed, true)
    } else {
        search_end(first_row, true)
    }
}

/// One step of clue removal on `g`, for the cell with row-major index `draw`
/// modulo 81: the board after it, and whether clue removal ends with it. An
/// empty cell is passed over. A filled cell is cleared if the ascending and
/// the descending search agree on the cleared board; if they do not, the
/// board stays as it is and clue removal ends.
pub open spec fn dig_step(g: Grid, draw: usize) -> (Grid, bool) {
    let row = (draw as int % 81) / 9;
    let col = (draw as int % 81) % 9;
    if g[row][col] == 0 {
        (g, false)
    } else if searches_agree(place(g, row, col, 0)) {
        (place(g, row, col, 0), false)
    } else {
        (g, true)
    }
}

/// Clue removal on `g` with the numbers `draws`, one step for each number
/// until a step ends it: the board reached, and whether clue removal has
/// ended.
pub open spec fn dig(g: Grid, draws: Seq<usize>) -> (Grid, bool)
    decreases draws.len(),
{
    if draws.len() == 0 {
        (g, false)
    } else {
        let before = dig(g, draws.drop_last());
        if before.1 {
            before
        } else {
            dig_step(before.0, draws.last())
        }
    }
}

/// The puzzle that the generator makes of the numbers `draws`, or `None`
/// where they run out before clue removal has ended.
pub open spec fn puzzle_from(draws: Seq<usize>) -> Option<Grid> {
    if draws.len() >= 17 && dig(seeded_solution(draws), draws.skip(17)).1 {
        Some(dig(seeded_solution(draws), draws.skip(17)).0)
    } else {
        None
    }
}

/// `p` is what the generator gives when it has drawn the numbers `drawn`,
/// all of them: the board that clue removal has reached, with clue removal
/// ended or the limit of draws used up.
pub open spec fn generated(p: Grid, drawn: Seq<usize>) -> bool {
    &&& drawn.len() >= 17
    &&& p == dig(seeded_solution(drawn), drawn.skip(17)).0
    &&& dig(seeded_solution(drawn), drawn.skip(17)).1 || drawn.len() == 17 + DIG_ATTEMPTS
}

/// `p` is a puzzle as the generator makes them: a valid board with exactly
/// one completion that is what `generated` describes for some numbers, and
/// of which some clue is needed unless the limit of draws was used up.
pub open spec fn is_puzzle(p: Grid) -> bool {
    &&& valid_board(p)
    &&& has_completion(p)
    &&& at_most_one_completion(p)
    &&& exists|drawn: Seq<usize>|
        #[trigger] generated(p, drawn) && (clue_needed(p) || drawn.len() == 17 + DIG_ATTEMPTS)
}

/// The numbers `drawn` were taken from a source that was given `given` in
/// advance and has `pending` of them left: the two sequences agree as far as
/// both reach, and the source has given out what they share.
pub open spec fn drawn_from(given: Seq<usize>, pending: Seq<usize>, drawn: Seq<usize>) -> bool {
    if drawn.len() <= given.len() {
        drawn == given.take(drawn.len() as int) && pending == given.skip(drawn.len() as int)
    } else {
        given == drawn.take(given.len() as int) && pending.len() == 0
    }
}

/// One more number drawn from the source.
pub proof fn lemma_drawn_next(
    given: Seq<usize>,
    pending: Seq<usize>,
    drawn: Seq<usize>,
    left: Seq<usize>,
    n: usize,
)
    requires
        drawn_from(given, pending, drawn),
        pending.len() > 0 ==> n == pending[0] && left == pending.skip(1),
        pending.len() == 0 ==> left.len() == 0,
    ensures
        drawn_from(given, left, drawn.push(n)),
{
    let more = drawn.push(n);
    if drawn.len() < given.len() {
        assert(pending.len() > 0);
        assert(more =~= given.take(more.len() as int));
        assert(left =~= given.skip(more.len() as int));
    } else {
        assert(given =~= more.take(given.len() as int));
    }
}

/// The seeding of the first `n` cells of the first row reads the first `n`
/// numbers only.
pub proof fn lemma_seeded_row_frame(a: Seq<usize>, b: Seq<usize>, n: int)
    requires
        0 <= n <= a.len(),
        n <= b.len(),
        forall|k: int| 0 <= k < n ==> a[k] == b[k],
    ensures
        seeded_row(a, n) == seeded_row(b, n),
    decreases n,
{
    if n > 0 {
        lemma_seeded_row_frame(a, b, n - 1);
    }
}

/// The seeding of the rows 1 to `n` of the first column reads the numbers 9
/// to `8 + n` only.
pub proof fn lemma_seeded_column_frame(g: Grid, a: Seq<usize>, b: Seq<usize>, n: int)
    requires
        0 <= n,
        9 + n <= a.len(),
        9 + n <= b.len(),
        forall|k: int| 9 <= k < 9 + n ==> a[k] == b[k],
    ensures
        seeded_column(g, a, n) == seeded_column(g, b, n),
    decreases n,
{
    if n > 0 {
        lemma_seeded_column_frame(g, a, b, n - 1);
    }
}

/// The full board that clue removal starts from is made of the first 17
/// numbers.
pub proof fn lemma_seeded_solution_frame(a: Seq<usize>, b: Seq<usize>)
    requires
        17 <= a.len(),
        17 <= b.len(),
        forall|k: int| 0 <= k < 17 ==> a[k] == b[k],
    ensures
        seeded_solution(a) == seeded_solution(b),
{
    lemma_seeded_row_frame(a, b, 9);
    lemma_seeded_column_frame(seeded_row(a, 9).0, a, b, 8);
}

/// Once clue removal has ended, more numbers change nothing.
pub proof fn lemma_dig_ended(g: Grid, a: Seq<usize>, b: Seq<usize>)
    requires
        a.len() <= b.len(),
        a == b.take(a.len() as int),
        dig(g, a).1,
    ensures
        dig(g, b) == dig(g, a),
    decreases b.len(),
{
    if a.len() == b.len() {
        assert(a =~= b);
    } else {
        assert(a =~= b.drop_last().take(a.len() as int));
        lemma_dig_ended(g, a, b.drop_last());
    }
}

/// What completes a valid board also completes it with one cell cleared.
pub proof fn lemma_completes_cleared(g: Grid, s: Grid, row: int, col: int)
    requires
        valid_board(g),
        completes(s, g),
        in_board(row, col),
    ensures
        completes(s, place(g, row, col, 0)),
{
    let p = place(g, row, col, 0);
    lemma_place(g, row, col, 0);
    lemma_completion_is_solved(g, s);
    assert forall|r: int, c: int| in_board(r, c) implies if p[r][c] != 0 {
        #[trigger] s[r][c] == p[r][c]
    } else {
        fits(s, r, c, s[r][c])
    } by {
        if r == row && c == col {
            assert(s[r][c] != 0);
        } else {
            assert(p[r][c] == g[r][c]);
        }
    }
}

/// A step of clue removal keeps the solution: on a valid board with exactly
/// one completion it gives a valid board with the same completion and no
/// other. The step that ends clue removal shows a clue that is needed.
pub proof fn lemma_dig_step(g: Grid, draw: usize, s: Grid)
    requires
        valid_board(g),
        completes(s, g),
        at_most_one_completion(g),
    ensures
        valid_board(dig_step(g, draw).0),
        completes(s, dig_step(g, draw).0),
        at_most_one_completion(dig_step(g, draw).0),
        dig_step(g, draw).1 ==> clue_needed(dig_step(g, draw).0),
{
    let row = (draw as int % 81) / 9;
    let col = (draw as int % 81) % 9;
    let cleared = place(g, row, col, 0);
    if g[row][col] != 0 {
        if searches_agree(cleared) {
            lemma_clearing_keeps_valid(g, row, col);
            lemma_completes_cleared(g, s, row, col);
            lemma_agreement_means_unique(cleared);
        } else {
            assert(in_board(row, col) && g[row][col] != 0 && !searches_agree(
                place(g, row, col, 0),
            ));
        }
    }
}

/// Clue removal keeps the solution: the board that it reaches from a valid
/// board with exactly one completion is a valid board with the same
/// completion and no other. Where clue removal has ended, some clue of that
/// board is needed.
pub proof fn lemma_dig_keeps_completion(g: Grid, draws: Seq<usize>, s: Grid)
    requires
        valid_board(g),
        completes(s, g),
        at_most_one_completion(g),
    ensures
        valid_board(dig(g, draws).0),
        completes(s, dig(g, draws).0),
        at_most_one_completion(dig(g, draws).0),
        dig(g, draws).1 ==> clue_needed(dig(g, draws).0),
    decreases draws.len(),
{
    if draws.len() > 0 {
        lemma_dig_keeps_completion(g, draws.drop_last(), s);
        let before = dig(g, draws.drop_last());
        if !before.1 {
            lemma_dig_step(before.0, draws.last(), s);
        }
    }
}

/// The numbers given in advance fix the puzzle where they suffice: whatever
/// else is drawn after them, the generator gives the puzzle that they make.
pub proof fn lemma_given_numbers_decide(
    given: Seq<usize>,
    pending: Seq<usize>,
    drawn: Seq<usize>,
    p: Grid,
)
    requires
        given.len() <= usize::MAX,
        drawn_from(given, pending, drawn),
        generated(p, drawn),
        puzzle_from(given) is Some,
    ensures
        puzzle_from(given) == Some(p),
{
    let a = given.skip(17);
    let b = drawn.skip(17);
    if drawn.len() <= given.len() {
        lemma_seeded_solution_frame(given, drawn);
        assert(b =~= a.take(b.len() as int));
        lemma_dig_ended(seeded_solution(drawn), b, a);
    } else {
        lemma_seeded_solution_frame(given, drawn);
        assert(a =~= b.take(a.len() as int));
        lemma_dig_ended(seeded_solution(given), a, b);
    }
}

/// On a puzzle the ascending and the descending search both succeed, and
/// they end on the same board.
pub proof fn lemma_puzzle_solves_both_ways(
    p: Grid,
    up: Grid,
    found_up: bool,
    down: Grid,
    found_down: bool,
)
    requires
        is_puzzle(p),
        search_outcome(p, up, false, found_up),
        search_outcome(p, down, true, found_down),
    ensures
        found_up,
        found_down,
        up == down,
{
    let s = choose|s: Grid| completes(s, p);
    if found_up {
        assert(completes(up, p));
    }
    if found_down {
        assert(completes(down, p));
    }
}

/// A puzzle has exactly one solution: some solved board keeps its clues,
/// and any two solved boards that keep them are the same.
pub proof fn lemma_puzzle_has_one_solution(p: Grid, a: Grid, b: Grid)
    requires
        is_puzzle(p),
    ensures
        exists|s: Grid| solved(s) && #[trigger] extends(s, p),
        solved(a) && extends(a, p) && solved(b) && extends(b, p) ==> a == b,
{
    let s = choose|s: Grid| completes(s, p);
    lemma_completion_is_solved(p, s);
    assert(solved(s) && extends(s, p));
    if solved(a) && extends(a, p) && solved(b) && extends(b, p) {
        lemma_solved_extension_completes(p, a);
        lemma_solved_extension_completes(p, b);
    }
}

} // verus!
