//! The mathematical model of a Sudoku board and of the uniqueness rules.

use vstd::prelude::*;

verus! {

/// A board as a sequence of rows, each a sequence of cell values.
/// `0` marks an empty cell.
pub type Grid = Seq<Seq<i8>>;

/// Why an operation refused its input.
#[derive(Clone, Copy, Debug, PartialEq, Eq, Structural)]
pub enum SudokuError {
    /// The board is not 9x9, or a cell holds a value outside `0..=9`.
    MalformedGrid,
}

/// The model of an executable board.
pub open spec fn grid_of(rows: Seq<Vec<i8>>) -> Grid {
    Seq::new(rows.len(), |r: int| rows[r]@)
}

/// The board has nine rows of nine cells each.
pub open spec fn has_shape(g: Grid) -> bool {
    &&& g.len() == 9
    &&& forall|r: int| 0 <= r < 9 ==> (#[trigger] g[r]).len() == 9
}

/// `(r, c)` names a cell of the board.
pub open spec fn in_board(r: int, c: int) -> bool {
    0 <= r < 9 && 0 <= c < 9
}

/// The board is 9x9 and every cell holds `0` (empty) or a digit `1..=9`.
pub open spec fn well_formed(g: Grid) -> bool {
    &&& has_shape(g)
    &&& forall|r: int, c: int| in_board(r, c) ==> 0 <= #[trigger] g[r][c] <= 9
}

/// Two distinct cells that share a row, a column or a 3x3 box.
pub open spec fn peers(r1: int, c1: int, r2: int, c2: int) -> bool {
    &&& (r1 != r2 || c1 != c2)
    &&& (r1 == r2 || c1 == c2 || (r1 / 3 == r2 / 3 && c1 / 3 == c2 / 3))
}

/// No peer of `(row, col)` holds `v`. The cell's own content is not consulted.
pub open spec fn fits(g: Grid, row: int, col: int, v: i8) -> bool {
    forall|r: int, c: int| in_board(r, c) && peers(row, col, r, c) ==> #[trigger] g[r][c] != v
}

/// No filled cell repeats the value of one of its peers.
pub open spec fn legal(g: Grid) -> bool {
    forall|r: int, c: int|
        in_board(r, c) && #[trigger] g[r][c] != 0 ==> fits(g, r, c, g[r][c])
}

/// No cell is empty.
pub open spec fn full(g: Grid) -> bool {
    forall|r: int, c: int| in_board(r, c) ==> #[trigger] g[r][c] != 0
}

/// What the validator certifies: a well-formed board whose clues obey the
/// rules. Empty cells are allowed.
pub open spec fn valid_board(g: Grid) -> bool {
    well_formed(g) && legal(g)
}

/// A completely filled board that obeys the rules.
pub open spec fn solved(g: Grid) -> bool {
    valid_board(g) && full(g)
}

/// The board `g` with `v` written into `(row, col)`.
pub open spec fn place(g: Grid, row: int, col: int, v: i8) -> Grid {
    g.update(row, g[row].update(col, v))
}

/// `s` is the list of legal values for `(row, col)`: strictly ascending, and
/// holding exactly the digits `1..=9` that no peer of the cell holds.
pub open spec fn lists_candidates(s: Seq<i8>, g: Grid, row: int, col: int) -> bool {
    &&& forall|i: int, j: int| 0 <= i < j < s.len() ==> s[i] < s[j]
    &&& forall|v: i8|
        #![trigger s.contains(v)]
        #![trigger fits(g, row, col, v)]
        s.contains(v) <==> (1 <= v <= 9 && fits(g, row, col, v))
}

/// The digits up to `n` that fit `(row, col)`, in ascending order.
pub open spec fn candidates_upto(g: Grid, row: int, col: int, n: int) -> Seq<i8>
    decreases n,
{
    if n <= 0 {
        Seq::empty()
    } else if fits(g, row, col, n as i8) {
        candidates_upto(g, row, col, n - 1).push(n as i8)
    } else {
        candidates_upto(g, row, col, n - 1)
    }
}

/// The candidates of `(row, col)`: the digits that fit it, in ascending
/// order.
pub open spec fn candidates(g: Grid, row: int, col: int) -> Seq<i8> {
    candidates_upto(g, row, col, 9)
}

/// The digits up to `n` that fit a cell are in strictly ascending order, and
/// they are all of them.
pub proof fn lemma_candidates_upto(g: Grid, row: int, col: int, n: int)
    requires
        0 <= n <= 9,
    ensures
        forall|i: int, j: int|
            0 <= i < j < candidates_upto(g, row, col, n).len() ==> candidates_upto(g, row, col, n)[i]
                < candidates_upto(g, row, col, n)[j],
        forall|v: i8|
            #![trigger candidates_upto(g, row, col, n).contains(v)]
            #![trigger fits(g, row, col, v)]
            candidates_upto(g, row, col, n).contains(v) <==> (1 <= v <= n && fits(g, row, col, v)),
    decreases n,
{
    let s = candidates_upto(g, row, col, n);
    if n > 0 {
        let rest = candidates_upto(g, row, col, n - 1);
        lemma_candidates_upto(g, row, col, n - 1);
        let top = n as i8;
        assert forall|i: int| 0 <= i < rest.len() implies 1 <= #[trigger] rest[i] < n by {
            assert(rest.contains(rest[i]));
        }
        assert forall|v: i8|
            #![trigger s.contains(v)]
            #![trigger fits(g, row, col, v)]
            s.contains(v) <==> (1 <= v <= n && fits(g, row, col, v)) by {
            if s.contains(v) {
                let k = choose|k: int| 0 <= k < s.len() && s[k] == v;
                if k < rest.len() {
                    assert(rest[k] == v);
                    assert(rest.contains(v));
                }
            }
            if 1 <= v <= n && fits(g, row, col, v) {
                if v < n {
                    assert(rest.contains(v));
                    let k = choose|k: int| 0 <= k < rest.len() && rest[k] == v;
                    assert(s[k] == v);
                } else {
                    assert(s[rest.len() as int] == v);
                }
            }
        }
    }
}

/// The candidates of a cell are what `lists_candidates` describes.
pub proof fn lemma_candidates_listed(g: Grid, row: int, col: int)
    ensures
        lists_candidates(candidates(g, row, col), g, row, col),
{
    lemma_candidates_upto(g, row, col, 9);
}

/// Writing a cell changes that cell and no other.
pub proof fn lemma_place(g: Grid, row: int, col: int, v: i8)
    requires
        has_shape(g),
        in_board(row, col),
    ensures
        has_shape(place(g, row, col, v)),
        place(g, row, col, v)[row][col] == v,
        forall|r: int, c: int|
            in_board(r, c) && (r != row || c != col) ==> #[trigger] place(g, row, col, v)[r][c]
                == g[r][c],
{
    let p = place(g, row, col, v);
    assert forall|r: int| 0 <= r < 9 implies (#[trigger] p[r]).len() == 9 by {
        assert(g[r].len() == 9);
    }
    assert forall|r: int, c: int| in_board(r, c) && (r != row || c != col) implies #[trigger] p[r][c]
        == g[r][c] by {
        assert(g[r].len() == 9);
    }
}

/// Two boards of the right shape that agree on every cell are the same board.
pub proof fn lemma_grid_ext(a: Grid, b: Grid)
    requires
        has_shape(a),
        has_shape(b),
        forall|r: int, c: int| in_board(r, c) ==> #[trigger] a[r][c] == b[r][c],
    ensures
        a == b,
{
    assert forall|r: int| 0 <= r < 9 implies #[trigger] a[r] == b[r] by {
        assert(a[r].len() == 9 && b[r].len() == 9);
        assert forall|c: int| 0 <= c < 9 implies a[r][c] == b[r][c] by {
            assert(in_board(r, c));
        }
        assert(a[r] =~= b[r]);
    }
    assert(a =~= b);
}

} // verus!
