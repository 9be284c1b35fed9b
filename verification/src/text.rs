//! Boards and candidate lists as text: one character per cell, row by row.

use vstd::prelude::*;
use vstd::string::StrSliceExecFns;
use vstd::string::StringExecFns;
use crate::grid::{candidates, grid_of, has_shape, in_board, lemma_place, well_formed, Grid};
use crate::sudoku::{empty_board, set_cell};

verus! {

/// One of the characters `0` to `9`.
pub open spec fn is_digit(c: char) -> bool {
    '0' <= c <= '9'
}

/// The value that a digit character stands for.
pub open spec fn digit_value(c: char) -> i8 {
    (c as int - '0' as int) as i8
}

/// The character that stands for a value from 0 to 9.
pub open spec fn digit_char(v: i8) -> char {
    (v as int + '0' as int) as char
}

/// The text holds at most 81 characters, each of them a digit.
pub open spec fn is_board_text(s: Seq<char>) -> bool {
    &&& s.len() <= 81
    &&& forall|i: int| 0 <= i < s.len() ==> is_digit(#[trigger] s[i])
}

/// The board that a text stands for: its characters fill the cells row by
/// row, and the cells that the text does not reach are empty.
pub open spec fn board_from_text(s: Seq<char>) -> Grid {
    Seq::new(
        9,
        |r: int|
            Seq::new(
                9,
                |c: int|
                    if r * 9 + c < s.len() {
                        digit_value(s[r * 9 + c])
                    } else {
                        0i8
                    },
            ),
    )
}

/// The 81 characters that stand for a board, row by row.
pub open spec fn text_of_board(g: Grid) -> Seq<char> {
    Seq::new(81, |i: int| digit_char(g[i / 9][i % 9]))
}

/// The characters that stand for a list of digits, with nothing between
/// them.
pub open spec fn text_of_digits(list: Seq<i8>) -> Seq<char> {
    Seq::new(list.len(), |i: int| digit_char(list[i]))
}

/// The characters that stand for a list of digits, with a comma between
/// each two of them.
pub open spec fn joined_digits(list: Seq<i8>) -> Seq<char>
    decreases list.len(),
{
    if list.len() == 0 {
        Seq::empty()
    } else if list.len() == 1 {
        seq![digit_char(list[0])]
    } else {
        joined_digits(list.drop_last()) + seq![','] + seq![digit_char(list.last())]
    }
}

/// The text of the candidates of the cell with row-major index `i`: the
/// list in square brackets, followed by a comma unless the cell lies in the
/// last row or in the last column.
pub open spec fn cell_text(g: Grid, i: int) -> Seq<char> {
    seq!['['] + joined_digits(candidates(g, i / 9, i % 9)) + seq![']'] + if i / 9 != 8 && i % 9
        != 8 {
        seq![',']
    } else {
        Seq::<char>::empty()
    }
}

/// The texts of the first `n` cells, one after the other.
pub open spec fn cells_text(g: Grid, n: int) -> Seq<char>
    decreases n,
{
    if n <= 0 {
        Seq::empty()
    } else {
        cells_text(g, n - 1) + cell_text(g, n - 1)
    }
}

/// The text of the candidates of all cells: the texts of the 81 cells in
/// square brackets.
pub open spec fn all_suggestions_text(g: Grid) -> Seq<char> {
    seq!['['] + cells_text(g, 81) + seq![']']
}

/// What the solver says of a board as text: the completed board, or a
/// message where there is none.
pub open spec fn solution_text(f: Grid, found: bool) -> Seq<char> {
    if found {
        text_of_board(f)
    } else {
        "Invalid Puzzle Provided"@
    }
}

/// The board of a board text is well formed.
pub proof fn lemma_board_from_text(s: Seq<char>)
    requires
        is_board_text(s),
    ensures
        well_formed(board_from_text(s)),
{
    let g = board_from_text(s);
    assert forall|r: int, c: int| in_board(r, c) implies 0 <= #[trigger] g[r][c] <= 9 by {
        if r * 9 + c < s.len() {
            assert(is_digit(s[r * 9 + c]));
        }
    }
}

/// The value of a digit character.
fn digit_of(c: char) -> (v: i8)
    requires
        is_digit(c),
    ensures
        v == digit_value(c),
        0 <= v <= 9,
{
    match c {
        '0' => 0,
        '1' => 1,
        '2' => 2,
        '3' => 3,
        '4' => 4,
        '5' => 5,
        '6' => 6,
        '7' => 7,
        '8' => 8,
        _ => 9,
    }
}

/// The one-character text of a value from 0 to 9.
fn digit_text(v: i8) -> (s: &'static str)
    requires
        0 <= v <= 9,
    ensures
        s@ == seq![digit_char(v)],
{
    proof {
        reveal_strlit("0");
        reveal_strlit("1");
        reveal_strlit("2");
        reveal_strlit("3");
        reveal_strlit("4");
        reveal_strlit("5");
        reveal_strlit("6");
        reveal_strlit("7");
        reveal_strlit("8");
        reveal_strlit("9");
    }
    let s = match v {
        0 => "0",
        1 => "1",
        2 => "2",
        3 => "3",
        4 => "4",
        5 => "5",
        6 => "6",
        7 => "7",
        8 => "8",
        _ => "9",
    };
    assert(s@ =~= seq![digit_char(v)]);
    s
}

/// Reads a board from its text.
pub fn parse_board(input: &str) -> (board: Vec<Vec<i8>>)
    requires
        is_board_text(input@),
    ensures
        grid_of(board@) == board_from_text(input@),
{
    let mut board = empty_board();
    let n = input.unicode_len();
    let mut i: usize = 0;
    while i < n
        invariant
            i <= n,
            n == input@.len(),
            is_board_text(input@),
            has_shape(grid_of(board@)),
            forall|r: int, c: int|
                in_board(r, c) ==> #[trigger] grid_of(board@)[r][c] == if r * 9 + c < i {
                    digit_value(input@[r * 9 + c])
                } else {
                    0i8
                },
        decreases n - i,
    {
        let c = input.get_char(i);
        let v = digit_of(c);
        proof {
            lemma_place(grid_of(board@), (i / 9) as int, (i % 9) as int, v);
        }
        set_cell(&mut board, i / 9, i % 9, v);
        i += 1;
    }
    proof {
        let g = grid_of(board@);
        let t = board_from_text(input@);
        assert forall|r: int| 0 <= r < 9 implies #[trigger] g[r] == t[r] by {
            assert forall|c: int| 0 <= c < 9 implies g[r][c] == t[r][c] by {
                assert(in_board(r, c));
            }
            assert(g[r] =~= t[r]);
        }
        assert(g =~= t);
    }
    board
}

/// Writes a board as text.
pub fn format_board(board: &Vec<Vec<i8>>) -> (output: String)
    requires
        well_formed(grid_of(board@)),
    ensures
        output@ == text_of_board(grid_of(board@)),
{
    let ghost g = grid_of(board@);
    let mut output = String::new();
    let mut i: usize = 0;
    while i < 9
        invariant
            i <= 9,
            g == grid_of(board@),
            well_formed(g),
            output@ == text_of_board(g).take(i * 9),
        decreases 9 - i,
    {
        let mut j: usize = 0;
        while j < 9
            invariant
                i < 9,
                j <= 9,
                g == grid_of(board@),
                well_formed(g),
                output@ == text_of_board(g).take(i * 9 + j),
            decreases 9 - j,
        {
            assert(g[i as int] == board@[i as int]@);
            assert(in_board(i as int, j as int));
            let ghost before = output@;
            output.append(digit_text(board[i][j]));
            assert(output@ =~= text_of_board(g).take(i * 9 + j + 1));
            j += 1;
        }
        i += 1;
    }
    assert(text_of_board(g).take(81) =~= text_of_board(g));
    output
}

/// Writes a list of digits as text, with nothing between them.
pub fn format_digits(list: &Vec<i8>) -> (output: String)
    requires
        forall|i: int| 0 <= i < list@.len() ==> 0 <= #[trigger] list@[i] <= 9,
    ensures
        output@ == text_of_digits(list@),
{
    let mut output = String::new();
    let mut i: usize = 0;
    while i < list.len()
        invariant
            i <= list@.len(),
            forall|k: int| 0 <= k < list@.len() ==> 0 <= #[trigger] list@[k] <= 9,
            output@ == text_of_digits(list@).take(i as int),
        decreases list@.len() - i,
    {
        output.append(digit_text(list[i]));
        assert(output@ =~= text_of_digits(list@).take(i + 1));
        i += 1;
    }
    assert(text_of_digits(list@).take(list@.len() as int) =~= text_of_digits(list@));
    output
}

/// Appends a list of digits to the text, with a comma between each two of
/// them.
pub fn append_joined_digits(output: &mut String, list: &Vec<i8>)
    requires
        forall|i: int| 0 <= i < list@.len() ==> 0 <= #[trigger] list@[i] <= 9,
    ensures
        final(output)@ == old(output)@ + joined_digits(list@),
{
    let ghost start = output@;
    let mut i: usize = 0;
    proof {
        reveal_strlit(",");
    }
    while i < list.len()
        invariant
            i <= list@.len(),
            forall|k: int| 0 <= k < list@.len() ==> 0 <= #[trigger] list@[k] <= 9,
            output@ == start + joined_digits(list@.take(i as int)),
            ","@ == seq![','],
        decreases list@.len() - i,
    {
        let ghost head = list@.take(i as int);
        let ghost next = list@.take(i + 1);
        assert(next.drop_last() =~= head);
        assert(next.last() == list@[i as int]);
        if i != 0 {
            output.append(",");
        }
        output.append(digit_text(list[i]));
        proof {
            if i == 0 {
                assert(joined_digits(head) =~= Seq::<char>::empty());
                assert(joined_digits(next) =~= seq![digit_char(list@[0])]);
            }
            assert(output@ =~= start + joined_digits(next));
        }
        i += 1;
    }
    assert(list@.take(list@.len() as int) =~= list@);
}

} // verus!
