//! A constraint engine for 9x9 Sudoku boards: rule checking, candidate
//! enumeration, exhaustive backtracking search and puzzle generation.
//!
//! The functions of this file take and give boards as text; the engine
//! itself, on boards as vectors, is in [`sudoku`].

use vstd::pervasive::unreached;
use vstd::prelude::*;
use vstd::string::StringExecFns;
use crate::grid::{
    candidates, grid_of, lemma_candidates_listed, valid_board, well_formed, Grid,
};
use crate::laws::lemma_search_shape;
use crate::puzzle::is_puzzle;
use crate::search::search_outcome;
use crate::text::{
    all_suggestions_text, append_joined_digits, board_from_text, cell_text, cells_text,
    format_board, format_digits, is_board_text, lemma_board_from_text, parse_board,
    solution_text, text_of_board, text_of_digits,
};

pub mod backtrack;
pub mod grid;
pub mod laws;
pub mod progress;
pub mod puzzle;
pub mod random;
pub mod search;
pub mod seeding;
pub mod sudoku;
pub mod text;

verus! {

/// Whether the board that the text stands for is valid.
pub fn validate_sudoku(input: &str) -> (ok: bool)
    requires
        is_board_text(input@),
    ensures
        ok == valid_board(board_from_text(input@)),
{
    let board = parse_board(input);
    sudoku::validate_sudoku(&board)
}

/// Solves the board that the text stands for, by an ascending search, and
/// gives the completed board as text, or a message where the board has no
/// completion.
pub fn solve_sudoku(input: &str) -> (output: String)
    requires
        is_board_text(input@),
    ensures
        exists|f: Grid, found: bool|
            #[trigger] search_outcome(board_from_text(input@), f, false, found) && output@
                == solution_text(f, found),
{
    // convert the board to a vector of vectors 9x9.
    let mut board = parse_board(input);
    let ghost g = grid_of(board@);
    proof {
        lemma_board_from_text(input@);
    }
    let solved = match sudoku::solve_sudoku(&mut board, false) {
        Ok(found) => found,
        Err(_) => unreached(),
    };
    proof {
        lemma_search_shape(g, grid_of(board@), false, solved);
    }
    if solved {
        // convert the board into a string
        let output = format_board(&board);
        assert(search_outcome(g, grid_of(board@), false, true) && output@ == solution_text(
            grid_of(board@),
            true,
        ));
        output
    } else {
        let output = String::from_str("Invalid Puzzle Provided");
        assert(search_outcome(g, grid_of(board@), false, false) && output@ == solution_text(
            grid_of(board@),
            false,
        ));
        output
    }
}

/// A new puzzle as text: the 81 characters of a board that the generator
/// made of random numbers.
pub fn generate_sudoku() -> (output: String)
    ensures
        exists|g: Grid| is_puzzle(g) && output@ == #[trigger] text_of_board(g),
{
    let board = sudoku::generate_sudoku();
    let output = format_board(&board);
    assert(is_puzzle(grid_of(board@)) && output@ == text_of_board(grid_of(board@)));
    output
}

/// The candidates of one cell of the board that the text stands for, as
/// digits with nothing between them.
pub fn generate_suggestions(input: &str, row: usize, col: usize) -> (output: String)
    requires
        is_board_text(input@),
        row < 9,
        col < 9,
    ensures
        output@ == text_of_digits(candidates(board_from_text(input@), row as int, col as int)),
{
    let board = parse_board(input);
    proof {
        lemma_board_from_text(input@);
        lemma_candidates_listed(grid_of(board@), row as int, col as int);
    }
    let suggestions = match sudoku::get_suggestions(&board, row, col) {
        Ok(list) => list,
        Err(_) => unreached(),
    };
    assert forall|i: int| 0 <= i < suggestions@.len() implies 0 <= #[trigger] suggestions@[i]
        <= 9 by {
        assert(suggestions@.contains(suggestions@[i]));
    }
    format_digits(&suggestions)
}

/// The candidates of every cell of the board that the text stands for, as
/// a list of lists: each cell's digits in square brackets with commas
/// between them; a comma after each cell that lies neither in the last row
/// nor in the last column; and square brackets round the whole.
pub fn generate_all_suggestions(input: &str) -> (output: String)
    requires
        is_board_text(input@),
    ensures
        output@ == all_suggestions_text(board_from_text(input@)),
{
    let board = parse_board(input);
    let ghost g = grid_of(board@);
    proof {
        lemma_board_from_text(input@);
        reveal_strlit("[");
        reveal_strlit("]");
        reveal_strlit(",");
    }
    let mut output = String::new();
    output.append("[");
    assert(output@ =~= seq!['['] + cells_text(g, 0));
    let mut i: usize = 0;
    while i < 9
        invariant
            i <= 9,
            g == grid_of(board@),
            well_formed(g),
            "["@ == seq!['['],
            "]"@ == seq![']'],
            ","@ == seq![','],
            output@ == seq!['['] + cells_text(g, i * 9),
        decreases 9 - i,
    {
        let mut j: usize = 0;
        while j < 9
            invariant
                i < 9,
                j <= 9,
                g == grid_of(board@),
                well_formed(g),
                "["@ == seq!['['],
                "]"@ == seq![']'],
                ","@ == seq![','],
                output@ == seq!['['] + cells_text(g, i * 9 + j),
            decreases 9 - j,
        {
            let ghost before = output@;
            let ghost at = i * 9 + j;
            proof {
                lemma_candidates_listed(g, i as int, j as int);
                assert(at / 9 == i && at % 9 == j);
            }
            let suggestions = match sudoku::get_suggestions(&board, i, j) {
                Ok(list) => list,
                Err(_) => Vec::new(),
            };
            assert forall|k: int| 0 <= k < suggestions@.len() implies 0
                <= #[trigger] suggestions@[k] <= 9 by {
                assert(suggestions@.contains(suggestions@[k]));
            }
            // Need to add array designator to the output
            output.append("[");
            append_joined_digits(&mut output, &suggestions);
            output.append("]");
            if i != 8 && j != 8 {
                output.append(",");
            }
            assert(output@ =~= before + cell_text(g, at));
            assert(output@ =~= seq!['['] + cells_text(g, at + 1));
            j += 1;
        }
        i += 1;
    }
    output.append("]");
    output
}

} // verus!
