use sudoku_engine::grid::SudokuError;
use sudoku_engine::random::Draws;
use sudoku_engine::sudoku::{
    dig_once, generate_from, generate_sudoku, get_all_suggestions, get_suggestions, is_valid,
    solve_iteratively, solve_sudoku, take_value, validate_sudoku,
};

const FIXTURE: [[i8; 9]; 9] = [
    [7, 8, 0, 4, 0, 0, 1, 2, 0],
    [6, 0, 0, 0, 7, 5, 0, 0, 9],
    [0, 0, 0, 6, 0, 1, 0, 7, 8],
    [0, 0, 7, 0, 4, 0, 2, 6, 0],
    [0, 0, 1, 0, 5, 0, 9, 3, 0],
    [9, 0, 4, 0, 6, 0, 0, 0, 5],
    [0, 7, 0, 3, 0, 0, 0, 1, 2],
    [1, 2, 0, 0, 0, 7, 4, 0, 0],
    [0, 4, 9, 2, 0, 6, 0, 0, 7],
];

const FIXTURE_SOLVED: [[i8; 9]; 9] = [
    [7, 8, 5, 4, 3, 9, 1, 2, 6],
    [6, 1, 2, 8, 7, 5, 3, 4, 9],
    [4, 9, 3, 6, 2, 1, 5, 7, 8],
    [8, 5, 7, 9, 4, 3, 2, 6, 1],
    [2, 6, 1, 7, 5, 8, 9, 3, 4],
    [9, 3, 4, 1, 6, 2, 7, 8, 5],
    [5, 7, 8, 3, 9, 4, 6, 1, 2],
    [1, 2, 6, 5, 8, 7, 4, 9, 3],
    [3, 4, 9, 2, 1, 6, 8, 5, 7],
];

fn board_of(cells: &[[i8; 9]; 9]) -> Vec<Vec<i8>> {
    cells.iter().map(|row| row.to_vec()).collect()
}

fn count_clues(board: &Vec<Vec<i8>>) -> usize {
    board.iter().map(|row| row.iter().filter(|&&v| v != 0).count()).sum()
}

#[test]
fn correctly_validates_board() {
    // create a sudoku puzzle
    let input = [
        [7, 8, 0, 4, 0, 0, 1, 2, 0],
        [6, 0, 0, 0, 7, 5, 0, 0, 9],
        [0, 0, 0, 6, 0, 1, 0, 7, 8],
        [0, 0, 7, 0, 4, 0, 2, 6, 0],
        [0, 0, 1, 0, 5, 0, 9, 3, 0],
        [9, 0, 4, 0, 6, 0, 0, 0, 5],
        [0, 7, 0, 3, 0, 0, 0, 1, 2],
        [1, 2, 0, 0, 0, 7, 4, 0, 0],
        [0, 4, 9, 2, 0, 6, 0, 0, 7],
    ];
    // convert the input into a Vec<Vec<i8>>
    let mut board = vec![vec![0; 9]; 9];
    for i in 0..9 {
        for j in 0..9 {
            board[i][j] = input[i][j];
        }
    }

    assert_eq!(validate_sudoku(&board), true, "Validation method failed.");
}

#[test]
fn correctly_solves_sudoku() {
    // create a sudoku puzzle
    let input = [
        [7, 8, 0, 4, 0, 0, 1, 2, 0],
        [6, 0, 0, 0, 7, 5, 0, 0, 9],
        [0, 0, 0, 6, 0, 1, 0, 7, 8],
        [0, 0, 7, 0, 4, 0, 2, 6, 0],
        [0, 0, 1, 0, 5, 0, 9, 3, 0],
        [9, 0, 4, 0, 6, 0, 0, 0, 5],
        [0, 7, 0, 3, 0, 0, 0, 1, 2],
        [1, 2, 0, 0, 0, 7, 4, 0, 0],
        [0, 4, 9, 2, 0, 6, 0, 0, 7],
    ];
    // convert the input into a Vec<Vec<i8>>
    let mut board = vec![vec![0; 9]; 9];
    for i in 0..9 {
        for j in 0..9 {
            board[i][j] = input[i][j];
        }
    }
    // solve the sudoku puzzle
    let _ = solve_sudoku(&mut board, true);
    // Convert the result back into a 2D array
    let mut output: [[i8; 9]; 9] = [[0; 9]; 9];
    for i in 0..9 {
        for j in 0..9 {
            output[i][j] = board[i][j];
        }
    }

    let solution = [
        [7, 8, 5, 4, 3, 9, 1, 2, 6],
        [6, 1, 2, 8, 7, 5, 3, 4, 9],
        [4, 9, 3, 6, 2, 1, 5, 7, 8],
        [8, 5, 7, 9, 4, 3, 2, 6, 1],
        [2, 6, 1, 7, 5, 8, 9, 3, 4],
        [9, 3, 4, 1, 6, 2, 7, 8, 5],
        [5, 7, 8, 3, 9, 4, 6, 1, 2],
        [1, 2, 6, 5, 8, 7, 4, 9, 3],
        [3, 4, 9, 2, 1, 6, 8, 5, 7],
    ];

    assert_eq!(solution, output);
}

#[test]
fn correctly_solves_sudoku_in_reverse() {
    // create a sudoku puzzle
    let input = [
        [7, 8, 0, 4, 0, 0, 1, 2, 0],
        [6, 0, 0, 0, 7, 5, 0, 0, 9],
        [0, 0, 0, 6, 0, 1, 0, 7, 8],
        [0, 0, 7, 0, 4, 0, 2, 6, 0],
        [0, 0, 1, 0, 5, 0, 9, 3, 0],
        [9, 0, 4, 0, 6, 0, 0, 0, 5],
        [0, 7, 0, 3, 0, 0, 0, 1, 2],
        [1, 2, 0, 0, 0, 7, 4, 0, 0],
        [0, 4, 9, 2, 0, 6, 0, 0, 7],
    ];
    // convert the input into a Vec<Vec<i8>>
    let mut board = vec![vec![0; 9]; 9];
    for i in 0..9 {
        for j in 0..9 {
            board[i][j] = input[i][j];
        }
    }
    // solve the sudoku puzzle
    solve_iteratively(&mut board, true);
    // Convert the result back into a 2D array
    let mut output: [[i8; 9]; 9] = [[0; 9]; 9];
    for i in 0..9 {
        for j in 0..9 {
            output[i][j] = board[i][j];
        }
    }

    let solution = [
        [7, 8, 5, 4, 3, 9, 1, 2, 6],
        [6, 1, 2, 8, 7, 5, 3, 4, 9],
        [4, 9, 3, 6, 2, 1, 5, 7, 8],
        [8, 5, 7, 9, 4, 3, 2, 6, 1],
        [2, 6, 1, 7, 5, 8, 9, 3, 4],
        [9, 3, 4, 1, 6, 2, 7, 8, 5],
        [5, 7, 8, 3, 9, 4, 6, 1, 2],
        [1, 2, 6, 5, 8, 7, 4, 9, 3],
        [3, 4, 9, 2, 1, 6, 8, 5, 7],
    ];

    assert_eq!(solution, output);
}

#[test]
fn correctly_generates_sudoku() {
    let mut board = generate_sudoku();
    let _ = solve_sudoku(&mut board, false);
    let mut output: [[i8; 9]; 9] = [[0; 9]; 9];
    for i in 0..9 {
        for j in 0..9 {
            output[i][j] = board[i][j];
        }
    }

    assert_eq!(
        validate_sudoku(&board),
        true,
        "Sudoku board is not valid \n {}",
        board
            .into_iter()
            .map(|row| row
                .into_iter()
                .map(|col| col.to_string())
                .collect::<Vec<String>>()
                .join(","))
            .collect::<Vec<String>>()
            .join("\n")
    );
}

#[test]
fn correctly_generates_suggestions() {
    // create a sudoku puzzle
    let input = [
        [7, 8, 0, 4, 0, 0, 1, 2, 0],
        [6, 0, 0, 0, 7, 5, 0, 0, 9],
        [0, 0, 0, 6, 0, 1, 0, 7, 8],
        [0, 0, 7, 0, 4, 0, 2, 6, 0],
        [0, 0, 1, 0, 5, 0, 9, 3, 0],
        [9, 0, 4, 0, 6, 0, 0, 0, 5],
        [0, 7, 0, 3, 0, 0, 0, 1, 2],
        [1, 2, 0, 0, 0, 7, 4, 0, 0],
        [0, 4, 9, 2, 0, 6, 0, 0, 7],
    ];
    // convert the input into a Vec<Vec<i8>>
    let mut board = vec![vec![0; 9]; 9];
    for i in 0..9 {
        for j in 0..9 {
            board[i][j] = input[i][j];
        }
    }
    assert_eq!(get_suggestions(&board, 0, 2).unwrap(), vec![3, 5]);
    assert_eq!(get_suggestions(&board, 0, 5).unwrap(), vec![3, 9]);
    assert_eq!(get_suggestions(&board, 8, 7).unwrap(), vec![5, 8]);
}

#[test]
fn is_valid_ignores_the_cell_itself() {
    let board = board_of(&FIXTURE);
    // (0, 0) holds 7: the value in place is not a conflict with itself.
    assert!(is_valid(&board, 0, 0, 7));
    // 8 stands in the same row.
    assert!(!is_valid(&board, 0, 0, 8));
    // 6 stands in the same column.
    assert!(!is_valid(&board, 0, 0, 6));
    // 5 stands nowhere in row 0, column 2 or the first box.
    assert!(is_valid(&board, 0, 2, 5));
    // 9 stands in the same column as (0, 2).
    assert!(!is_valid(&board, 0, 2, 9));
}

#[test]
fn is_valid_sees_the_box() {
    let mut board = vec![vec![0i8; 9]; 9];
    board[4][4] = 5;
    // Same box, other row and other column.
    assert!(!is_valid(&board, 3, 3, 5));
    assert!(!is_valid(&board, 5, 3, 5));
    // Next box over, other row and column.
    assert!(is_valid(&board, 3, 6, 5));
    assert!(is_valid(&board, 2, 2, 5));
}

#[test]
fn solved_board_validates() {
    assert!(validate_sudoku(&board_of(&FIXTURE_SOLVED)));
}

#[test]
fn empty_board_validates() {
    assert!(validate_sudoku(&vec![vec![0i8; 9]; 9]));
}

#[test]
fn duplicate_in_row_fails_validation() {
    let mut board = board_of(&FIXTURE);
    board[0][2] = 7;
    assert!(!validate_sudoku(&board));
}

#[test]
fn duplicate_in_column_fails_validation() {
    let mut board = board_of(&FIXTURE);
    board[2][0] = 7;
    assert!(!validate_sudoku(&board));
}

#[test]
fn duplicate_in_box_fails_validation() {
    let mut board = board_of(&FIXTURE);
    // (1, 1) shares only the box with the 7 at (0, 0).
    board[1][1] = 7;
    assert!(!validate_sudoku(&board));
}

#[test]
fn duplicate_in_solved_board_fails_validation() {
    let mut board = board_of(&FIXTURE_SOLVED);
    board[8][8] = board[8][0];
    assert!(!validate_sudoku(&board));
}

#[test]
fn malformed_boards_fail_validation() {
    assert!(!validate_sudoku(&Vec::new()));
    assert!(!validate_sudoku(&vec![vec![0i8; 9]; 8]));
    assert!(!validate_sudoku(&vec![vec![0i8; 9]; 10]));
    let mut ragged = vec![vec![0i8; 9]; 9];
    ragged[4].pop();
    assert!(!validate_sudoku(&ragged));
    let mut wide = vec![vec![0i8; 9]; 9];
    wide[8].push(0);
    assert!(!validate_sudoku(&wide));
    let mut high = vec![vec![0i8; 9]; 9];
    high[3][3] = 10;
    assert!(!validate_sudoku(&high));
    let mut low = vec![vec![0i8; 9]; 9];
    low[3][3] = -1;
    assert!(!validate_sudoku(&low));
}

#[test]
fn validation_is_repeatable() {
    let board = board_of(&FIXTURE);
    assert_eq!(validate_sudoku(&board), validate_sudoku(&board));
    let mut bad = board_of(&FIXTURE);
    bad[0][2] = 7;
    assert_eq!(validate_sudoku(&bad), validate_sudoku(&bad));
    assert_eq!(bad[0][2], 7);
}

#[test]
fn suggestions_are_ascending() {
    let board = vec![vec![0i8; 9]; 9];
    assert_eq!(get_suggestions(&board, 4, 4).unwrap(), vec![1, 2, 3, 4, 5, 6, 7, 8, 9]);
}

#[test]
fn suggestions_may_be_empty() {
    let mut board = vec![vec![0i8; 9]; 9];
    for c in 1..9 {
        board[0][c] = c as i8;
    }
    board[1][0] = 9;
    assert_eq!(get_suggestions(&board, 0, 0).unwrap(), Vec::<i8>::new());
}

#[test]
fn suggestions_do_not_consult_the_cell() {
    let board = board_of(&FIXTURE);
    // (0, 0) holds 7, and 7 is still a candidate for it.
    assert_eq!(get_suggestions(&board, 0, 0).unwrap(), vec![3, 5, 7]);
    assert_eq!(board, board_of(&FIXTURE));
}

#[test]
fn suggestions_decide_validation() {
    let board = board_of(&FIXTURE);
    let list = get_suggestions(&board, 0, 2).unwrap();
    for v in 1..=9i8 {
        let mut placed = board.clone();
        placed[0][2] = v;
        assert_eq!(validate_sudoku(&placed), list.contains(&v));
    }
}

#[test]
fn suggestions_refuse_malformed_board() {
    assert_eq!(get_suggestions(&Vec::new(), 0, 0), Err(SudokuError::MalformedGrid));
    let mut board = board_of(&FIXTURE);
    board[5][5] = 12;
    assert_eq!(get_suggestions(&board, 0, 2), Err(SudokuError::MalformedGrid));
    board[5][5] = 0;
    board[5].truncate(8);
    assert_eq!(get_suggestions(&board, 0, 2), Err(SudokuError::MalformedGrid));
}

#[test]
fn solves_fixture_forward() {
    let mut board = board_of(&FIXTURE);
    assert_eq!(solve_sudoku(&mut board, false), Ok(true));
    assert_eq!(board, board_of(&FIXTURE_SOLVED));
}

#[test]
fn solves_fixture_backward() {
    let mut board = board_of(&FIXTURE);
    assert_eq!(solve_sudoku(&mut board, true), Ok(true));
    assert_eq!(board, board_of(&FIXTURE_SOLVED));
}

#[test]
fn solved_board_is_left_alone() {
    let mut board = board_of(&FIXTURE_SOLVED);
    assert_eq!(solve_sudoku(&mut board, false), Ok(true));
    assert_eq!(board, board_of(&FIXTURE_SOLVED));
}

#[test]
fn empty_board_forward_is_least_completion() {
    let mut board = vec![vec![0i8; 9]; 9];
    assert_eq!(solve_sudoku(&mut board, false), Ok(true));
    assert_eq!(board[0], vec![1, 2, 3, 4, 5, 6, 7, 8, 9]);
    assert_eq!(board[1], vec![4, 5, 6, 7, 8, 9, 1, 2, 3]);
    assert_eq!(board[2], vec![7, 8, 9, 1, 2, 3, 4, 5, 6]);
    assert!(validate_sudoku(&board));
    assert_eq!(count_clues(&board), 81);
}

#[test]
fn empty_board_backward_is_greatest_completion() {
    let mut board = vec![vec![0i8; 9]; 9];
    assert_eq!(solve_sudoku(&mut board, true), Ok(true));
    assert_eq!(board[0], vec![9, 8, 7, 6, 5, 4, 3, 2, 1]);
    assert_eq!(board[1], vec![6, 5, 4, 3, 2, 1, 9, 8, 7]);
    assert_eq!(board[2], vec![3, 2, 1, 9, 8, 7, 6, 5, 4]);
    assert!(validate_sudoku(&board));
    assert_eq!(count_clues(&board), 81);
}

#[test]
fn directions_differ_on_ambiguous_board() {
    // The empty board has many completions: the two directions part.
    let mut board = board_of(&FIXTURE_SOLVED);
    let mut up = vec![vec![0i8; 9]; 9];
    let mut down = vec![vec![0i8; 9]; 9];
    assert_eq!(solve_sudoku(&mut up, false), Ok(true));
    assert_eq!(solve_sudoku(&mut down, true), Ok(true));
    assert_ne!(up, down);
    // One clue short of solved there is one completion: they agree.
    board[4][4] = 0;
    let mut up = board.clone();
    let mut down = board.clone();
    assert_eq!(solve_sudoku(&mut up, false), Ok(true));
    assert_eq!(solve_sudoku(&mut down, true), Ok(true));
    assert_eq!(up, down);
    assert_eq!(up, board_of(&FIXTURE_SOLVED));
}

#[test]
fn unsolvable_board_stalls_at_first_empty_cell() {
    // Row 0 lacks only a 9, and column 0 already holds a 9: nothing fits
    // (0, 0).
    let mut board = vec![vec![0i8; 9]; 9];
    for c in 1..9 {
        board[0][c] = c as i8;
    }
    board[1][0] = 9;
    let before = board.clone();
    assert_eq!(solve_sudoku(&mut board, false), Ok(false));
    assert_eq!(board, before);
    assert_eq!(solve_sudoku(&mut board, true), Ok(false));
    assert_eq!(board, before);
}

#[test]
fn unsolvable_board_keeps_last_value_tried() {
    // (0, 0) takes 1 or 2 as far as its peers go, but (0, 1) then has no
    // digit left: 3..=9 stand in its row, 1 and 2 in its column.
    let mut board = vec![vec![0i8; 9]; 9];
    for c in 2..9 {
        board[0][c] = c as i8 + 1;
    }
    board[3][1] = 1;
    board[4][1] = 2;
    let mut up = board.clone();
    assert_eq!(solve_sudoku(&mut up, false), Ok(false));
    let mut expected = board.clone();
    expected[0][0] = 2;
    assert_eq!(up, expected);
    let mut down = board.clone();
    assert_eq!(solve_sudoku(&mut down, true), Ok(false));
    expected[0][0] = 1;
    assert_eq!(down, expected);
}

#[test]
fn solver_refuses_malformed_board() {
    let mut short = vec![vec![0i8; 9]; 8];
    assert_eq!(solve_sudoku(&mut short, false), Err(SudokuError::MalformedGrid));
    assert_eq!(short, vec![vec![0i8; 9]; 8]);
    let mut high = vec![vec![0i8; 9]; 9];
    high[0][0] = 10;
    let before = high.clone();
    assert_eq!(solve_sudoku(&mut high, true), Err(SudokuError::MalformedGrid));
    assert_eq!(high, before);
}

#[test]
fn take_value_draws_without_replacement() {
    let mut values: Vec<i8> = vec![1, 2, 3, 4, 5, 6, 7, 8, 9];
    assert_eq!(take_value(&mut values, 13), 5);
    assert_eq!(values, vec![1, 2, 3, 4, 6, 7, 8, 9]);
    assert_eq!(take_value(&mut values, 8), 1);
    assert_eq!(values, vec![2, 3, 4, 6, 7, 8, 9]);
    assert_eq!(take_value(&mut values, 6), 9);
    assert_eq!(values, vec![2, 3, 4, 6, 7, 8]);
}

#[test]
fn dig_passes_over_empty_cell() {
    let mut board = board_of(&FIXTURE);
    // Index 2 is (0, 2), which is empty.
    assert_eq!(dig_once(&mut board, 2), None);
    assert_eq!(board, board_of(&FIXTURE));
    // The draw is taken modulo 81.
    assert_eq!(dig_once(&mut board, 81 + 2), None);
    assert_eq!(board, board_of(&FIXTURE));
}

#[test]
fn dig_removes_clue_that_is_not_needed() {
    let mut board = board_of(&FIXTURE_SOLVED);
    // Index 40 is (4, 4).
    assert_eq!(dig_once(&mut board, 40), None);
    let mut expected = board_of(&FIXTURE_SOLVED);
    expected[4][4] = 0;
    assert_eq!(board, expected);
}

#[test]
fn dig_stops_at_clue_that_is_needed() {
    // A lone clue: without it the two searches part at the first cell.
    let mut board = vec![vec![0i8; 9]; 9];
    board[0][0] = 5;
    let before = board.clone();
    assert_eq!(dig_once(&mut board, 0), Some(before));
    assert_eq!(board, vec![vec![0i8; 9]; 9]);
}

fn searches_part(board: &Vec<Vec<i8>>) -> bool {
    let mut up = board.clone();
    let mut down = board.clone();
    let found_up = solve_sudoku(&mut up, false);
    let found_down = solve_sudoku(&mut down, true);
    assert_eq!(found_up, found_down);
    up != down
}

fn some_clue_is_needed(board: &Vec<Vec<i8>>) -> bool {
    for r in 0..9 {
        for c in 0..9 {
            if board[r][c] != 0 {
                let mut cleared = board.clone();
                cleared[r][c] = 0;
                if searches_part(&cleared) {
                    return true;
                }
            }
        }
    }
    false
}

#[test]
fn generated_puzzle_is_valid_and_unique() {
    for _ in 0..3 {
        let board = generate_sudoku();
        assert_eq!(board.len(), 9);
        assert!(board.iter().all(|row| row.len() == 9));
        assert!(validate_sudoku(&board));
        let mut up = board.clone();
        let mut down = board.clone();
        assert_eq!(solve_sudoku(&mut up, false), Ok(true));
        assert_eq!(solve_sudoku(&mut down, true), Ok(true));
        assert_eq!(up, down);
        assert!(validate_sudoku(&up));
        assert_eq!(count_clues(&up), 81);
        for r in 0..9 {
            for c in 0..9 {
                assert!(board[r][c] == 0 || board[r][c] == up[r][c]);
            }
        }
    }
}

#[test]
fn generated_puzzle_has_a_clue_that_is_needed() {
    for _ in 0..3 {
        let board = generate_sudoku();
        assert!(count_clues(&board) < 81);
        assert!(!searches_part(&board));
        assert!(some_clue_is_needed(&board));
    }
}

#[test]
fn puzzle_of_given_draws_has_a_clue_that_is_needed() {
    let mut list: Vec<usize> = (0..17).map(|k| 7 * k + 3).collect();
    list.extend((0..400).map(|k| (37 * k + 11) % 1000));
    let mut draws = Draws::seeded(list.clone());
    let board = generate_from(&mut draws);
    assert!(!searches_part(&board));
    // The draw that ended clue removal names such a clue: with these
    // numbers clue removal ends at the 46th of them.
    let last = list[45] % 81;
    assert_ne!(board[last / 9][last % 9], 0);
    let mut cleared = board.clone();
    cleared[last / 9][last % 9] = 0;
    assert!(searches_part(&cleared));
    // The numbers after it are still there to be drawn.
    assert_eq!(draws.next(), list[46]);
}

#[test]
fn full_board_has_no_clue_that_is_needed() {
    assert!(!some_clue_is_needed(&board_of(&FIXTURE_SOLVED)));
}

#[test]
fn generated_puzzles_vary() {
    // The wrapper hands on what the generator drew: a source that gave the
    // same number every time would give the same puzzle every time.
    let first = generate_sudoku();
    let mut differs = false;
    for _ in 0..5 {
        if generate_sudoku() != first {
            differs = true;
        }
    }
    assert!(differs);
}

fn board_of_text(text: &str) -> Vec<Vec<i8>> {
    let digits: Vec<i8> = text.chars().map(|c| c.to_digit(10).unwrap() as i8).collect();
    digits.chunks(9).map(|row| row.to_vec()).collect()
}

#[test]
fn given_draws_come_first_and_in_order() {
    let mut draws = Draws::seeded(vec![5, 3, 8]);
    assert_eq!(draws.next(), 5);
    assert_eq!(draws.next(), 3);
    assert_eq!(draws.next(), 8);
}

#[test]
fn given_draws_determine_the_puzzle() {
    let mut list: Vec<usize> = (0..17).map(|k| 7 * k + 3).collect();
    list.extend((0..400).map(|k| (37 * k + 11) % 1000));
    let mut draws = Draws::seeded(list);
    let board = generate_from(&mut draws);
    assert_eq!(
        board,
        board_of_text(
            "406108070100602053850903641080764302043820705021030406978010524205097130304285060"
        )
    );
    let mut solved = board.clone();
    assert_eq!(solve_sudoku(&mut solved, false), Ok(true));
    assert_eq!(
        solved,
        board_of_text(
            "436158279197642853852973641589764312643821795721539486978316524265497138314285967"
        )
    );
}

#[test]
fn digging_in_scan_order_empties_the_top() {
    let mut list: Vec<usize> = (0..17).collect();
    list.extend(0..300);
    let mut draws = Draws::seeded(list);
    let board = generate_from(&mut draws);
    assert_eq!(
        board,
        board_of_text(
            "000000000000000431264831975987563142526418793413927658872346519649185327351279864"
        )
    );
}

#[test]
fn puzzle_is_valid_when_given_draws_run_out() {
    let mut draws = Draws::seeded(vec![4, 4, 4]);
    let board = generate_from(&mut draws);
    assert!(validate_sudoku(&board));
    let mut up = board.clone();
    let mut down = board.clone();
    assert_eq!(solve_sudoku(&mut up, false), Ok(true));
    assert_eq!(solve_sudoku(&mut down, true), Ok(true));
    assert_eq!(up, down);
    // The first three cells were seeded by the given draws: each takes the
    // fifth of the digits then left.
    assert_eq!(up[0][0], 5);
    assert_eq!(up[0][1], 6);
    assert_eq!(up[0][2], 7);
}

#[test]
fn all_suggestions_cover_the_board_row_by_row() {
    let board = board_of(&FIXTURE);
    let all = get_all_suggestions(&board).unwrap();
    assert_eq!(all.len(), 9);
    for r in 0..9 {
        assert_eq!(all[r].len(), 9);
        for c in 0..9 {
            assert_eq!(all[r][c], get_suggestions(&board, r, c).unwrap());
        }
    }
    assert_eq!(all[0][2], vec![3, 5]);
    assert_eq!(all[8][7], vec![5, 8]);
}

#[test]
fn all_suggestions_hold_empty_lists() {
    let mut board = vec![vec![0i8; 9]; 9];
    for c in 1..9 {
        board[0][c] = c as i8;
    }
    board[1][0] = 9;
    let all = get_all_suggestions(&board).unwrap();
    assert_eq!(all[0][0], Vec::<i8>::new());
    assert_eq!(all[8][8], vec![1, 2, 3, 4, 5, 6, 7, 9]);
}

#[test]
fn all_suggestions_refuse_malformed_board() {
    assert_eq!(get_all_suggestions(&vec![vec![0i8; 9]; 3]), Err(SudokuError::MalformedGrid));
}

#[test]
fn solver_places_nothing_on_a_full_board() {
    // A full board with a repeated clue: there is nothing to place, and the
    // search does not judge clues.
    let mut board = board_of(&FIXTURE_SOLVED);
    board[0][0] = board[0][1];
    let before = board.clone();
    assert!(!validate_sudoku(&board));
    assert_eq!(solve_sudoku(&mut board, false), Ok(true));
    assert_eq!(board, before);
}
