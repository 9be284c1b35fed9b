use sudoku_engine::sudoku;
use sudoku_engine::text::{format_board, format_digits, parse_board};
use sudoku_engine::{
    generate_all_suggestions, generate_sudoku, generate_suggestions, solve_sudoku,
    validate_sudoku,
};

#[test]
fn wasm_can_validate_sudoku() {
    let input =
        "071009045596800001040051986389006400004000097012493650168020073437065020900300004";
    assert_eq!(validate_sudoku(input), true);
    let input =
        "771009045596800001040051986389006400004000097012493650168020073437065020900300004";
    assert_eq!(validate_sudoku(input), false);
}

#[test]
fn wasm_can_solve_sudoku() {
    let input =
        "780400120600075009000601078007040260001050930904060005070300012120007400049206007";
    let solution =
        "785439126612875349493621578857943261261758934934162785578394612126587493349216857";
    assert_eq!(solve_sudoku(input), solution);
    let input =
        "771009045596800001040051986389006400004000097012493650168020073437065020900300004";
    assert_eq!(solve_sudoku(input), "Invalid Puzzle Provided");
}

#[test]
fn wasm_can_generate_sudoku() {
    let mut test_count = 0;
    while test_count < 100 {
        let board = generate_sudoku();
        assert_eq!(board.len(), 81, "Incorrect Board length Generated");
        assert_eq!(validate_sudoku(&board), true, "Board is not valid");
        let mut rust_board: Vec<Vec<i8>> = vec![vec![0; 9]; 9];
        for (i, c) in board.chars().enumerate() {
            rust_board[i / 9][i % 9] = c.to_digit(10).unwrap() as i8;
        }
        assert_eq!(
            sudoku::solve_sudoku(&mut rust_board.clone(), false),
            sudoku::solve_sudoku(&mut rust_board, true),
            "Solutions do not match"
        );
        test_count += 1;
    }
}

#[test]
fn wasm_can_generate_suggestions() {
    let input =
        "071009045596800001040051986389006400004000097012493650168020073437065020900300004";
    let suggestions = generate_suggestions(input, 0, 0);
    assert_eq!(suggestions, "28");
    let suggestions = generate_suggestions(input, 1, 3);
    assert_eq!(suggestions, "278");
}

#[test]
fn wasm_can_generate_all_suggestions() {
    let input =
        "071009045596800001040051986389006400004000097012493650168020073437065020900300004";
    let suggestions = generate_all_suggestions(input);
    assert_eq!(suggestions, "[[2,8],[2,7],[1,3],[2,6],[3],[2,9],[2,3],[3,4],[2,5][2,5],[2,9],[3,6],[2,7,8],[3,4,7],[2,4,7],[2,3,7],[3],[1,2][2],[2,4],[3],[2,7],[3,5,7],[1,2,7],[2,3,7,9],[3,8],[2,6][3,7],[5,8],[5,9],[1,2,5,7],[1,7],[2,6,7],[1,2,4],[1],[2][6],[5],[4,5],[1,2,5],[1,8],[2,8],[1,2,3,8],[1,3,9],[2,7,8][7],[1],[2],[4,7],[7,8,9],[3,7,8],[6,8],[5],[8][1],[5,6],[5,8],[9],[2,4],[4],[5],[7],[3,9][4],[3],[7],[1,9],[1,6,8],[5,8],[1,8],[1,2],[8,9][2,9][2,5][5][1,3,7][1,7,8][7,8][1,5,8][1,6][4,8]]");
}

#[test]
fn parses_text_row_by_row() {
    let input =
        "780400120600075009000601078007040260001050930904060005070300012120007400049206007";
    let board = parse_board(input);
    assert_eq!(board.len(), 9);
    assert_eq!(board[0], vec![7, 8, 0, 4, 0, 0, 1, 2, 0]);
    assert_eq!(board[1], vec![6, 0, 0, 0, 7, 5, 0, 0, 9]);
    assert_eq!(board[8], vec![0, 4, 9, 2, 0, 6, 0, 0, 7]);
}

#[test]
fn short_text_leaves_the_rest_empty() {
    let board = parse_board("1234567891");
    assert_eq!(board[0], vec![1, 2, 3, 4, 5, 6, 7, 8, 9]);
    assert_eq!(board[1], vec![1, 0, 0, 0, 0, 0, 0, 0, 0]);
    for r in 2..9 {
        assert_eq!(board[r], vec![0; 9]);
    }
    assert_eq!(parse_board(""), vec![vec![0i8; 9]; 9]);
}

#[test]
fn formats_what_it_parsed() {
    let input =
        "780400120600075009000601078007040260001050930904060005070300012120007400049206007";
    assert_eq!(format_board(&parse_board(input)), input);
}

#[test]
fn formats_digits_without_separator() {
    assert_eq!(format_digits(&vec![1, 5, 9]), "159");
    assert_eq!(format_digits(&Vec::new()), "");
}

#[test]
fn cell_without_candidates_gives_empty_text() {
    // Row 0 holds 1 to 8 beside (0, 0), and column 0 holds the 9.
    let input = "012345678900000000";
    assert_eq!(generate_suggestions(input, 0, 0), "");
    assert!(generate_all_suggestions(input).starts_with("[[],"));
}

#[test]
fn solving_text_of_an_empty_board() {
    let solved = solve_sudoku("");
    assert_eq!(solved.len(), 81);
    assert!(solved.starts_with("123456789456789123789123456"));
    assert!(validate_sudoku(&solved));
}
