use sudoku::{generate_board, get_possible_values, solve_value, Board, BoardError, SolverOptions};

#[test]
fn possible_values_on_empty_grid() {
    let board = Board::from_values(vec![0u8; 81]).expect("shape and range are fine");
    let values = get_possible_values(board, 0, 0).expect("coordinates are in range");
    assert_eq!(values, vec![1, 2, 3, 4, 5, 6, 7, 8, 9]);
}

#[test]
fn possible_values_with_eight_digits_in_the_row() {
    let mut values = vec![0u8; 81];
    for c in 0..8u8 {
        values[c as usize] = c + 1;
    }
    let board = Board::from_values(values).expect("shape and range are fine");
    let remaining = get_possible_values(board, 0, 8).expect("coordinates are in range");
    assert_eq!(remaining, vec![9]);
}

#[test]
fn possible_values_out_of_bounds() {
    let board = Board::from_values(vec![0u8; 81]).expect("shape and range are fine");
    assert!(matches!(
        get_possible_values(board, 0, 9),
        Err(BoardError::OutOfBounds(0, 9))
    ));
}

#[test]
fn get_all_remaining_crosses_all_three_lines() {
    // clues in the row, the column and the box of cell (4, 4)
    let mut values = vec![0u8; 81];
    values[4 * 9 + 0] = 1;
    values[0 * 9 + 4] = 2;
    values[3 * 9 + 3] = 3;
    let board = Board::from_values(values).expect("shape and range are fine");
    assert_eq!(board.get_all_remaining(4, 4), vec![4, 5, 6, 7, 8, 9]);
}

#[test]
fn solve_value_out_of_bounds() {
    let board = Board::from_values(vec![0u8; 81]).expect("shape and range are fine");
    assert!(matches!(
        solve_value(board, 9, 0),
        Err(BoardError::OutOfBounds(9, 0))
    ));
}

#[test]
fn solve_value_on_empty_grid() {
    let board = Board::from_values(vec![0u8; 81]).expect("shape and range are fine");
    let digit = solve_value(board, 4, 7).expect("an empty grid always has a completion");
    assert!((1..=9).contains(&digit));
}

#[test]
fn solve_value_reports_unsolvable_grids() {
    // row 0 leaves only digit 9 for cell (0, 8), but column 8 already has a 9
    let mut values = vec![0u8; 81];
    for c in 0..8u8 {
        values[c as usize] = c + 1;
    }
    values[1 * 9 + 8] = 9;
    let board = Board::from_values(values).expect("shape and range are fine");
    assert!(matches!(
        solve_value(board, 0, 0),
        Err(BoardError::NoSolution)
    ));
}

#[test]
fn solve_value_keeps_existing_clues() {
    let mut values = vec![0u8; 81];
    values[2 * 9 + 6] = 4;
    let board = Board::from_values(values).expect("shape and range are fine");
    let digit = solve_value(board, 2, 6).expect("one clue never blocks a completion");
    assert_eq!(digit, 4);
}

#[test]
fn generated_board_is_a_clean_solvable_puzzle() {
    let puzzle = generate_board();
    assert!(puzzle.check_all());
    // the reducer always clears at least one cell of a solved grid
    assert!(puzzle.to_values().iter().any(|v| *v == 0));
    assert!(puzzle
        .solve(SolverOptions::FirstOnly)
        .expect("the generated puzzle has a completion")
        .check_all());
}
