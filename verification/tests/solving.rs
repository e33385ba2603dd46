use sudoku::{Board, Solutions, SolverOptions};

const CANONICAL: [[u8; 9]; 9] = [
    [5, 3, 4, 6, 7, 8, 9, 1, 2],
    [6, 7, 2, 1, 9, 5, 3, 4, 8],
    [1, 9, 8, 3, 4, 2, 5, 6, 7],
    [8, 5, 9, 7, 6, 1, 4, 2, 3],
    [4, 2, 6, 8, 5, 3, 7, 9, 1],
    [7, 1, 3, 9, 2, 4, 8, 5, 6],
    [9, 6, 1, 5, 3, 7, 2, 8, 4],
    [2, 8, 7, 4, 1, 9, 6, 3, 5],
    [3, 4, 5, 2, 8, 6, 1, 7, 9],
];

fn canonical_board() -> Board {
    let mut values: Vec<u8> = Vec::new();
    for row in CANONICAL.iter() {
        for v in row.iter() {
            values.push(*v);
        }
    }
    Board::from_values(values).expect("9x9 digit grid")
}

#[test]
fn board_generate_default() {
    let board = Board::default()
        .test_solve(SolverOptions::Random)
        .expect("an empty grid always has a completion");
    assert_ne!(board, Board::default());
    assert!(board.check_all());
}

#[test]
fn board_multiple_default() {
    let board = Board::default();
    assert!(matches!(
        board.clone().test_solve(SolverOptions::Exhaustive),
        Err(Solutions::MultipleSolutions)
    ));
    assert_eq!(board, Board::default());
}

#[test]
fn generate_default() {
    let board = Board::default()
        .test_solve(SolverOptions::Random)
        .expect("should succeed");
    assert_ne!(board, Board::default());
    println!("Generated: {:?}", board);
}

#[test]
fn generate_multiple_default() {
    assert!(matches!(
        Board::default().test_solve(SolverOptions::Exhaustive),
        Err(Solutions::MultipleSolutions)
    ));
}

#[test]
fn remove_random_generate_default() {
    let board = Board::default()
        .test_solve(SolverOptions::Random)
        .expect("an empty grid always has a completion");
    assert_ne!(board, Board::default());
}

#[test]
fn remove_random_multiple_default() {
    let board = Board::default();
    assert!(matches!(
        board.clone().test_solve(SolverOptions::Exhaustive),
        Err(Solutions::MultipleSolutions)
    ));
    assert_eq!(board, Board::default());
}

#[test]
fn random_solution_is_full_and_clean() {
    let board = Board::default()
        .test_solve(SolverOptions::Random)
        .expect("an empty grid always has a completion");
    assert!(board.check_all());
    for v in board.to_values() {
        assert!((1..=9).contains(&v));
    }
}

#[test]
fn generator_output_is_solved() {
    let board = Board::test_new();
    assert!(board.check_all());
    for v in board.to_values() {
        assert!((1..=9).contains(&v));
    }
}

#[test]
fn generator_is_reproducible() {
    assert_eq!(Board::test_new(), Board::test_new());
}

#[test]
fn canonical_grid_is_unique_solution_of_its_own_puzzle() {
    // clear cell (0, 0) of the canonical solved grid: the remaining 80 clues
    // force the original digit back
    let mut values = canonical_board().to_values();
    values[0] = 0;
    let puzzle = Board::from_values(values).expect("shape and range are fine");
    let solved = puzzle
        .solve(SolverOptions::Exhaustive)
        .expect("80 clues of a solved grid pin the last cell");
    assert_eq!(solved.value_at(0, 0), 5);
    assert_eq!(solved, canonical_board());
}

#[test]
fn full_valid_grid_solves_to_itself() {
    let board = canonical_board();
    let solved = board
        .clone()
        .solve(SolverOptions::Exhaustive)
        .expect("a solved grid is its own completion");
    assert_eq!(solved, board);
}

#[test]
fn deterministic_solve_is_reproducible() {
    // FirstOnly returns the lexicographically least completion, so two
    // solves of equal grids agree
    let first = Board::default()
        .test_solve(SolverOptions::FirstOnly)
        .expect("an empty grid always has a completion");
    let second = Board::default()
        .test_solve(SolverOptions::FirstOnly)
        .expect("an empty grid always has a completion");
    assert_eq!(first, second);
}

#[test]
fn contradictory_grid_has_no_solution() {
    // row 0 leaves only digit 9 for cell (0, 8), but column 8 already has a 9
    let mut values = vec![0u8; 81];
    for c in 0..8u8 {
        values[c as usize] = c + 1;
    }
    values[1 * 9 + 8] = 9;
    let board = Board::from_values(values).expect("shape and range are fine");
    assert!(matches!(
        board.solve(SolverOptions::Exhaustive),
        Err(Solutions::NoSolution)
    ));
}

#[test]
fn duplicate_grid_reports_no_solution() {
    let mut values = vec![0u8; 81];
    values[0] = 7;
    values[5] = 7;
    let board = Board::from_values(values).expect("shape and range are fine");
    assert!(!board.check_all());
    assert!(matches!(
        board.solve(SolverOptions::FirstOnly),
        Err(Solutions::NoSolution)
    ));
}
