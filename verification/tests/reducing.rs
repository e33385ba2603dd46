use sudoku::{Board, BoardRng, SolverOptions};

#[test]
fn board_remove_one() {
    let mut board = Board::default()
        .test_solve(SolverOptions::Random)
        .expect("an empty grid always has a completion");
    let original = board.clone();
    let mut rng = BoardRng::seeded(1);
    assert_eq!(board.remove_random(&mut rng, 1), 1);
    assert_ne!(board, original);
    let solved = board
        .solve(SolverOptions::Exhaustive)
        .expect("the reducer keeps the puzzle uniquely solvable");
    assert_eq!(solved, original);
}

#[test]
fn board_remove_all() {
    let mut board = Board::default()
        .test_solve(SolverOptions::Random)
        .expect("an empty grid always has a completion");
    let mut removed = 0u32;
    let mut rng = BoardRng::seeded(2);
    loop {
        let previous = board.clone();
        if board.remove_random(&mut rng, 1) == 0 {
            break;
        }
        assert_ne!(board, previous);
        removed += 1;
    }
    assert!(removed > 1);
    println!("After removing: {} Board: {:?}", removed, board);
    let solved = board
        .solve(SolverOptions::FirstOnly)
        .expect("the reduced puzzle still has its solution");
    println!("Solution: {:?}", solved);
}

#[test]
fn remove_one() {
    let mut board = Board::test_new();
    let original = board.clone();
    assert_eq!(board.test_remove_values(1), 1);
    assert_ne!(board, original);
    println!("After removing: 1 Board: {:?}", board);
    let board = board
        .test_solve(SolverOptions::FirstOnly)
        .expect("should succeed");
    println!("Solution: {:?}", board);
}

#[test]
fn remove_all() {
    let mut board = Board::test_new();
    let removed = board.test_remove_values(81);
    assert!((2..81).contains(&removed));
    println!("After removing: {} Board: {:?}", removed, board);
    let board = board
        .test_solve(SolverOptions::FirstOnly)
        .expect("should succeed");
    println!("Solution: {:?}", board);
}

#[test]
fn remove_random_remove_one() {
    let mut board = Board::default()
        .test_solve(SolverOptions::FirstOnly)
        .expect("an empty grid always has a completion");
    let original = board.clone();
    let mut rng = BoardRng::seeded(3);
    assert_eq!(board.remove_random(&mut rng, 1), 1);
    assert_ne!(board, original);
    let solved = board
        .solve(SolverOptions::Exhaustive)
        .expect("one removal keeps the solution unique");
    assert_eq!(solved, original);
}

#[test]
fn remove_random_remove_all() {
    let mut board = Board::default()
        .test_solve(SolverOptions::FirstOnly)
        .expect("an empty grid always has a completion");
    let original = board.clone();
    let mut rng = BoardRng::seeded(4);
    let removed = board.remove_random(&mut rng, 81);
    assert!((2..81).contains(&removed));
    println!("After removing: {} Board: {:?}", removed, board);
    let solved = board
        .solve(SolverOptions::FirstOnly)
        .expect("the reduced puzzle still has its solution");
    assert_eq!(solved, original);
    println!("Solution: {:?}", solved);
}

#[test]
fn reducer_respects_the_removal_bound() {
    let mut board = Board::test_new();
    let original = board.clone();
    let removed = board.test_remove_values(5);
    assert!(removed <= 5);
    let zeros = board.to_values().iter().filter(|v| **v == 0).count();
    assert_eq!(zeros, removed as usize);
    let solved = board
        .solve(SolverOptions::Exhaustive)
        .expect("the reducer keeps the puzzle uniquely solvable");
    assert_eq!(solved, original);
}

#[test]
fn reducer_keeps_a_unique_solution() {
    let mut board = Board::test_new();
    let original = board.clone();
    board.test_remove_values(81);
    let solved = board
        .solve(SolverOptions::Exhaustive)
        .expect("the reduced puzzle has exactly one completion");
    assert_eq!(solved, original);
}
