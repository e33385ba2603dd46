use sudoku::{Board, Check};

fn board_of_rows(rows: [[u8; 9]; 9]) -> Board {
    let mut values: Vec<u8> = Vec::new();
    for row in rows.iter() {
        for v in row.iter() {
            values.push(*v);
        }
    }
    Board::from_values(values).expect("9x9 digit grid")
}

#[test]
fn board_check_full() {
    match Board::check_slice(&[1, 2, 3, 4, 5, 6, 7, 8, 9]) {
        Check::Full => (),
        result => panic!("{:?}", result),
    };
}

#[test]
fn board_check_remaining() {
    match Board::check_slice(&[1, 0, 3, 0, 5, 0, 7, 0, 9]) {
        Check::Remaining(0b010101010) => (),
        result => panic!("{:?}", result),
    };
}

#[test]
fn board_check_duplicate() {
    match Board::check_slice(&[1, 2, 3, 4, 5, 4, 3, 2, 1]) {
        Check::Duplicates => (),
        result => panic!("{:?}", result),
    };
}

#[test]
fn board_check_empty() {
    let board = board_of_rows([
        [0, 0, 0, 0, 0, 0, 0, 0, 0],
        [0, 0, 0, 0, 0, 0, 0, 0, 0],
        [0, 0, 0, 0, 0, 0, 0, 0, 0],
        [0, 0, 0, 0, 0, 0, 0, 0, 0],
        [0, 0, 0, 0, 0, 0, 0, 0, 0],
        [0, 0, 0, 0, 0, 0, 0, 0, 0],
        [0, 0, 0, 0, 0, 0, 0, 0, 0],
        [0, 0, 0, 0, 0, 0, 0, 0, 0],
        [0, 0, 0, 0, 0, 0, 0, 0, 0],
    ]);
    assert!(board.check_all());
}

#[test]
fn board_check_non_overlapping() {
    let board = board_of_rows([
        [0, 0, 0, 0, 0, 0, 0, 0, 0],
        [0, 0, 0, 0, 0, 0, 0, 0, 0],
        [0, 0, 0, 0, 0, 0, 0, 0, 0],
        [0, 0, 0, 0, 0, 0, 0, 0, 0],
        [0, 0, 0, 0, 0, 0, 0, 0, 0],
        [0, 0, 0, 0, 0, 0, 0, 0, 0],
        [0, 0, 0, 0, 0, 0, 0, 0, 0],
        [0, 0, 0, 0, 0, 0, 0, 0, 0],
        [0, 0, 0, 0, 0, 0, 0, 0, 0],
    ]);
    assert!(board.check_all());
}

#[test]
fn board_fail_overlapping_row() {
    let board = board_of_rows([
        [0, 0, 0, 0, 0, 0, 0, 0, 0],
        [0, 0, 0, 0, 0, 0, 0, 0, 0],
        [0, 0, 0, 0, 0, 0, 0, 0, 0],
        [0, 0, 0, 0, 0, 0, 0, 0, 0],
        [0, 1, 0, 0, 0, 0, 0, 1, 0],
        [0, 0, 0, 0, 0, 0, 0, 0, 0],
        [0, 0, 0, 0, 0, 0, 0, 0, 0],
        [0, 0, 0, 0, 0, 0, 0, 0, 0],
        [0, 0, 0, 0, 0, 0, 0, 0, 0],
    ]);
    assert!(!board.check_all());
}

#[test]
fn board_fail_overlapping_column() {
    let board = board_of_rows([
        [0, 0, 0, 0, 0, 0, 0, 0, 0],
        [0, 0, 0, 0, 1, 0, 0, 0, 0],
        [0, 0, 0, 0, 0, 0, 0, 0, 0],
        [0, 0, 0, 0, 0, 0, 0, 0, 0],
        [0, 0, 0, 0, 0, 0, 0, 0, 0],
        [0, 0, 0, 0, 0, 0, 0, 0, 0],
        [0, 0, 0, 0, 0, 0, 0, 0, 0],
        [0, 0, 0, 0, 1, 0, 0, 0, 0],
        [0, 0, 0, 0, 0, 0, 0, 0, 0],
    ]);
    assert!(!board.check_all());
}

#[test]
fn board_fail_overlapping_square() {
    let board = board_of_rows([
        [0, 0, 0, 0, 0, 0, 0, 0, 0],
        [0, 0, 0, 0, 0, 0, 0, 0, 0],
        [0, 0, 0, 0, 0, 0, 0, 0, 0],
        [0, 0, 0, 1, 0, 0, 0, 0, 0],
        [0, 0, 0, 0, 0, 0, 0, 0, 0],
        [0, 0, 0, 0, 0, 1, 0, 0, 0],
        [0, 0, 0, 0, 0, 0, 0, 0, 0],
        [0, 0, 0, 0, 0, 0, 0, 0, 0],
        [0, 0, 0, 0, 0, 0, 0, 0, 0],
    ]);
    assert!(!board.check_all());
}

#[test]
fn lib_check_full() {
    match Board::check_slice(&[1, 2, 3, 4, 5, 6, 7, 8, 9]) {
        Check::Full => (),
        result => panic!("{:?}", result),
    };
}

#[test]
fn lib_check_remaining() {
    match Board::check_slice(&[1, 0, 3, 0, 5, 0, 7, 0, 9]) {
        Check::Remaining(0b010101010) => (),
        result => panic!("{:?}", result),
    };
}

#[test]
fn lib_check_duplicate() {
    match Board::check_slice(&[1, 2, 3, 4, 5, 4, 3, 2, 1]) {
        Check::Duplicates => (),
        result => panic!("{:?}", result),
    };
}

#[test]
fn lib_check_empty() {
    let board = Board::from_values(vec![0u8; 81]).expect("shape and range are fine");
    assert!(board.check_all());
}

#[test]
fn lib_check_non_overlapping() {
    let board = Board::from_values(vec![0u8; 81]).expect("shape and range are fine");
    assert!(board.check_all());
}

#[test]
fn lib_fail_overlapping_row() {
    let mut values = vec![0u8; 81];
    values[4 * 9 + 1] = 1;
    values[4 * 9 + 7] = 1;
    let board = Board::from_values(values).expect("shape and range are fine");
    assert!(!board.check_all());
}

#[test]
fn lib_fail_overlapping_column() {
    let mut values = vec![0u8; 81];
    values[1 * 9 + 4] = 1;
    values[7 * 9 + 4] = 1;
    let board = Board::from_values(values).expect("shape and range are fine");
    assert!(!board.check_all());
}

#[test]
fn lib_fail_overlapping_square() {
    let mut values = vec![0u8; 81];
    values[3 * 9 + 3] = 1;
    values[5 * 9 + 5] = 1;
    let board = Board::from_values(values).expect("shape and range are fine");
    assert!(!board.check_all());
}

#[test]
fn check_row_out_of_range_is_unconstrained() {
    let board = Board::from_values(vec![0u8; 81]).expect("shape and range are fine");
    assert!(matches!(board.check_row(9), Check::Remaining(0x1FF)));
    assert!(matches!(board.check_column(200), Check::Remaining(0x1FF)));
    assert!(matches!(board.check_square(9, 0), Check::Remaining(0x1FF)));
}

#[test]
fn check_column_reads_columns() {
    let mut values = vec![0u8; 81];
    for r in 0..9u8 {
        values[r as usize * 9 + 3] = r + 1;
    }
    let board = Board::from_values(values).expect("shape and range are fine");
    assert!(matches!(board.check_column(3), Check::Full));
    assert!(matches!(board.check_row(0), Check::Remaining(_)));
}

#[test]
fn from_values_rejects_bad_input() {
    assert!(Board::from_values(vec![0u8; 80]).is_none());
    let mut values = vec![0u8; 81];
    values[17] = 10;
    assert!(Board::from_values(values).is_none());
}
