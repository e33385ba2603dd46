//! The operations handed to the surrounding application: generate a puzzle,
//! solve one cell of a supplied grid, list a cell's candidates. Coordinate
//! validation happens here, before any search runs.

use vstd::prelude::*;

use crate::checker::{avail, line_dup_at};
use crate::grid::{ambiguous, cell, full, is_completion, lemma_count_zeros_zero, lex_le, wf, Board};
use crate::laws::lemma_single_removal_unique;
use crate::solver::SolverOptions;

verus! {

/// What a boundary operation can report instead of a value.
#[derive(Debug)]
pub enum BoardError {
    /// The supplied grid admits no completion.
    NoSolution,
    /// The supplied grid admits more than one completion.
    MultipleSolutions,
    /// A coordinate fell outside 0..9; the offending pair is carried along.
    OutOfBounds(u8, u8),
}

/// A solved-then-reduced puzzle: every cell the reducer could confirm safe
/// is cleared (all 81 are attempted), and the result still has exactly one
/// completion. At least one cell is always cleared, since a single removal
/// from a solved grid never breaks uniqueness, so the puzzle is never full.
pub fn generate_board() -> (b: Board)
    ensures
        wf(b@),
        !full(b@),
        exists|s: Seq<u8>|
            #[trigger] is_completion(s, b@) && (forall|t: Seq<u8>|
                #[trigger] is_completion(t, b@) ==> t == s),
{
    let mut board = Board::new();
    let ghost origin = board@;
    let removed = board.remove_values(81);
    proof {
        if removed == 0 {
            assert(origin[0] != 0);
            assert(ambiguous(origin.update(0, 0)));
            lemma_single_removal_unique(origin, 0);
            let (s1, s2) = choose|s1: Seq<u8>, s2: Seq<u8>|
                is_completion(s1, origin.update(0, 0)) && is_completion(s2, origin.update(0, 0))
                    && s1 != s2;
            assert(s1 == origin && s2 == origin);
            assert(false);
        }
        lemma_count_zeros_zero(origin);
        lemma_count_zeros_zero(board@);
        assert(!full(board@));
    }
    board
}

/// Runs a deterministic solve on the supplied grid and reports the digit the
/// lexicographically least completion assigns to (row, column). An
/// out-of-range coordinate pair is rejected up front, naming the offending
/// indices, and no search runs.
pub fn solve_value(board: Board, row: u8, column: u8) -> (r: Result<u8, BoardError>)
    requires
        wf(board@),
    ensures
        row >= 9 || column >= 9 ==> r == Err::<u8, BoardError>(
            BoardError::OutOfBounds(row, column),
        ),
        row < 9 && column < 9 ==> match r {
            Ok(d) => 1 <= d <= 9 && exists|s: Seq<u8>|
                #[trigger] is_completion(s, board@) && cell(s, row as int, column as int) == d && (
                forall|t: Seq<u8>| #[trigger] is_completion(t, board@) ==> lex_le(s, t)),
            Err(e) => e is NoSolution && forall|s: Seq<u8>| !is_completion(s, board@),
        },
{
    if row >= 9 || column >= 9 {
        return Err(BoardError::OutOfBounds(row, column));
    }
    let ghost g = board@;
    match board.solve(SolverOptions::FirstOnly) {
        Ok(full_board) => {
            let d = full_board.value_at(row, column);
            proof {
                assert(is_completion(full_board@, g));
                assert(0 <= (row as int) * 9 + (column as int) < 81);
            }
            Ok(d)
        },
        Err(crate::solver::Solutions::NoSolution) => Err(BoardError::NoSolution),
        Err(crate::solver::Solutions::MultipleSolutions) => Err(BoardError::MultipleSolutions),
    }
}

/// The candidate digits for the requested cell, ascending, without running
/// a solve; the grid is not touched. An out-of-range coordinate pair is
/// rejected, naming the offending indices.
pub fn get_possible_values(board: Board, row: u8, column: u8) -> (r: Result<Vec<u8>, BoardError>)
    requires
        wf(board@),
    ensures
        row >= 9 || column >= 9 ==> (r matches Err(e) && e == BoardError::OutOfBounds(row, column)),
        row < 9 && column < 9 ==> match r {
            Ok(v) => (!line_dup_at(board@, row as int, column as int) ==> forall|d: u8| #[trigger]
                v@.contains(d) <==> (1 <= d <= 9 && avail(
                    board@,
                    row as int,
                    column as int,
                    d,
                ))) && (line_dup_at(board@, row as int, column as int) ==> v@.len() == 0) && (
            forall|j1: int, j2: int| 0 <= j1 < j2 < v@.len() ==> v@[j1] < v@[j2]),
            _ => false,
        },
{
    if row >= 9 || column >= 9 {
        return Err(BoardError::OutOfBounds(row, column));
    }
    Ok(board.get_all_remaining(row, column))
}

} // verus!
