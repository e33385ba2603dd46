//! The search engine: recursive backtracking over the first empty cell,
//! pruned by the candidate bitmask. One recursive function serves all three
//! reporting modes; exhaustive mode keeps searching after a success so that
//! a second completion is never missed.

use vstd::prelude::*;

use crate::checker::{avail, line_dup_at, mask_has};
use crate::grid::{
    ambiguous, box_dup, box_of, box_seq, cell, col_dup, col_seq, count_zeros, extends, full,
    is_completion, lex_le, lex_lt_at, row_dup, row_seq, valid, wf, Board,
};
use crate::rng::BoardRng;

verus! {

/// Why a solve failed: the grid admits no completion, or more than one.
#[derive(Debug)]
pub enum Solutions {
    NoSolution,
    MultipleSolutions,
}

/// How the search explores and reports.
#[derive(Clone, Copy, Debug)]
pub enum SolverOptions {
    /// Shuffled candidate order; stop at the first success.
    Random,
    /// Ascending candidate order; stop at the first success.
    FirstOnly,
    /// Ascending candidate order; keep searching to detect a second success.
    Exhaustive,
}

/// Box indices stay in range.
pub proof fn lemma_box_of_bounds(r: int, c: int)
    requires
        0 <= r < 9,
        0 <= c < 9,
    ensures
        0 <= box_of(r, c) < 9,
{
    assert(0 <= r / 3 <= 2 && 0 <= c / 3 <= 2) by (nonlinear_arith)
        requires
            0 <= r < 9 && 0 <= c < 9,
    ;
}

/// Cell (r, c) appears in its own box at local index 3 * (r % 3) + c % 3.
pub proof fn lemma_cell_in_own_box(r: int, c: int)
    requires
        0 <= r < 9,
        0 <= c < 9,
    ensures
        0 <= 3 * (r % 3) + c % 3 < 9,
        3 * (box_of(r, c) / 3) + (3 * (r % 3) + c % 3) / 3 == r,
        3 * (box_of(r, c) % 3) + (3 * (r % 3) + c % 3) % 3 == c,
{
    vstd::arithmetic::div_mod::lemma_fundamental_div_mod(r, 3);
    vstd::arithmetic::div_mod::lemma_fundamental_div_mod(c, 3);
    assert(0 <= r % 3 < 3 && 0 <= c % 3 < 3 && 0 <= r / 3 <= 2 && 0 <= c / 3 <= 2)
        by (nonlinear_arith)
        requires
            0 <= r < 9 && 0 <= c < 9,
    ;
    let b = box_of(r, c);
    vstd::arithmetic::div_mod::lemma_fundamental_div_mod_converse(b, 3, r / 3, c / 3);
    let i = 3 * (r % 3) + c % 3;
    vstd::arithmetic::div_mod::lemma_fundamental_div_mod_converse(i, 3, r % 3, c % 3);
}

/// The cells a box spans lie inside the grid.
pub proof fn lemma_box_cell_bounds(b: int, i: int)
    requires
        0 <= b < 9,
        0 <= i < 9,
    ensures
        0 <= 3 * (b / 3) + i / 3 < 9,
        0 <= 3 * (b % 3) + i % 3 < 9,
{
    assert(0 <= b / 3 <= 2 && 0 <= i / 3 <= 2 && 0 <= b % 3 < 3 && 0 <= i % 3 < 3)
        by (nonlinear_arith)
        requires
            0 <= b < 9 && 0 <= i < 9,
    ;
}

/// A puzzle with a completion has no duplicate anywhere: the completion
/// keeps every clue, so a clash among clues would survive into the
/// completion and break its validity.
pub proof fn lemma_completion_valid(s: Seq<u8>, g: Seq<u8>)
    requires
        wf(g),
        is_completion(s, g),
    ensures
        valid(g),
{
    assert forall|k: int| 0 <= k < 9 implies !row_dup(g, k) && !col_dup(g, k) && !box_dup(g, k) by {
        if row_dup(g, k) {
            let (c1, c2) = choose|c1: int, c2: int|
                0 <= c1 < 9 && 0 <= c2 < 9 && c1 != c2 && row_seq(g, k)[c1] != 0 && row_seq(g, k)[c1]
                    == row_seq(g, k)[c2];
            assert(row_seq(s, k)[c1] == s[k * 9 + c1] && s[k * 9 + c1] == g[k * 9 + c1]);
            assert(row_seq(s, k)[c2] == s[k * 9 + c2] && s[k * 9 + c2] == g[k * 9 + c2]);
            assert(row_dup(s, k));
            assert(false);
        }
        if col_dup(g, k) {
            let (r1, r2) = choose|r1: int, r2: int|
                0 <= r1 < 9 && 0 <= r2 < 9 && r1 != r2 && col_seq(g, k)[r1] != 0 && col_seq(g, k)[r1]
                    == col_seq(g, k)[r2];
            assert(col_seq(s, k)[r1] == s[r1 * 9 + k] && s[r1 * 9 + k] == g[r1 * 9 + k]);
            assert(col_seq(s, k)[r2] == s[r2 * 9 + k] && s[r2 * 9 + k] == g[r2 * 9 + k]);
            assert(col_dup(s, k));
            assert(false);
        }
        if box_dup(g, k) {
            let (i1, i2) = choose|i1: int, i2: int|
                0 <= i1 < 9 && 0 <= i2 < 9 && i1 != i2 && box_seq(g, k)[i1] != 0 && box_seq(g, k)[i1]
                    == box_seq(g, k)[i2];
            lemma_box_cell_bounds(k, i1);
            lemma_box_cell_bounds(k, i2);
            let p1 = (3 * (k / 3) + i1 / 3) * 9 + (3 * (k % 3) + i1 % 3);
            let p2 = (3 * (k / 3) + i2 / 3) * 9 + (3 * (k % 3) + i2 % 3);
            assert(box_seq(s, k)[i1] == s[p1] && s[p1] == g[p1]);
            assert(box_seq(s, k)[i2] == s[p2] && s[p2] == g[p2]);
            assert(box_dup(s, k));
            assert(false);
        }
    }
}

/// Whatever digit a completion writes into an empty cell is available there:
/// it clashes with no clue in the cell's row, column or box.
pub proof fn lemma_completion_candidate(s: Seq<u8>, g: Seq<u8>, r: int, c: int)
    requires
        wf(g),
        is_completion(s, g),
        0 <= r < 9,
        0 <= c < 9,
        cell(g, r, c) == 0,
    ensures
        1 <= cell(s, r, c) <= 9,
        avail(g, r, c, cell(s, r, c)),
{
    let d = cell(s, r, c);
    assert(s[r * 9 + c] != 0);
    if row_seq(g, r).contains(d) {
        let c2 = choose|c2: int| 0 <= c2 < 9 && row_seq(g, r)[c2] == d;
        assert(g[r * 9 + c2] == d && d != 0);
        assert(s[r * 9 + c2] == d);
        assert(c2 != c);
        assert(row_seq(s, r)[c2] == d && row_seq(s, r)[c] == d);
        assert(row_dup(s, r));
        assert(false);
    }
    if col_seq(g, c).contains(d) {
        let r2 = choose|r2: int| 0 <= r2 < 9 && col_seq(g, c)[r2] == d;
        assert(g[r2 * 9 + c] == d && d != 0);
        assert(s[r2 * 9 + c] == d);
        assert(r2 != r);
        assert(col_seq(s, c)[r2] == d && col_seq(s, c)[r] == d);
        assert(col_dup(s, c));
        assert(false);
    }
    let b = box_of(r, c);
    lemma_box_of_bounds(r, c);
    if box_seq(g, b).contains(d) {
        let i2 = choose|i2: int| 0 <= i2 < 9 && box_seq(g, b)[i2] == d;
        lemma_box_cell_bounds(b, i2);
        let p2 = (3 * (b / 3) + i2 / 3) * 9 + (3 * (b % 3) + i2 % 3);
        assert(g[p2] == d && d != 0);
        assert(s[p2] == d);
        lemma_cell_in_own_box(r, c);
        let i1 = 3 * (r % 3) + c % 3;
        assert(box_seq(s, b)[i1] == s[r * 9 + c]);
        assert(i1 != i2) by {
            if i1 == i2 {
                assert(g[p2] == cell(g, r, c));
            }
        }
        assert(box_seq(s, b)[i2] == d && box_seq(s, b)[i1] == d);
        assert(box_dup(s, b));
        assert(false);
    }
}

/// Filling an empty cell splits the puzzle's completions: the completions of
/// the filled grid are exactly those of the original that place that digit.
pub proof fn lemma_completion_update(g: Seq<u8>, idx: int, d: u8)
    requires
        g.len() == 81,
        0 <= idx < 81,
        g[idx] == 0,
        d != 0,
    ensures
        forall|s: Seq<u8>| #![trigger is_completion(s, g.update(idx, d))] #![trigger is_completion(s, g)]
            is_completion(s, g.update(idx, d)) <==> (is_completion(s, g) && s[idx] == d),
{
    let g2 = g.update(idx, d);
    assert forall|s: Seq<u8>| #![trigger is_completion(s, g2)] #![trigger is_completion(s, g)]
        is_completion(s, g2) <==> (is_completion(s, g) && s[idx] == d) by {
        if is_completion(s, g2) {
            assert(extends(s, g)) by {
                assert forall|i: int| 0 <= i < 81 && g[i] != 0 implies s[i] == g[i] by {
                    assert(g2[i] == g[i]);
                }
            }
            assert(s[idx] == g2[idx]);
        }
        if is_completion(s, g) && s[idx] == d {
            assert(extends(s, g2)) by {
                assert forall|i: int| 0 <= i < 81 && g2[i] != 0 implies s[i] == g2[i] by {
                    if i != idx {
                        assert(g2[i] == g[i]);
                    }
                }
            }
        }
    }
}

/// Filling an empty cell removes one zero: the solver's recursion measure.
pub proof fn lemma_count_zeros_update(g: Seq<u8>, idx: int, d: u8)
    requires
        0 <= idx < g.len(),
        g[idx] == 0,
        d != 0,
    ensures
        count_zeros(g.update(idx, d)) + 1 == count_zeros(g),
    decreases g.len(),
{
    let g2 = g.update(idx, d);
    if idx == g.len() - 1 {
        assert(g2.drop_last() =~= g.drop_last());
        assert(g2.last() == d && g.last() == 0);
    } else {
        assert(g2.drop_last() =~= g.drop_last().update(idx, d));
        lemma_count_zeros_update(g.drop_last(), idx, d);
        assert(g2.last() == g.last());
    }
}

/// A full grid is its own sole completion.
pub proof fn lemma_full_completion(g: Seq<u8>, s: Seq<u8>)
    requires
        wf(g),
        full(g),
        is_completion(s, g),
    ensures
        s == g,
{
    assert(s =~= g);
}

/// A permutation keeps membership, distinctness and length.
pub proof fn lemma_permutation_preserves(a: Seq<u8>, b: Seq<u8>)
    requires
        a.to_multiset() == b.to_multiset(),
    ensures
        forall|x: u8| a.contains(x) <==> b.contains(x),
        a.no_duplicates() ==> b.no_duplicates(),
        a.len() == b.len(),
{
    a.to_multiset_ensures();
    b.to_multiset_ensures();
    assert forall|x: u8| a.contains(x) <==> b.contains(x) by {
        assert(a.contains(x) <==> a.to_multiset().count(x) > 0);
        assert(b.contains(x) <==> b.to_multiset().count(x) > 0);
    }
    assert(a.len() == a.to_multiset().len() && b.len() == b.to_multiset().len());
    if a.no_duplicates() {
        a.lemma_multiset_has_no_duplicates();
        b.lemma_multiset_has_no_duplicates_conv();
    }
}

impl Board {
    /// The first empty cell in row-major order, if any.
    fn find_empty(&self) -> (r: Option<(u8, u8)>)
        requires
            wf(self@),
        ensures
            match r {
                Some(rc) => rc.0 < 9 && rc.1 < 9 && cell(self@, rc.0 as int, rc.1 as int) == 0
                    && forall|j: int| 0 <= j < rc.0 as int * 9 + rc.1 as int ==> self@[j] != 0,
                _ => full(self@),
            },
    {
        let mut idx: u8 = 0;
        while idx < 81
            invariant
                wf(self@),
                idx <= 81,
                forall|j: int| 0 <= j < idx ==> self@[j] != 0,
            decreases 81 - idx,
        {
            let row = idx / 9;
            let col = idx % 9;
            proof {
                vstd::arithmetic::div_mod::lemma_fundamental_div_mod(idx as int, 9);
                assert(row < 9 && col < 9);
                assert(row as int * 9 + col as int == idx as int);
            }
            if self.value_at(row, col) == 0 {
                return Some((row, col));
            }
            idx += 1;
        }
        Option::None
    }

    /// The recursive search. In every mode a returned grid is a completion
    /// of the input; exhaustive mode proves it unique, and a MultipleSolutions
    /// verdict always names two genuinely different completions.
    pub(crate) fn solve_rec(&self, options: SolverOptions, rng: &mut BoardRng) -> (res: Result<
        Board,
        Solutions,
    >)
        requires
            wf(self@),
        ensures
            (res matches Ok(b) ==> wf(b@) && is_completion(b@, self@)),
            (options is Exhaustive ==> (res matches Ok(b) ==> forall|s: Seq<u8>|
                is_completion(s, self@) ==> s == b@)),
            (res matches Err(e) ==> (e is NoSolution ==> forall|s: Seq<u8>|
                !is_completion(s, self@))),
            (res matches Err(e) ==> (e is MultipleSolutions ==> ambiguous(self@))),
            (!(options is Exhaustive) ==> (res matches Err(e) ==> e is NoSolution)),
            (!(options is Random) ==> (res matches Ok(b) ==> forall|s: Seq<u8>|
                is_completion(s, self@) ==> lex_le(b@, s))),
        decreases count_zeros(self@),
    {
        let ghost g = self@;
        let rc = self.find_empty();
        let (row, column) = match rc {
            Option::None => {
                // no empty cell: accept iff the clues themselves are clean
                if self.check_all() {
                    let b = self.clone();
                    proof {
                        assert(is_completion(b@, g));
                        assert forall|s: Seq<u8>| is_completion(s, g) implies s == b@ && lex_le(
                            b@,
                            s,
                        ) by {
                            lemma_full_completion(g, s);
                        }
                    }
                    return Ok(b);
                } else {
                    proof {
                        assert forall|s: Seq<u8>| !is_completion(s, g) by {
                            if is_completion(s, g) {
                                lemma_full_completion(g, s);
                            }
                        }
                    }
                    return Err(Solutions::NoSolution);
                }
            },
            Some(rc) => rc,
        };
        let ghost ri = row as int;
        let ghost ci = column as int;
        let ghost idx = ri * 9 + ci;
        proof {
            assert(0 <= idx < 81);
            assert(g[idx] == 0);
            assert(forall|j: int| 0 <= j < idx ==> g[j] != 0);
        }
        let mask = self.all_remaining(row, column);
        let mut candidates = Self::expand_remaining(mask);
        proof {
            assert forall|s: Seq<u8>| is_completion(s, g) implies candidates@.contains(s[idx]) by {
                lemma_completion_valid(s, g);
                lemma_box_of_bounds(ri, ci);
                assert(!line_dup_at(g, ri, ci));
                lemma_completion_candidate(s, g, ri, ci);
                assert(mask_has(mask, cell(s, ri, ci)));
                assert(candidates@.contains(cell(s, ri, ci)));
            }
        }
        if let SolverOptions::Random = options {
            let ghost before = candidates@;
            rng.shuffle(&mut candidates);
            proof {
                lemma_permutation_preserves(before, candidates@);
                assert forall|j: int| 0 <= j < candidates@.len() implies 1 <= #[trigger] candidates@[j]
                    <= 9 by {
                    assert(candidates@.contains(candidates@[j]));
                    assert(before.contains(candidates@[j]));
                    let jj = choose|jj: int| 0 <= jj < before.len() && before[jj]
                        == candidates@[j];
                }
            }
        }
        let mut found: Option<Board> = Option::None;
        let mut i: usize = 0;
        while i < candidates.len()
            invariant
                wf(g),
                g == self@,
                row < 9,
                column < 9,
                ri == row as int,
                ci == column as int,
                idx == ri * 9 + ci,
                g[idx] == 0,
                forall|j: int| 0 <= j < idx ==> g[j] != 0,
                !(options is Random) ==> forall|j1: int, j2: int|
                    0 <= j1 < j2 < candidates@.len() ==> candidates@[j1] < candidates@[j2],
                candidates@.no_duplicates(),
                forall|j: int| 0 <= j < candidates@.len() ==> 1 <= #[trigger] candidates@[j] <= 9,
                forall|s: Seq<u8>|
                    #[trigger] is_completion(s, g) ==> candidates@.contains(s[idx]),
                i <= candidates@.len(),
                !(options is Exhaustive) ==> found matches Option::None,
                match found {
                    Option::Some(b0) => wf(b0@) && is_completion(b0@, g) && (exists|j: int|
                        0 <= j < i && b0@[idx] == candidates@[j]) && (forall|s: Seq<u8>, j: int|
                        #![trigger is_completion(s, g), candidates@[j]]
                        is_completion(s, g) && 0 <= j < i && s[idx] == candidates@[j] ==> s
                            == b0@),
                    _ => forall|s: Seq<u8>, j: int|
                        #![trigger is_completion(s, g), candidates@[j]]
                        is_completion(s, g) && 0 <= j < i ==> s[idx] != candidates@[j],
                },
            decreases candidates@.len() - i,
        {
            let d = candidates[i];
            let mut child = self.clone();
            child.set_cell(row, column, d);
            proof {
                assert(child@ == g.update(idx, d));
                lemma_count_zeros_update(g, idx, d);
                lemma_completion_update(g, idx, d);
            }
            let sub = child.solve_rec(options, rng);
            match sub {
                Err(Solutions::NoSolution) => {
                    proof {
                        // no completion places d here, so extending the range
                        // of tried candidates by one changes nothing
                        assert forall|s: Seq<u8>, j: int|
                            #![trigger is_completion(s, g), candidates@[j]]
                            is_completion(s, g) && 0 <= j < i + 1 && s[idx] == candidates@[j]
                            implies j < i by {
                            if j == i as int {
                                assert(is_completion(s, child@));
                                assert(false);
                            }
                        }
                    }
                },
                Err(Solutions::MultipleSolutions) => {
                    proof {
                        let (s1, s2) = choose|s1: Seq<u8>, s2: Seq<u8>|
                            is_completion(s1, child@) && is_completion(s2, child@) && s1 != s2;
                        assert(is_completion(s1, g) && is_completion(s2, g));
                        assert(ambiguous(g));
                    }
                    return Err(Solutions::MultipleSolutions);
                },
                Ok(b) => {
                    match &found {
                        Option::None => {
                            if let SolverOptions::Exhaustive = options {
                                proof {
                                    assert(is_completion(b@, g) && b@[idx] == d);
                                    assert(b@[idx] == candidates@[i as int]);
                                    assert forall|s: Seq<u8>, j: int|
                                        #![trigger is_completion(s, g), candidates@[j]]
                                        is_completion(s, g) && 0 <= j < i + 1 && s[idx]
                                            == candidates@[j] implies s == b@ by {
                                        if j == i as int {
                                            assert(is_completion(s, child@));
                                        } else {
                                            assert(s[idx] != candidates@[j]);
                                        }
                                    }
                                }
                                found = Some(b);
                            } else {
                                proof {
                                    assert(is_completion(b@, g) && b@[idx] == d);
                                    if !(options is Random) {
                                        // every completion either places a
                                        // larger candidate here, or places d
                                        // and falls under the recursive
                                        // minimality of b
                                        assert forall|s: Seq<u8>| is_completion(s, g) implies lex_le(
                                            b@,
                                            s,
                                        ) by {
                                            assert(candidates@.contains(s[idx]));
                                            let j = choose|j: int|
                                                0 <= j < candidates@.len() && candidates@[j]
                                                    == s[idx];
                                            assert(j >= i);
                                            if j == i as int {
                                                assert(is_completion(s, child@));
                                                assert(lex_le(b@, s));
                                            } else {
                                                assert(candidates@[i as int] < candidates@[j]);
                                                assert forall|m: int| 0 <= m < idx implies b@[m]
                                                    == s[m] by {
                                                    assert(g[m] != 0);
                                                }
                                                assert(lex_lt_at(b@, s, idx));
                                            }
                                        }
                                    }
                                }
                                return Ok(b);
                            }
                        },
                        Option::Some(prev) => {
                            proof {
                                assert(is_completion(b@, g) && b@[idx] == d);
                                let j = choose|j: int|
                                    0 <= j < i && prev@[idx] == candidates@[j];
                                assert(candidates@[j] != candidates@[i as int]);
                                assert(prev@ != b@);
                                assert(is_completion(prev@, g) && is_completion(b@, g) && prev@
                                    != b@);
                                assert(ambiguous(g));
                            }
                            return Err(Solutions::MultipleSolutions);
                        },
                    }
                },
            }
            i += 1;
        }
        match found {
            Option::Some(b) => {
                proof {
                    assert forall|s: Seq<u8>| is_completion(s, g) implies s == b@ && lex_le(
                        b@,
                        s,
                    ) by {
                        assert(candidates@.contains(s[idx]));
                        let j = choose|j: int|
                            0 <= j < candidates@.len() && candidates@[j] == s[idx];
                    }
                }
                Ok(b)
            },
            Option::None => {
                proof {
                    assert forall|s: Seq<u8>| !is_completion(s, g) by {
                        if is_completion(s, g) {
                            assert(candidates@.contains(s[idx]));
                            let j = choose|j: int|
                                0 <= j < candidates@.len() && candidates@[j] == s[idx];
                            assert(false);
                        }
                    }
                }
                Err(Solutions::NoSolution)
            },
        }
    }
}

impl Board {
    /// Solves the grid, consuming it; branches work on copies, so failure
    /// verdicts leave no trace of the search. On success the returned grid
    /// is a completion of the input; in Exhaustive mode it is the only one,
    /// and MultipleSolutions certifies two distinct completions. NoSolution
    /// is reported exactly when no completion exists. In the deterministic
    /// modes (FirstOnly, Exhaustive) the returned grid is the row-major
    /// lexicographically least completion, so equal grids solve to equal
    /// results.
    pub fn solve(self, options: SolverOptions) -> (res: Result<Board, Solutions>)
        requires
            wf(self@),
        ensures
            (res matches Ok(b) ==> wf(b@) && is_completion(b@, self@)),
            (options is Exhaustive ==> (res matches Ok(b) ==> forall|s: Seq<u8>|
                is_completion(s, self@) ==> s == b@)),
            (res matches Err(e) ==> (e is NoSolution ==> forall|s: Seq<u8>|
                !is_completion(s, self@))),
            (res matches Err(e) ==> (e is MultipleSolutions ==> ambiguous(self@))),
            (!(options is Exhaustive) ==> (res matches Err(e) ==> e is NoSolution)),
            (!(options is Random) ==> (res matches Ok(b) ==> forall|s: Seq<u8>|
                is_completion(s, self@) ==> lex_le(b@, s))),
    {
        let mut rng = BoardRng::from_entropy();
        self.solve_rec(options, &mut rng)
    }

    /// The same search with a fixed-seed random source, so that runs that
    /// shuffle (Random mode) are reproducible.
    pub fn test_solve(self, options: SolverOptions) -> (res: Result<Board, Solutions>)
        requires
            wf(self@),
        ensures
            (res matches Ok(b) ==> wf(b@) && is_completion(b@, self@)),
            (options is Exhaustive ==> (res matches Ok(b) ==> forall|s: Seq<u8>|
                is_completion(s, self@) ==> s == b@)),
            (res matches Err(e) ==> (e is NoSolution ==> forall|s: Seq<u8>|
                !is_completion(s, self@))),
            (res matches Err(e) ==> (e is MultipleSolutions ==> ambiguous(self@))),
            (!(options is Exhaustive) ==> (res matches Err(e) ==> e is NoSolution)),
            (!(options is Random) ==> (res matches Ok(b) ==> forall|s: Seq<u8>|
                is_completion(s, self@) ==> lex_le(b@, s))),
    {
        let mut rng = BoardRng::seeded(0);
        self.solve_rec(options, &mut rng)
    }
}

} // verus!
