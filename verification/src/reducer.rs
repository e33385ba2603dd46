//! The reducer: starting from a solved grid, clears cells while an
//! exhaustive solve confirms the puzzle still has exactly one completion.
//! A binary search over a shuffled candidate list clears whole prefixes per
//! uniqueness test; once tests stop paying for themselves it falls back to
//! one cell at a time.

use vstd::prelude::*;

use crate::grid::{
    ambiguous, clears, count_zeros, is_completion, lemma_clears_completion, lemma_clears_trans,
    lemma_count_zeros_clear, solved, wf, Board,
};
use crate::rng::BoardRng;
use crate::solver::{lemma_full_completion, lemma_permutation_preserves, SolverOptions};

verus! {

impl Board {
    /// Empties the cell at row-major index idx.
    pub(crate) fn clear_index(&mut self, idx: u8)
        requires
            wf(old(self)@),
            idx < 81,
        ensures
            final(self)@ == old(self)@.update(idx as int, 0),
            wf(final(self)@),
    {
        let row = idx / 9;
        let column = idx % 9;
        proof {
            vstd::arithmetic::div_mod::lemma_fundamental_div_mod(idx as int, 9);
            assert(row < 9 && column < 9);
            assert(row as int * 9 + column as int == idx as int);
        }
        self.set_cell(row, column, 0);
    }

    /// Clears up to max_count cells, keeping the puzzle uniquely solvable:
    /// every removal is committed only after an exhaustive solve proves the
    /// grid still has exactly one completion, which is the input grid itself.
    /// A zero count with removals allowed certifies that clearing any single
    /// cell of the input already breaks uniqueness.
    pub fn remove_values(&mut self, max_count: u8) -> (count: u8)
        requires
            wf(old(self)@),
            solved(old(self)@),
        ensures
            wf(final(self)@),
            clears(final(self)@, old(self)@),
            count <= max_count,
            count_zeros(final(self)@) == count_zeros(old(self)@) + count,
            is_completion(old(self)@, final(self)@),
            forall|s: Seq<u8>| #[trigger] is_completion(s, final(self)@) ==> s == old(self)@,
            max_count > 0 && count == 0 ==> forall|i: int|
                0 <= i < 81 && old(self)@[i] != 0 ==> ambiguous(
                    #[trigger] old(self)@.update(i, 0),
                ),
    {
        let mut rng = BoardRng::from_entropy();
        self.remove_random(&mut rng, max_count)
    }

    /// The reducer with a fixed-seed random source, for reproducible runs.
    pub fn test_remove_values(&mut self, max_count: u8) -> (count: u8)
        requires
            wf(old(self)@),
            solved(old(self)@),
        ensures
            wf(final(self)@),
            clears(final(self)@, old(self)@),
            count <= max_count,
            count_zeros(final(self)@) == count_zeros(old(self)@) + count,
            is_completion(old(self)@, final(self)@),
            forall|s: Seq<u8>| #[trigger] is_completion(s, final(self)@) ==> s == old(self)@,
            max_count > 0 && count == 0 ==> forall|i: int|
                0 <= i < 81 && old(self)@[i] != 0 ==> ambiguous(
                    #[trigger] old(self)@.update(i, 0),
                ),
    {
        let mut rng = BoardRng::seeded(0);
        self.remove_random(&mut rng, max_count)
    }

    /// The reduction pass over a shuffled list of filled-cell indices.
    ///
    /// Binary-search phase: test whether clearing the whole candidate prefix
    /// up to `middle` keeps the solution unique; if so every cell of the
    /// prefix is committed at once, otherwise the window shrinks. Once a pass
    /// spends more uniqueness tests than it confirms cells, the remaining
    /// candidates are tried one at a time. When nothing at all is removed,
    /// every filled cell was individually tested and refuted, which the last
    /// ensures clause records.
    pub fn remove_random(&mut self, rng: &mut BoardRng, max_count: u8) -> (count: u8)
        requires
            wf(old(self)@),
            solved(old(self)@),
        ensures
            wf(final(self)@),
            clears(final(self)@, old(self)@),
            count <= max_count,
            count_zeros(final(self)@) == count_zeros(old(self)@) + count,
            is_completion(old(self)@, final(self)@),
            forall|s: Seq<u8>| #[trigger] is_completion(s, final(self)@) ==> s == old(self)@,
            max_count > 0 && count == 0 ==> forall|i: int|
                0 <= i < 81 && old(self)@[i] != 0 ==> ambiguous(
                    #[trigger] old(self)@.update(i, 0),
                ),
    {
        let ghost orig = old(self)@;
        proof {
            assert(is_completion(orig, orig));
            assert forall|s: Seq<u8>| #[trigger] is_completion(s, self@) implies s == orig by {
                lemma_full_completion(orig, s);
            }
        }
        // gather the indices of the filled cells, in ascending order
        let mut choices: Vec<u8> = Vec::new();
        let mut idx: u8 = 0;
        while idx < 81
            invariant
                wf(self@),
                self@ == orig,
                idx <= 81,
                choices@.len() <= idx,
                forall|j: int| 0 <= j < choices@.len() ==> #[trigger] choices@[j] < idx,
                forall|j1: int, j2: int|
                    0 <= j1 < j2 < choices@.len() ==> choices@[j1] < choices@[j2],
                forall|j: int|
                    0 <= j < choices@.len() ==> self@[#[trigger] choices@[j] as int] != 0,
                forall|i2: int| 0 <= i2 < idx && self@[i2] != 0 ==> choices@.contains(i2 as u8),
            decreases 81 - idx,
        {
            let row = idx / 9;
            let column = idx % 9;
            proof {
                vstd::arithmetic::div_mod::lemma_fundamental_div_mod(idx as int, 9);
                assert(row < 9 && column < 9);
                assert(row as int * 9 + column as int == idx as int);
            }
            if self.value_at(row, column) != 0 {
                let ghost before = choices@;
                choices.push(idx);
                proof {
                    assert forall|i2: int|
                        0 <= i2 < idx + 1 && self@[i2] != 0 implies choices@.contains(i2 as u8) by {
                        if i2 == idx as int {
                            assert(choices@[before.len() as int] == i2 as u8);
                        } else {
                            let j = choose|j: int| 0 <= j < before.len() && before[j] == i2 as u8;
                            assert(choices@[j] == i2 as u8);
                        }
                    }
                }
            }
            idx += 1;
        }
        proof {
            assert forall|j1: int, j2: int|
                0 <= j1 < choices@.len() && 0 <= j2 < choices@.len() && j1 != j2 implies choices@[j1]
                != choices@[j2] by {}
            assert(choices@.no_duplicates());
        }
        let ghost unshuffled = choices@;
        rng.shuffle(&mut choices);
        proof {
            lemma_permutation_preserves(unshuffled, choices@);
            assert forall|j: int|
                0 <= j < choices@.len() implies #[trigger] choices@[j] < 81 && self@[choices@[j] as int]
                != 0 by {
                assert(choices@.contains(choices@[j]));
                assert(unshuffled.contains(choices@[j]));
                let jj = choose|jj: int|
                    0 <= jj < unshuffled.len() && unshuffled[jj] == choices@[j];
            }
            assert forall|i2: int| 0 <= i2 < 81 && orig[i2] != 0 implies choices@.contains(
                i2 as u8,
            ) by {
                assert(unshuffled.contains(i2 as u8));
            }
        }
        let mut count: u8 = 0;
        let mut next: usize = 0;
        let mut binary_search = true;
        while binary_search && count < max_count && next < choices.len()
            invariant
                wf(self@),
                solved(orig),
                orig == old(self)@,
                choices@.len() <= 81,
                choices@.no_duplicates(),
                forall|j: int| 0 <= j < choices@.len() ==> #[trigger] choices@[j] < 81,
                forall|j: int|
                    next <= j < choices@.len() ==> self@[#[trigger] choices@[j] as int] != 0,
                next <= choices@.len() + 1,
                count <= max_count,
                clears(self@, orig),
                is_completion(orig, self@),
                forall|s: Seq<u8>| #[trigger] is_completion(s, self@) ==> s == orig,
                count_zeros(self@) == count_zeros(orig) + count,
                forall|i2: int| 0 <= i2 < 81 && orig[i2] != 0 ==> choices@.contains(i2 as u8),
                count == 0 ==> self@ == orig,
                count == 0 ==> forall|j: int|
                    0 <= j < next && j < choices@.len() ==> ambiguous(
                        orig.update(#[trigger] choices@[j] as int, 0),
                    ),
            decreases choices@.len() + 1 - next,
        {
            let mut low = next;
            let mut high = choices.len();
            let mut test_count: usize = 0;
            let previous = next;
            while low < high && count < max_count
                invariant
                    wf(self@),
                    solved(orig),
                    orig == old(self)@,
                    choices@.len() <= 81,
                    choices@.no_duplicates(),
                    forall|j: int| 0 <= j < choices@.len() ==> #[trigger] choices@[j] < 81,
                    forall|j: int|
                        next <= j < choices@.len() ==> self@[#[trigger] choices@[j] as int] != 0,
                    low == next,
                    next <= high <= choices@.len(),
                    test_count + high - low <= choices@.len(),
                    previous <= next,
                    previous < choices@.len(),
                    count <= max_count,
                    clears(self@, orig),
                    is_completion(orig, self@),
                    forall|s: Seq<u8>| #[trigger] is_completion(s, self@) ==> s == orig,
                    count_zeros(self@) == count_zeros(orig) + count,
                    count == 0 ==> self@ == orig,
                    count == 0 ==> next == previous,
                    count == 0 ==> forall|j: int|
                        0 <= j < next && j < choices@.len() ==> ambiguous(
                            orig.update(#[trigger] choices@[j] as int, 0),
                        ),
                    count == 0 && high == previous ==> ambiguous(
                        orig.update(choices@[previous as int] as int, 0),
                    ),
                decreases high - low,
            {
                let middle = low + (high - low) / 2;
                proof {
                    assert(0 <= (high - low) / 2) by (nonlinear_arith)
                        requires
                            low < high,
                    ;
                    if high - low >= 2 {
                        vstd::arithmetic::div_mod::lemma_div_decreases(high - low, 2);
                    } else {
                        assert((high - low) / 2 == 0);
                    }
                    assert(low <= middle < high);
                }
                // clear the whole candidate prefix next..=middle on a copy
                let mut test_board = self.clone();
                let mut k = next;
                while k <= middle
                    invariant
                        next <= k <= middle + 1,
                        middle < choices@.len(),
                        choices@.len() <= 81,
                        choices@.no_duplicates(),
                        forall|j: int| 0 <= j < choices@.len() ==> #[trigger] choices@[j] < 81,
                        wf(test_board@),
                        test_board@.len() == 81,
                        self@.len() == 81,
                        forall|i: int|
                            0 <= i < 81 ==> test_board@[i] == self@[i] || test_board@[i] == 0,
                        forall|j: int|
                            next <= j < k ==> test_board@[#[trigger] choices@[j] as int] == 0,
                        forall|i2: int|
                            0 <= i2 < 81 && test_board@[i2] != self@[i2] ==> exists|j: int|
                                next <= j < k && #[trigger] choices@[j] as int == i2,
                    decreases middle + 1 - k,
                {
                    let ghost before = test_board@;
                    test_board.clear_index(choices[k]);
                    proof {
                        assert forall|i2: int|
                            0 <= i2 < 81 && test_board@[i2] != self@[i2] implies exists|j: int|
                            next <= j < k + 1 && #[trigger] choices@[j] as int == i2 by {
                            if i2 == choices@[k as int] as int {
                                assert(next <= k < k + 1 && choices@[k as int] as int == i2);
                            } else {
                                assert(test_board@[i2] == before[i2]);
                                let j = choose|j: int|
                                    next <= j < k && #[trigger] choices@[j] as int == i2;
                                assert(next <= j < k + 1 && choices@[j] as int == i2);
                            }
                        }
                    }
                    k += 1;
                }
                test_count += 1;
                let mut unique = false;
                let ghost mut witness: Seq<u8> = orig;
                match test_board.solve_rec(SolverOptions::Exhaustive, rng) {
                    Ok(b) => {
                        proof {
                            witness = b@;
                        }
                        unique = true;
                    },
                    Err(e) => {
                        proof {
                            if count == 0 && middle == next {
                                // the failed test cleared exactly one cell of
                                // the still-untouched grid: that single
                                // removal breaks uniqueness
                                let target = orig.update(choices@[next as int] as int, 0);
                                assert forall|i2: int|
                                    0 <= i2 < 81 implies test_board@[i2] == target[i2] by {
                                    if i2 != choices@[next as int] as int {
                                        if test_board@[i2] != self@[i2] {
                                            let j = choose|j: int|
                                                next <= j < k && #[trigger] choices@[j] as int
                                                    == i2;
                                            assert(false);
                                        }
                                    }
                                }
                                assert(test_board@ =~= target);
                                assert(is_completion(orig, orig));
                                assert(clears(test_board@, orig));
                                lemma_clears_completion(orig, orig, test_board@);
                                assert(!(e is NoSolution));
                                assert(e is MultipleSolutions);
                                assert(ambiguous(orig.update(choices@[next as int] as int, 0)));
                            }
                        }
                    },
                }
                if unique {
                    proof {
                        lemma_clears_completion(orig, self@, test_board@);
                        assert(orig == witness);
                    }
                    let ghost base = self@;
                    let ghost count0 = count;
                    let ghost start = next;
                    while count < max_count && next <= middle
                        invariant
                            start <= next <= middle + 1,
                            middle < choices@.len(),
                            choices@.len() <= 81,
                            choices@.no_duplicates(),
                            forall|j: int| 0 <= j < choices@.len() ==> #[trigger] choices@[j] < 81,
                            wf(self@),
                            self@.len() == 81,
                            base.len() == 81,
                            test_board@.len() == 81,
                            count0 <= count <= max_count,
                            count - count0 == next - start,
                            count_zeros(self@) == count_zeros(base) + (next - start),
                            forall|i: int|
                                0 <= i < 81 ==> self@[i] == base[i] || (self@[i] == 0
                                    && test_board@[i] == 0),
                            forall|j: int|
                                next <= j < choices@.len() ==> base[#[trigger] choices@[j] as int]
                                    != 0 && self@[choices@[j] as int] != 0,
                            forall|j: int|
                                start <= j < k ==> test_board@[#[trigger] choices@[j] as int] == 0,
                            k == middle + 1,
                        decreases middle + 1 - next,
                    {
                        proof {
                            assert(self@[choices@[next as int] as int] != 0);
                            lemma_count_zeros_clear(self@, choices@[next as int] as int);
                        }
                        self.clear_index(choices[next]);
                        proof {
                            assert forall|j: int|
                                next + 1 <= j < choices@.len() implies self@[#[trigger] choices@[j] as int]
                                != 0 by {
                                assert(choices@[j] != choices@[next as int]);
                            }
                        }
                        count += 1;
                        next += 1;
                    }
                    proof {
                        assert(count >= 1);
                        // the committed grid clears the base, and the test
                        // grid clears the committed grid
                        assert(clears(self@, base));
                        assert(clears(test_board@, self@)) by {
                            assert forall|i: int|
                                0 <= i < 81 implies test_board@[i] == self@[i] || test_board@[i]
                                == 0 by {
                                if test_board@[i] != 0 {
                                    assert(test_board@[i] == base[i]);
                                    assert(self@[i] == base[i] || (self@[i] == 0 && test_board@[i]
                                        == 0));
                                }
                            }
                        }
                        lemma_clears_trans(self@, base, orig);
                        lemma_clears_completion(orig, base, self@);
                        assert forall|s: Seq<u8>| #[trigger] is_completion(s, self@) implies s
                            == orig by {
                            lemma_clears_completion(s, self@, test_board@);
                        }
                    }
                    low = next;
                } else {
                    high = middle;
                }
            }
            proof {
                if count == 0 {
                    // no commit happened, so the window closed on a failed
                    // single-cell test of the current candidate
                    assert(low == high && next == previous && high == previous);
                    assert(ambiguous(orig.update(choices@[previous as int] as int, 0)));
                }
            }
            if previous + test_count > next {
                // the last pass spent more tests than it confirmed cells:
                // batching has stopped paying for itself
                binary_search = false;
            }
            // skip the candidate the window closed on
            next += 1;
        }
        if !binary_search {
            // finish with a one-cell-at-a-time scan
            while count < max_count && next < choices.len()
                invariant
                    wf(self@),
                    solved(orig),
                    orig == old(self)@,
                    choices@.len() <= 81,
                    choices@.no_duplicates(),
                    forall|j: int| 0 <= j < choices@.len() ==> #[trigger] choices@[j] < 81,
                    forall|j: int|
                        next <= j < choices@.len() ==> self@[#[trigger] choices@[j] as int] != 0,
                    count <= max_count,
                    clears(self@, orig),
                    is_completion(orig, self@),
                    forall|s: Seq<u8>| #[trigger] is_completion(s, self@) ==> s == orig,
                    count_zeros(self@) == count_zeros(orig) + count,
                    forall|i2: int| 0 <= i2 < 81 && orig[i2] != 0 ==> choices@.contains(i2 as u8),
                    count == 0 ==> self@ == orig,
                    count == 0 ==> forall|j: int|
                        0 <= j < next && j < choices@.len() ==> ambiguous(
                            orig.update(#[trigger] choices@[j] as int, 0),
                        ),
                decreases choices@.len() - next,
            {
                let mut test_board = self.clone();
                test_board.clear_index(choices[next]);
                let mut unique = false;
                let ghost mut witness: Seq<u8> = orig;
                match test_board.solve_rec(SolverOptions::Exhaustive, rng) {
                    Ok(b) => {
                        proof {
                            witness = b@;
                        }
                        unique = true;
                    },
                    Err(e) => {
                        proof {
                            if count == 0 {
                                // a rejected single-cell removal of the
                                // still-untouched grid is an ambiguous puzzle
                                assert(test_board@ == orig.update(
                                    choices@[next as int] as int,
                                    0,
                                ));
                                assert(is_completion(orig, orig));
                                assert(clears(test_board@, orig));
                                lemma_clears_completion(orig, orig, test_board@);
                                assert(!(e is NoSolution));
                                assert(e is MultipleSolutions);
                                assert(ambiguous(orig.update(choices@[next as int] as int, 0)));
                            }
                        }
                    },
                }
                if unique {
                    proof {
                        assert(clears(test_board@, self@));
                        lemma_clears_completion(orig, self@, test_board@);
                        assert(orig == witness);
                        assert(self@[choices@[next as int] as int] != 0);
                        lemma_count_zeros_clear(self@, choices@[next as int] as int);
                    }
                    let ghost base = self@;
                    self.clear_index(choices[next]);
                    proof {
                        assert(self@ == test_board@);
                        lemma_clears_trans(self@, base, orig);
                        assert forall|j: int|
                            next + 1 <= j < choices@.len() implies self@[#[trigger] choices@[j] as int]
                            != 0 by {
                            assert(choices@[j] != choices@[next as int]);
                        }
                    }
                    count += 1;
                }
                next += 1;
            }
        }
        proof {
            if max_count > 0 && count == 0 {
                // every exit path with nothing removed exhausted the
                // candidate list, refuting each cell one by one
                assert(next >= choices@.len());
                assert forall|i2: int| 0 <= i2 < 81 && orig[i2] != 0 implies ambiguous(
                    #[trigger] orig.update(i2, 0),
                ) by {
                    assert(choices@.contains(i2 as u8));
                    let j = choose|j: int| 0 <= j < choices@.len() && choices@[j] == i2 as u8;
                    assert(ambiguous(orig.update(choices@[j] as int, 0)));
                    assert(choices@[j] as int == i2);
                }
            }
        }
        count
    }
}

} // verus!
