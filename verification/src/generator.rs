//! The generator: a random permutation of 1..=9 seeds the first row, and the
//! search engine in Random mode completes the rest. A single unconstrained
//! row always admits a completion - the cyclic shift of that row is one, and
//! that is proved here - so generation can never fail.

use vstd::prelude::*;

use crate::grid::{cell, extends, full, is_completion, solved, valid, wf, Board};
use crate::rng::BoardRng;
use crate::solver::{
    lemma_box_cell_bounds, lemma_permutation_preserves, SolverOptions,
};

verus! {

/// Which entry of the seed row lands at (r, c) in the cyclic completion.
pub open spec fn cyclic_shift(r: int, c: int) -> int {
    (c + 3 * (r % 3) + r / 3) % 9
}

/// The cyclic completion of a seed row p: row r is p shifted left by
/// 3 * (r % 3) + r / 3 places, the classic Latin-square-style filling.
pub open spec fn cyclic_grid(p: Seq<u8>) -> Seq<u8> {
    Seq::new(81, |i: int| p[cyclic_shift(i / 9, i % 9)])
}

/// Two in-range offsets that shift to the same place are the same offset.
proof fn lemma_mod9_add_injective(a: int, x: int, y: int)
    requires
        0 <= a,
        0 <= x < 9,
        0 <= y < 9,
        (a + x) % 9 == (a + y) % 9,
    ensures
        x == y,
{
    vstd::arithmetic::div_mod::lemma_fundamental_div_mod(a + x, 9);
    vstd::arithmetic::div_mod::lemma_fundamental_div_mod(a + y, 9);
    let q1 = (a + x) / 9;
    let q2 = (a + y) / 9;
    assert(x - y == 9 * q1 - 9 * q2);
    assert(9 * q1 - 9 * q2 == 9 * (q1 - q2)) by (nonlinear_arith);
    if q1 > q2 {
        assert(9 * (q1 - q2) >= 9) by (nonlinear_arith)
            requires
                q1 > q2,
        ;
    }
    if q1 < q2 {
        assert(9 * (q1 - q2) <= -9) by (nonlinear_arith)
            requires
                q1 < q2,
        ;
    }
}

/// The row offset 3 * (r % 3) + r / 3 determines the row.
proof fn lemma_row_offset_injective(r1: int, r2: int)
    requires
        0 <= r1 < 9,
        0 <= r2 < 9,
        3 * (r1 % 3) + r1 / 3 == 3 * (r2 % 3) + r2 / 3,
    ensures
        r1 == r2,
{
    vstd::arithmetic::div_mod::lemma_fundamental_div_mod(r1, 3);
    vstd::arithmetic::div_mod::lemma_fundamental_div_mod(r2, 3);
    assert(0 <= r1 % 3 < 3 && 0 <= r1 / 3 < 3 && 0 <= r2 % 3 < 3 && 0 <= r2 / 3 < 3)
        by (nonlinear_arith)
        requires
            0 <= r1 < 9 && 0 <= r2 < 9,
    ;
    let f = 3 * (r1 % 3) + r1 / 3;
    vstd::arithmetic::div_mod::lemma_fundamental_div_mod_converse(f, 3, r1 % 3, r1 / 3);
    vstd::arithmetic::div_mod::lemma_fundamental_div_mod_converse(f, 3, r2 % 3, r2 / 3);
}

/// The cell the cyclic grid reads for (r, c), with its bounds.
proof fn lemma_cyclic_cell(p: Seq<u8>, r: int, c: int)
    requires
        p.len() == 9,
        0 <= r < 9,
        0 <= c < 9,
    ensures
        0 <= cyclic_shift(r, c) < 9,
        cell(cyclic_grid(p), r, c) == p[cyclic_shift(r, c)],
{
    let i = r * 9 + c;
    assert(0 <= i < 81);
    vstd::arithmetic::div_mod::lemma_fundamental_div_mod_converse(i, 9, r, c);
    assert(0 <= r % 3 && 0 <= r / 3) by (nonlinear_arith)
        requires
            0 <= r,
    ;
    vstd::arithmetic::div_mod::lemma_mod_bound(c + 3 * (r % 3) + r / 3, 9);
}

/// The cyclic completion of a duplicate-free row of digits is a solved grid
/// whose first row is that seed row.
pub proof fn lemma_cyclic_grid_solved(p: Seq<u8>)
    requires
        p.len() == 9,
        forall|j: int| 0 <= j < 9 ==> 1 <= #[trigger] p[j] <= 9,
        p.no_duplicates(),
    ensures
        solved(cyclic_grid(p)),
        forall|c: int| 0 <= c < 9 ==> cell(cyclic_grid(p), 0, c) == p[c],
{
    let g = cyclic_grid(p);
    assert forall|r: int, c: int| 0 <= r < 9 && 0 <= c < 9 implies 1 <= #[trigger] cell(g, r, c)
        <= 9 by {
        lemma_cyclic_cell(p, r, c);
    }
    assert(wf(g) && full(g)) by {
        assert forall|i: int| 0 <= i < 81 implies 1 <= #[trigger] g[i] <= 9 by {
            vstd::arithmetic::div_mod::lemma_fundamental_div_mod(i, 9);
            vstd::arithmetic::div_mod::lemma_mod_bound(i, 9);
            assert(0 <= i / 9 < 9) by (nonlinear_arith)
                requires
                    0 <= i < 81,
            ;
            assert(g[i] == cell(g, i / 9, i % 9));
        }
    }
    assert forall|k: int| 0 <= k < 9 implies !crate::grid::row_dup(g, k) && !crate::grid::col_dup(
        g,
        k,
    ) && !crate::grid::box_dup(g, k) by {
        if crate::grid::row_dup(g, k) {
            let (c1, c2) = choose|c1: int, c2: int|
                0 <= c1 < 9 && 0 <= c2 < 9 && c1 != c2 && crate::grid::row_seq(g, k)[c1] != 0
                    && crate::grid::row_seq(g, k)[c1] == crate::grid::row_seq(g, k)[c2];
            lemma_cyclic_cell(p, k, c1);
            lemma_cyclic_cell(p, k, c2);
            let a = 3 * (k % 3) + k / 3;
            assert(0 <= 3 * (k % 3) + k / 3) by (nonlinear_arith)
                requires
                    0 <= k,
            ;
            if cyclic_shift(k, c1) == cyclic_shift(k, c2) {
                lemma_mod9_add_injective(a, c1, c2);
            }
            assert(false);
        }
        if crate::grid::col_dup(g, k) {
            let (r1, r2) = choose|r1: int, r2: int|
                0 <= r1 < 9 && 0 <= r2 < 9 && r1 != r2 && crate::grid::col_seq(g, k)[r1] != 0
                    && crate::grid::col_seq(g, k)[r1] == crate::grid::col_seq(g, k)[r2];
            lemma_cyclic_cell(p, r1, k);
            lemma_cyclic_cell(p, r2, k);
            let f1 = 3 * (r1 % 3) + r1 / 3;
            let f2 = 3 * (r2 % 3) + r2 / 3;
            assert(0 <= 3 * (r1 % 3) + r1 / 3 < 9 && 0 <= 3 * (r2 % 3) + r2 / 3 < 9)
                by (nonlinear_arith)
                requires
                    0 <= r1 < 9 && 0 <= r2 < 9,
            ;
            if cyclic_shift(r1, k) == cyclic_shift(r2, k) {
                lemma_mod9_add_injective(k, f1, f2);
                lemma_row_offset_injective(r1, r2);
            }
            assert(false);
        }
        if crate::grid::box_dup(g, k) {
            let (i1, i2) = choose|i1: int, i2: int|
                0 <= i1 < 9 && 0 <= i2 < 9 && i1 != i2 && crate::grid::box_seq(g, k)[i1] != 0
                    && crate::grid::box_seq(g, k)[i1] == crate::grid::box_seq(g, k)[i2];
            lemma_box_cell_bounds(k, i1);
            lemma_box_cell_bounds(k, i2);
            lemma_cyclic_box_shift(k, i1);
            lemma_cyclic_box_shift(k, i2);
            let r1 = 3 * (k / 3) + i1 / 3;
            let c1 = 3 * (k % 3) + i1 % 3;
            let r2 = 3 * (k / 3) + i2 / 3;
            let c2 = 3 * (k % 3) + i2 % 3;
            lemma_cyclic_cell(p, r1, c1);
            lemma_cyclic_cell(p, r2, c2);
            let base = 3 * (k % 3) + k / 3;
            assert(0 <= 3 * (k % 3) + k / 3) by (nonlinear_arith)
                requires
                    0 <= k,
            ;
            if cyclic_shift(r1, c1) == cyclic_shift(r2, c2) {
                lemma_mod9_add_injective(base, i1, i2);
            }
            assert(false);
        }
    }
    assert(valid(g));
    assert forall|c: int| 0 <= c < 9 implies cell(g, 0, c) == p[c] by {
        lemma_cyclic_cell(p, 0, c);
        vstd::arithmetic::div_mod::lemma_mod_self_0(9);
        assert(cyclic_shift(0, c) == c % 9);
        vstd::arithmetic::div_mod::lemma_small_mod(c as nat, 9);
    }
}

/// Inside box k, local cell i sits cyclic_shift-wise at offset
/// (3 * (k % 3) + k / 3) + i: the box walks the seed row cyclically too.
proof fn lemma_cyclic_box_shift(k: int, i: int)
    requires
        0 <= k < 9,
        0 <= i < 9,
    ensures
        cyclic_shift(3 * (k / 3) + i / 3, 3 * (k % 3) + i % 3) == ((3 * (k % 3) + k / 3) + i) % 9,
{
    let r = 3 * (k / 3) + i / 3;
    let c = 3 * (k % 3) + i % 3;
    lemma_box_cell_bounds(k, i);
    assert(0 <= k / 3 < 3 && 0 <= i / 3 < 3 && 0 <= k % 3 < 3 && 0 <= i % 3 < 3)
        by (nonlinear_arith)
        requires
            0 <= k < 9 && 0 <= i < 9,
    ;
    vstd::arithmetic::div_mod::lemma_fundamental_div_mod_converse(r, 3, k / 3, i / 3);
    assert(r % 3 == i / 3 && r / 3 == k / 3);
    vstd::arithmetic::div_mod::lemma_fundamental_div_mod(i, 3);
    assert(c + 3 * (r % 3) + r / 3 == (3 * (k % 3) + k / 3) + (3 * (i / 3) + i % 3));
}

impl Board {
    /// A uniformly seeded random solved grid: a shuffled first row completed
    /// by the search engine in Random mode. The seeded board always has a
    /// completion (its cyclic shift), so the search cannot fail.
    pub fn new() -> (b: Board)
        ensures
            wf(b@),
            solved(b@),
    {
        let mut rng = BoardRng::from_entropy();
        Self::create(&mut rng)
    }

    /// The generator with a fixed-seed random source, for reproducible runs.
    pub fn test_new() -> (b: Board)
        ensures
            wf(b@),
            solved(b@),
    {
        let mut rng = BoardRng::seeded(0);
        Self::create(&mut rng)
    }

    fn create(rng: &mut BoardRng) -> (b: Board)
        ensures
            wf(b@),
            solved(b@),
    {
        let mut digits: Vec<u8> = Vec::new();
        let mut d: u8 = 1;
        while d <= 9
            invariant
                1 <= d <= 10,
                digits@.len() == d - 1,
                forall|j: int| 0 <= j < d - 1 ==> #[trigger] digits@[j] == j + 1,
            decreases 10 - d,
        {
            digits.push(d);
            d += 1;
        }
        proof {
            assert(digits@.no_duplicates());
            assert forall|j: int| 0 <= j < 9 implies 1 <= #[trigger] digits@[j] <= 9 by {}
        }
        let ghost start = digits@;
        rng.shuffle(&mut digits);
        proof {
            lemma_permutation_preserves(start, digits@);
            assert forall|j: int| 0 <= j < 9 implies 1 <= #[trigger] digits@[j] <= 9 by {
                assert(digits@.contains(digits@[j]));
                assert(start.contains(digits@[j]));
                let jj = choose|jj: int| 0 <= jj < start.len() && start[jj] == digits@[j];
            }
        }
        let mut board = Board::default();
        let mut c: u8 = 0;
        while c < 9
            invariant
                c <= 9,
                wf(board@),
                digits@.len() == 9,
                forall|j: int| 0 <= j < 9 ==> 1 <= #[trigger] digits@[j] <= 9,
                digits@.no_duplicates(),
                forall|j: int| 0 <= j < c ==> board@[j] == digits@[j],
                forall|j: int| c <= j < 81 ==> board@[j] == 0,
            decreases 9 - c,
        {
            board.set_cell(0, c, digits[c as usize]);
            c += 1;
        }
        proof {
            lemma_cyclic_grid_solved(digits@);
            let s = cyclic_grid(digits@);
            assert(extends(s, board@)) by {
                assert forall|i: int| 0 <= i < 81 && board@[i] != 0 implies s[i] == board@[i] by {
                    assert(0 <= i < 9);
                    assert(cell(s, 0, i) == digits@[i]);
                }
            }
            assert(is_completion(s, board@));
        }
        match board.solve_rec(SolverOptions::Random, rng) {
            Ok(b) => b,
            Err(_) => {
                // unreachable: the seeded board provably has a completion, and
                // in Random mode the search reports NoSolution only when none
                // exists and never reports MultipleSolutions
                proof {
                    assert(false);
                }
                board
            },
        }
    }
}

} // verus!
