//! Laws that tie the components' contracts together.

use vstd::prelude::*;

use crate::checker::lemma_nine_cells;
use crate::generator::{cyclic_grid, lemma_cyclic_grid_solved};
use crate::grid::{
    ambiguous, cell, clears, empty_grid, extends, is_completion, lemma_clears_completion, lex_le,
    lex_lt_at, line_full, row_dup, row_seq, solved,
};

verus! {

/// The empty grid is ambiguous: two different solved grids complete it, so
/// by the solver's contract an exhaustive solve of it can only report
/// MultipleSolutions.
pub proof fn lemma_empty_grid_ambiguous()
    ensures
        ambiguous(empty_grid()),
{
    let p1 = seq![1u8, 2u8, 3u8, 4u8, 5u8, 6u8, 7u8, 8u8, 9u8];
    let p2 = seq![2u8, 1u8, 3u8, 4u8, 5u8, 6u8, 7u8, 8u8, 9u8];
    assert(p1[0] == 1 && p1[1] == 2 && p1[2] == 3 && p1[3] == 4 && p1[4] == 5 && p1[5] == 6
        && p1[6] == 7 && p1[7] == 8 && p1[8] == 9);
    assert(p2[0] == 2 && p2[1] == 1 && p2[2] == 3 && p2[3] == 4 && p2[4] == 5 && p2[5] == 6
        && p2[6] == 7 && p2[7] == 8 && p2[8] == 9);
    assert forall|j: int| 0 <= j < 9 implies 1 <= #[trigger] p1[j] <= 9 && 1 <= #[trigger] p2[j]
        <= 9 by {}
    assert forall|j1: int, j2: int| 0 <= j1 < j2 < 9 implies p1[j1] != p1[j2] && p2[j1]
        != p2[j2] by {}
    lemma_cyclic_grid_solved(p1);
    lemma_cyclic_grid_solved(p2);
    let s1 = cyclic_grid(p1);
    let s2 = cyclic_grid(p2);
    assert(extends(s1, empty_grid()) && extends(s2, empty_grid()));
    assert(cell(s1, 0, 0) == 1 && cell(s2, 0, 0) == 2);
    assert(s1 != s2) by {
        if s1 == s2 {
            assert(cell(s1, 0, 0) == cell(s2, 0, 0));
        }
    }
    assert(is_completion(s1, empty_grid()) && is_completion(s2, empty_grid()) && s1 != s2);
    assert(ambiguous(empty_grid()));
}

/// Clearing any set of cells of a solved grid leaves a puzzle that the
/// solved grid itself still completes. Together with the solver's contract
/// this says an exhaustive re-solve of such a puzzle reports a unique or an
/// ambiguous grid, never an unsolvable one.
pub proof fn lemma_cleared_solved_grid_completable(orig: Seq<u8>, cleared: Seq<u8>)
    requires
        solved(orig),
        clears(cleared, orig),
    ensures
        is_completion(orig, cleared),
{
    assert(is_completion(orig, orig));
    lemma_clears_completion(orig, orig, cleared);
}

/// The monotonicity the reducer's batching exploits, one direction: clearing
/// cells never loses a completion, so when a grid with more cells cleared
/// still has a unique completion, every grid that clears fewer of the same
/// cells is uniquely completable too, and by the same grid.
pub proof fn lemma_uniqueness_monotone(g1: Seq<u8>, g2: Seq<u8>, w: Seq<u8>)
    requires
        g1.len() == 81,
        clears(g2, g1),
        forall|s: Seq<u8>| #[trigger] is_completion(s, g2) ==> s == w,
    ensures
        forall|s: Seq<u8>| #[trigger] is_completion(s, g1) ==> s == w,
{
    assert forall|s: Seq<u8>| #[trigger] is_completion(s, g1) implies s == w by {
        lemma_clears_completion(s, g1, g2);
    }
}

/// The other direction: once uniqueness is broken, clearing more cells never
/// restores it - both completions survive every further clearing.
pub proof fn lemma_ambiguity_persists(g1: Seq<u8>, g2: Seq<u8>)
    requires
        g1.len() == 81,
        clears(g2, g1),
        ambiguous(g1),
    ensures
        ambiguous(g2),
{
    let (s1, s2) = choose|s1: Seq<u8>, s2: Seq<u8>|
        is_completion(s1, g1) && is_completion(s2, g1) && s1 != s2;
    lemma_clears_completion(s1, g1, g2);
    lemma_clears_completion(s2, g1, g2);
    assert(is_completion(s1, g2) && is_completion(s2, g2) && s1 != s2);
}

/// The single-cell case: a solved grid with one cell emptied is always
/// completable, at least by the grid it came from.
pub proof fn lemma_single_removal_completable(orig: Seq<u8>, idx: int)
    requires
        solved(orig),
        0 <= idx < 81,
    ensures
        is_completion(orig, orig.update(idx, 0)),
{
    assert(clears(orig.update(idx, 0), orig));
    lemma_cleared_solved_grid_completable(orig, orig.update(idx, 0));
}

/// Clearing a single cell of a solved grid never breaks uniqueness: the
/// other eight digits of the cell's row force the cleared digit back, so
/// the solved grid is the only completion of the one-cell puzzle.
pub proof fn lemma_single_removal_unique(orig: Seq<u8>, idx: int)
    requires
        solved(orig),
        0 <= idx < 81,
    ensures
        is_completion(orig, orig.update(idx, 0)),
        forall|s: Seq<u8>| #[trigger] is_completion(s, orig.update(idx, 0)) ==> s == orig,
        !ambiguous(orig.update(idx, 0)),
{
    lemma_single_removal_completable(orig, idx);
    let cleared = orig.update(idx, 0);
    let r = idx / 9;
    let c = idx % 9;
    vstd::arithmetic::div_mod::lemma_fundamental_div_mod(idx, 9);
    vstd::arithmetic::div_mod::lemma_mod_bound(idx, 9);
    assert(0 <= r < 9 && 0 <= c < 9) by (nonlinear_arith)
        requires
            0 <= idx < 81 && r == idx / 9 && c == idx % 9,
    ;
    assert forall|s: Seq<u8>| #[trigger] is_completion(s, cleared) implies s == orig by {
        assert forall|m: int| 0 <= m < 81 && m != idx implies s[m] == orig[m] by {
            assert(cleared[m] == orig[m]);
        }
        // the row of the cleared cell in s holds all nine digits
        let line = row_seq(s, r);
        assert(line.len() == 9 && (forall|i: int| 0 <= i < 9 ==> line[i] <= 9)) by {
            assert forall|i: int| 0 <= i < 9 implies line[i] <= 9 by {
                assert(line[i] == s[r * 9 + i]);
            }
        }
        assert(!row_dup(s, r));
        lemma_nine_cells(line);
        assert(line_full(line)) by {
            assert forall|i: int| 0 <= i < 9 implies line[i] != 0 by {
                assert(line[i] == s[r * 9 + i]);
            }
        }
        assert(1 <= orig[idx] <= 9);
        assert(line.contains(orig[idx]));
        let c2 = choose|c2: int| 0 <= c2 < line.len() && line[c2] == orig[idx];
        if c2 != c {
            // the digit would then already stand elsewhere in the row of the
            // original grid, clashing with its copy at idx
            assert(r * 9 + c2 != idx);
            assert(s[r * 9 + c2] == orig[r * 9 + c2]);
            assert(row_seq(orig, r)[c2] == orig[idx] && row_seq(orig, r)[c] == orig[idx]);
            assert(row_dup(orig, r));
            assert(false);
        }
        assert(s[idx] == orig[idx]);
        assert(s =~= orig);
    }
    if ambiguous(cleared) {
        let (s1, s2) = choose|s1: Seq<u8>, s2: Seq<u8>|
            is_completion(s1, cleared) && is_completion(s2, cleared) && s1 != s2;
        assert(s1 == orig && s2 == orig);
    }
}

/// The row-major lexicographic order is antisymmetric, so the least
/// completion that the deterministic solver modes return is unique: two
/// non-Random solves of equal grids return the same grid.
pub proof fn lemma_lex_le_antisymmetric(a: Seq<u8>, b: Seq<u8>)
    requires
        lex_le(a, b),
        lex_le(b, a),
    ensures
        a == b,
{
    if a != b {
        let k1 = choose|k: int| lex_lt_at(a, b, k);
        let k2 = choose|k: int| lex_lt_at(b, a, k);
        if k1 < k2 {
            assert(b[k1] == a[k1]);
        } else if k2 < k1 {
            assert(a[k2] == b[k2]);
        }
        assert(false);
    }
}

/// Determinism of the non-Random modes, spelled out: any two grids that are
/// both lex-least completions of the same puzzle coincide.
pub proof fn lemma_deterministic_result_unique(g: Seq<u8>, b1: Seq<u8>, b2: Seq<u8>)
    requires
        is_completion(b1, g),
        forall|s: Seq<u8>| is_completion(s, g) ==> lex_le(b1, s),
        is_completion(b2, g),
        forall|s: Seq<u8>| is_completion(s, g) ==> lex_le(b2, s),
    ensures
        b1 == b2,
{
    lemma_lex_le_antisymmetric(b1, b2);
}

} // verus!
