//! The 9x9 grid: representation, well-formedness, and the mathematical
//! model (validity, fullness, completions) that every contract speaks of.

use vstd::prelude::*;

verus! {

/// A 9x9 Sudoku grid stored row-major: cell (r, c) sits at index r * 9 + c.
/// A cell holds 0 (empty) or a digit 1..=9.
#[derive(Debug)]
pub struct Board {
    cells: Vec<u8>,
}

/// The grid with every cell empty.
pub open spec fn empty_grid() -> Seq<u8> {
    Seq::new(81, |i: int| 0u8)
}

/// Shape and range of a grid: 81 cells, each one 0..=9.
pub open spec fn wf(g: Seq<u8>) -> bool {
    g.len() == 81 && forall|i: int| 0 <= i < 81 ==> g[i] <= 9
}

/// The value of cell (r, c).
pub open spec fn cell(g: Seq<u8>, r: int, c: int) -> u8 {
    g[r * 9 + c]
}

/// The nine cells of row r, left to right.
pub open spec fn row_seq(g: Seq<u8>, r: int) -> Seq<u8> {
    Seq::new(9, |c: int| cell(g, r, c))
}

/// The nine cells of column c, top to bottom.
pub open spec fn col_seq(g: Seq<u8>, c: int) -> Seq<u8> {
    Seq::new(9, |r: int| cell(g, r, c))
}

/// The i-th cell (0..9, row-major within the box) of box b (0..9).
pub open spec fn box_cell(g: Seq<u8>, b: int, i: int) -> u8 {
    cell(g, 3 * (b / 3) + i / 3, 3 * (b % 3) + i % 3)
}

/// The box (0..9) that cell (r, c) belongs to.
pub open spec fn box_of(r: int, c: int) -> int {
    3 * (r / 3) + c / 3
}

/// The nine cells of box b, row-major within the box.
pub open spec fn box_seq(g: Seq<u8>, b: int) -> Seq<u8> {
    Seq::new(9, |i: int| box_cell(g, b, i))
}

/// Every position of s holds a digit (no empty cell).
pub open spec fn line_full(s: Seq<u8>) -> bool {
    forall|i: int| 0 <= i < s.len() ==> s[i] != 0
}

/// Some nonzero value occurs at two different positions of s.
pub open spec fn seq_has_dup(s: Seq<u8>) -> bool {
    exists|i1: int, i2: int|
        0 <= i1 < s.len() && 0 <= i2 < s.len() && i1 != i2 && s[i1] != 0 && s[i1] == s[i2]
}

/// Digit d occurs somewhere in row r.
pub open spec fn digit_in_row(g: Seq<u8>, r: int, d: u8) -> bool {
    row_seq(g, r).contains(d)
}

/// Digit d occurs somewhere in column c.
pub open spec fn digit_in_col(g: Seq<u8>, c: int, d: u8) -> bool {
    col_seq(g, c).contains(d)
}

/// Digit d occurs somewhere in box b.
pub open spec fn digit_in_box(g: Seq<u8>, b: int, d: u8) -> bool {
    box_seq(g, b).contains(d)
}

/// Some nonzero digit occurs twice in row r.
pub open spec fn row_dup(g: Seq<u8>, r: int) -> bool {
    seq_has_dup(row_seq(g, r))
}

/// Some nonzero digit occurs twice in column c.
pub open spec fn col_dup(g: Seq<u8>, c: int) -> bool {
    seq_has_dup(col_seq(g, c))
}

/// Some nonzero digit occurs twice in box b.
pub open spec fn box_dup(g: Seq<u8>, b: int) -> bool {
    seq_has_dup(box_seq(g, b))
}

/// No nonzero digit repeats in any row, column, or box.
pub open spec fn valid(g: Seq<u8>) -> bool {
    forall|k: int| 0 <= k < 9 ==> !row_dup(g, k) && !col_dup(g, k) && !box_dup(g, k)
}

/// Every cell holds a digit (no empty cell).
pub open spec fn full(g: Seq<u8>) -> bool {
    forall|i: int| 0 <= i < 81 ==> g[i] != 0
}

/// A fully filled, duplicate-free grid.
pub open spec fn solved(g: Seq<u8>) -> bool {
    wf(g) && full(g) && valid(g)
}

/// s agrees with g on every filled cell of g.
pub open spec fn extends(s: Seq<u8>, g: Seq<u8>) -> bool {
    forall|i: int| 0 <= i < 81 && g[i] != 0 ==> s[i] == g[i]
}

/// s is a solution of the puzzle g: solved, and it keeps every clue of g.
pub open spec fn is_completion(s: Seq<u8>, g: Seq<u8>) -> bool {
    solved(s) && extends(s, g)
}

/// The grid has at least two different completions.
pub open spec fn ambiguous(g: Seq<u8>) -> bool {
    exists|s1: Seq<u8>, s2: Seq<u8>|
        is_completion(s1, g) && is_completion(s2, g) && s1 != s2
}

/// g2 is g1 with some cells cleared: every cell is kept or set to 0.
pub open spec fn clears(g2: Seq<u8>, g1: Seq<u8>) -> bool {
    g2.len() == g1.len() && forall|i: int| 0 <= i < g1.len() ==> g2[i] == g1[i] || g2[i] == 0
}

/// a is strictly below b at position k of the row-major order: they agree
/// before k and a is smaller there.
pub open spec fn lex_lt_at(a: Seq<u8>, b: Seq<u8>, k: int) -> bool {
    &&& 0 <= k < a.len()
    &&& a.len() == b.len()
    &&& a[k] < b[k]
    &&& forall|j: int| 0 <= j < k ==> a[j] == b[j]
}

/// Row-major lexicographic order on grids.
pub open spec fn lex_le(a: Seq<u8>, b: Seq<u8>) -> bool {
    a == b || exists|k: int| lex_lt_at(a, b, k)
}

/// Number of empty cells; the solver's recursion measure.
pub open spec fn count_zeros(g: Seq<u8>) -> nat
    decreases g.len(),
{
    if g.len() == 0 {
        0
    } else {
        count_zeros(g.drop_last()) + if g.last() == 0 {
            1nat
        } else {
            0nat
        }
    }
}

/// A cleared grid keeps every completion of the grid it came from: a
/// completion honours every surviving clue.
pub proof fn lemma_clears_completion(s: Seq<u8>, g: Seq<u8>, g2: Seq<u8>)
    requires
        g.len() == 81,
        is_completion(s, g),
        clears(g2, g),
    ensures
        is_completion(s, g2),
{
    assert forall|i: int| 0 <= i < 81 && g2[i] != 0 implies s[i] == g2[i] by {
        assert(g2[i] == g[i]);
    }
}

/// Clearing on top of clearing still only clears.
pub proof fn lemma_clears_trans(g3: Seq<u8>, g2: Seq<u8>, g1: Seq<u8>)
    requires
        clears(g3, g2),
        clears(g2, g1),
    ensures
        clears(g3, g1),
{
}

/// A grid has no empty cell exactly when its zero count vanishes.
pub proof fn lemma_count_zeros_zero(g: Seq<u8>)
    ensures
        (count_zeros(g) == 0) <==> (forall|i: int| 0 <= i < g.len() ==> g[i] != 0),
    decreases g.len(),
{
    if g.len() > 0 {
        lemma_count_zeros_zero(g.drop_last());
        if count_zeros(g) == 0 {
            assert forall|i: int| 0 <= i < g.len() implies g[i] != 0 by {
                if i < g.len() - 1 {
                    assert(g.drop_last()[i] == g[i]);
                }
            }
        }
        if forall|i: int| 0 <= i < g.len() ==> g[i] != 0 {
            assert forall|i: int| 0 <= i < g.len() - 1 implies g.drop_last()[i] != 0 by {
                assert(g.drop_last()[i] == g[i]);
            }
        }
    }
}

/// Clearing one filled cell adds exactly one empty cell.
pub proof fn lemma_count_zeros_clear(g: Seq<u8>, idx: int)
    requires
        0 <= idx < g.len(),
        g[idx] != 0,
    ensures
        count_zeros(g.update(idx, 0)) == count_zeros(g) + 1,
    decreases g.len(),
{
    let g2 = g.update(idx, 0);
    if idx == g.len() - 1 {
        assert(g2.drop_last() =~= g.drop_last());
        assert(g2.last() == 0 && g.last() != 0);
    } else {
        assert(g2.drop_last() =~= g.drop_last().update(idx, 0));
        lemma_count_zeros_clear(g.drop_last(), idx);
        assert(g2.last() == g.last());
    }
}

impl View for Board {
    type V = Seq<u8>;

    closed spec fn view(&self) -> Seq<u8> {
        self.cells@
    }
}

impl Board {
    /// Builds a grid from 81 row-major values; rejects a wrong length or a
    /// value above 9. No duplicate check is made: an externally supplied
    /// grid must be vetted with check_all or a solve before it is trusted.
    pub fn from_values(values: Vec<u8>) -> (r: Option<Board>)
        ensures
            match r {
                Some(b) => b@ == values@ && wf(b@),
                _ => !wf(values@),
            },
    {
        if values.len() != 81 {
            return Option::None;
        }
        let mut i: usize = 0;
        while i < 81
            invariant
                values@.len() == 81,
                0 <= i <= 81,
                forall|j: int| 0 <= j < i ==> values@[j] <= 9,
            decreases 81 - i,
        {
            if values[i] > 9 {
                return Option::None;
            }
            i += 1;
        }
        Some(Board { cells: values })
    }

    /// The 81 cell values, row-major.
    pub fn to_values(&self) -> (r: Vec<u8>)
        requires
            wf(self@),
        ensures
            r@ == self@,
    {
        let mut out: Vec<u8> = Vec::new();
        let mut i: usize = 0;
        while i < 81
            invariant
                wf(self@),
                0 <= i <= 81,
                out@.len() == i,
                forall|j: int| 0 <= j < i ==> out@[j] == self@[j],
            decreases 81 - i,
        {
            out.push(self.cells[i]);
            i += 1;
        }
        assert(out@ =~= self@);
        out
    }

    /// The value at (row, column), both 0-based and below 9.
    pub fn value_at(&self, row: u8, column: u8) -> (r: u8)
        requires
            wf(self@),
            row < 9,
            column < 9,
        ensures
            r == cell(self@, row as int, column as int),
    {
        self.cells[row as usize * 9 + column as usize]
    }

    pub(crate) fn set_cell(&mut self, row: u8, column: u8, value: u8)
        requires
            wf(old(self)@),
            row < 9,
            column < 9,
            value <= 9,
        ensures
            final(self)@ == old(self)@.update(row as int * 9 + column as int, value),
            wf(final(self)@),
    {
        self.cells[row as usize * 9 + column as usize] = value;
    }
}

impl Default for Board {
    /// The empty grid: 81 zeroes.
    fn default() -> (b: Board)
        ensures
            b@ == empty_grid(),
            wf(b@),
    {
        let mut cells: Vec<u8> = Vec::new();
        let mut i: usize = 0;
        while i < 81
            invariant
                0 <= i <= 81,
                cells@.len() == i,
                forall|j: int| 0 <= j < i ==> cells@[j] == 0,
            decreases 81 - i,
        {
            cells.push(0);
            i += 1;
        }
        assert(cells@ =~= empty_grid());
        Board { cells }
    }
}

impl Clone for Board {
    /// A copy with the same cells; the solver and the reducer branch on copies.
    fn clone(&self) -> (b: Board)
        ensures
            b@ == self@,
    {
        let mut cells: Vec<u8> = Vec::new();
        let mut i: usize = 0;
        while i < self.cells.len()
            invariant
                0 <= i <= self.cells@.len(),
                cells@.len() == i,
                forall|j: int| 0 <= j < i ==> cells@[j] == self.cells@[j],
            decreases self.cells@.len() - i,
        {
            cells.push(self.cells[i]);
            i += 1;
        }
        assert(cells@ =~= self.cells@);
        Board { cells }
    }
}

impl PartialEq for Board {
    /// Structural equality: every cell matches.
    fn eq(&self, other: &Board) -> (r: bool) {
        if self.cells.len() != other.cells.len() {
            return false;
        }
        let mut i: usize = 0;
        while i < self.cells.len()
            invariant
                self.cells@.len() == other.cells@.len(),
                0 <= i <= self.cells@.len(),
                forall|j: int| 0 <= j < i ==> self.cells@[j] == other.cells@[j],
            decreases self.cells@.len() - i,
        {
            if self.cells[i] != other.cells[i] {
                assert(self.cells@ != other.cells@);
                return false;
            }
            i += 1;
        }
        assert(self.cells@ =~= other.cells@);
        true
    }
}

impl vstd::std_specs::cmp::PartialEqSpecImpl for Board {
    open spec fn obeys_eq_spec() -> bool {
        true
    }

    open spec fn eq_spec(&self, other: &Board) -> bool {
        self@ == other@
    }
}

impl Eq for Board {

}

} // verus!
