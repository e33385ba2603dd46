//! The constraint checker: for a row, a column or a box it reports which
//! digits are already used, detects duplicates, and hands the solver the
//! complement as a candidate bitmask.

use vstd::prelude::*;

use crate::grid::{
    Board, box_cell, box_dup, box_of, box_seq, cell, col_dup, col_seq, digit_in_box, digit_in_col,
    digit_in_row, line_full, row_dup, row_seq, seq_has_dup, valid, wf,
};

verus! {

/// The state of one constraint line (a row, a column or a box).
#[derive(Debug)]
pub enum Check {
    /// All nine digits present, none repeated.
    Full,
    /// No digit repeated; bit k of the payload is set iff digit k + 1 is
    /// still unused along the line.
    Remaining(u16),
    /// Some nonzero digit appears at least twice along the line.
    Duplicates,
}

/// The mask with one bit per digit 1..=9, all set.
pub const MASK_ALL: u16 = 0x1FF;

/// Digit d (1..=9) is present in mask m: bit d - 1 is set.
pub open spec fn mask_has(m: u16, d: u8) -> bool {
    m & (1u16 << ((d - 1) as u16)) != 0
}

/// Digit d could be written at (row, col): no line that constrains the cell
/// already holds it. An out-of-range row or column constrains nothing.
pub open spec fn avail(g: Seq<u8>, row: int, col: int, d: u8) -> bool {
    &&& (0 <= row < 9 ==> !digit_in_row(g, row, d))
    &&& (0 <= col < 9 ==> !digit_in_col(g, col, d))
    &&& (0 <= row < 9 && 0 <= col < 9 ==> !digit_in_box(g, box_of(row, col), d))
}

/// Some line that constrains cell (row, col) holds a duplicate.
pub open spec fn line_dup_at(g: Seq<u8>, row: int, col: int) -> bool {
    ||| (0 <= row < 9 && row_dup(g, row))
    ||| (0 <= col < 9 && col_dup(g, col))
    ||| (0 <= row < 9 && 0 <= col < 9 && box_dup(g, box_of(row, col)))
}

proof fn lemma_bit_or(m: u16, k: u16, j: u16)
    requires
        k < 9,
        j < 9,
    ensures
        ((m | (1u16 << k)) & (1u16 << j) != 0) <==> ((m & (1u16 << j) != 0) || j == k),
{
    assert(((m | (1u16 << k)) & (1u16 << j) != 0) <==> ((m & (1u16 << j) != 0) || j == k))
        by (bit_vector)
        requires
            k < 9,
            j < 9,
    ;
}

proof fn lemma_bit_and(a: u16, b: u16, j: u16)
    requires
        j < 9,
    ensures
        ((a & b) & (1u16 << j) != 0) <==> ((a & (1u16 << j) != 0) && (b & (1u16 << j) != 0)),
{
    assert(((a & b) & (1u16 << j) != 0) <==> ((a & (1u16 << j) != 0) && (b & (1u16 << j) != 0)))
        by (bit_vector);
}

proof fn lemma_bit_all(j: u16)
    requires
        j < 9,
    ensures
        0x1FFu16 & (1u16 << j) != 0,
        !(0u16 & (1u16 << j) != 0),
{
    assert(0x1FFu16 & (1u16 << j) != 0 && !(0u16 & (1u16 << j) != 0)) by (bit_vector)
        requires
            j < 9,
    ;
}

proof fn lemma_bit_complement(v: u16, j: u16)
    requires
        j < 9,
    ensures
        ((v ^ 0x1FFu16) & (1u16 << j) != 0) <==> (v & (1u16 << j) == 0),
{
    assert(((v ^ 0x1FFu16) & (1u16 << j) != 0) <==> (v & (1u16 << j) == 0)) by (bit_vector)
        requires
            j < 9,
    ;
}

proof fn lemma_mask_saturated(v: u16)
    requires
        v < 0x200,
        forall|d: u8| 1 <= d <= 9 ==> #[trigger] mask_has(v, d),
    ensures
        v == 0x1FF,
{
    assert(mask_has(v, 1) && mask_has(v, 2) && mask_has(v, 3) && mask_has(v, 4) && mask_has(v, 5)
        && mask_has(v, 6) && mask_has(v, 7) && mask_has(v, 8) && mask_has(v, 9));
    assert(v == 0x1FF) by (bit_vector)
        requires
            v < 0x200,
            v & (1u16 << 0u16) != 0,
            v & (1u16 << 1u16) != 0,
            v & (1u16 << 2u16) != 0,
            v & (1u16 << 3u16) != 0,
            v & (1u16 << 4u16) != 0,
            v & (1u16 << 5u16) != 0,
            v & (1u16 << 6u16) != 0,
            v & (1u16 << 7u16) != 0,
            v & (1u16 << 8u16) != 0,
    ;
}

/// Nine duplicate-free cells with values 0..=9 hold every digit 1..=9
/// exactly when none of them is empty.
pub proof fn lemma_nine_cells(s: Seq<u8>)
    requires
        s.len() == 9,
        forall|i: int| 0 <= i < 9 ==> s[i] <= 9,
        !seq_has_dup(s),
    ensures
        (forall|d: u8| 1 <= d <= 9 ==> s.contains(d)) <==> line_full(s),
{
    broadcast use vstd::set_lib::group_set_properties;
    broadcast use vstd::seq_lib::seq_to_set_is_finite;

    let f = |v: u8| v as int;
    let t = s.map_values(f);
    assert(vstd::relations::injective(f));
    assert(t.len() == 9);
    if forall|d: u8| 1 <= d <= 9 ==> s.contains(d) {
        // every digit occurs; if some cell were empty the nine cells would
        // carry ten distinct values
        if exists|i: int| 0 <= i < 9 && s[i] == 0 {
            assert forall|x: int| vstd::set_lib::set_int_range(0, 10).contains(x) implies t.to_set().contains(
                x,
            ) by {
                if x == 0 {
                    let i = choose|i: int| 0 <= i < 9 && s[i] == 0;
                    assert(t[i] == 0);
                    assert(t.contains(x));
                } else {
                    assert(s.contains(x as u8));
                    let i = choose|i: int| 0 <= i < s.len() && s[i] == x as u8;
                    assert(t[i] == x);
                    assert(t.contains(x));
                }
            }
            vstd::set_lib::lemma_int_range(0, 10);
            vstd::set_lib::lemma_len_subset(
                vstd::set_lib::set_int_range(0, 10),
                t.to_set(),
            );
            t.lemma_cardinality_of_set();
            assert(false);
        }
    }
    if line_full(s) {
        // nine distinct digits out of nine possible: all of them occur
        assert(s.no_duplicates());
        s.lemma_no_duplicates_injective(f);
        t.unique_seq_to_set();
        assert(t.to_set().len() == 9);
        assert forall|x: int| t.to_set().contains(x) implies vstd::set_lib::set_int_range(
            1,
            10,
        ).contains(x) by {
            let i = choose|i: int| 0 <= i < t.len() && t[i] == x;
            assert(s[i] != 0 && s[i] <= 9);
        }
        vstd::set_lib::lemma_int_range(1, 10);
        vstd::set_lib::lemma_subset_equality(t.to_set(), vstd::set_lib::set_int_range(1, 10));
        assert forall|d: u8| 1 <= d <= 9 implies s.contains(d) by {
            assert(t.to_set().contains(d as int));
            assert(t.contains(d as int));
            let i = choose|i: int| 0 <= i < t.len() && t[i] == d as int;
            assert(s[i] == d);
        }
    }
}

impl Board {
    /// Scans nine cell values, accumulating a bitmask of the digits seen:
    /// the sole pruning primitive. Reports a repeated digit the moment the
    /// second copy is met.
    pub fn check_slice(slice: &[u8]) -> (r: Check)
        requires
            slice@.len() == 9,
            forall|i: int| 0 <= i < 9 ==> slice@[i] <= 9,
        ensures
            (r is Duplicates <==> seq_has_dup(slice@)),
            (r is Full <==> (!seq_has_dup(slice@) && line_full(slice@))),
            (r matches Check::Remaining(m) ==> !seq_has_dup(slice@) && m != 0 && m < 0x200 && (
            exists|i: int| 0 <= i < 9 && slice@[i] == 0) && (forall|d: u8|
                1 <= d <= 9 ==> (#[trigger] mask_has(m, d) <==> !slice@.contains(d)))),
    {
        let mut values: u16 = 0;
        let mut j: usize = 0;
        proof {
            assert forall|d: u8| 1 <= d <= 9 implies !mask_has(0u16, d) by {
                lemma_bit_all((d - 1) as u16);
            }
        }
        while j < 9
            invariant
                slice@.len() == 9,
                forall|i: int| 0 <= i < 9 ==> slice@[i] <= 9,
                j <= 9,
                values < 0x200,
                forall|d: u8|
                    1 <= d <= 9 ==> (#[trigger] mask_has(values, d) <==> exists|i: int|
                        0 <= i < j && slice@[i] == d),
                forall|i1: int, i2: int|
                    0 <= i1 < j && 0 <= i2 < j && i1 != i2 && slice@[i1] != 0 ==> slice@[i1]
                        != slice@[i2],
            decreases 9 - j,
        {
            let value = slice[j];
            if value != 0 {
                let k: u16 = (value - 1) as u16;
                let bit: u16 = 1u16 << k;
                if values & bit != 0 {
                    proof {
                        assert(mask_has(values, value));
                        let i = choose|i: int| 0 <= i < j && slice@[i] == value;
                        assert(slice@[i] == slice@[j as int] && i != j as int && slice@[i] != 0);
                        assert(seq_has_dup(slice@));
                    }
                    return Check::Duplicates;
                }
                proof {
                    assert forall|d: u8| 1 <= d <= 9 implies (#[trigger] mask_has(values | bit, d)
                        <==> exists|i: int| 0 <= i < j + 1 && slice@[i] == d) by {
                        let dd = (d - 1) as u16;
                        lemma_bit_or(values, k, dd);
                        assert(mask_has(values | bit, d) == ((values | bit) & (1u16 << dd) != 0));
                        assert(mask_has(values, d) == (values & (1u16 << dd) != 0));
                        if mask_has(values | bit, d) {
                            if dd == k {
                                assert(d == value);
                                assert(0 <= (j as int) < j + 1 && slice@[j as int] == d);
                            } else {
                                assert(mask_has(values, d));
                                let i = choose|i: int| 0 <= i < j && slice@[i] == d;
                                assert(0 <= i < j + 1 && slice@[i] == d);
                            }
                        }
                        if exists|i: int| 0 <= i < j + 1 && slice@[i] == d {
                            let i = choose|i: int| 0 <= i < j + 1 && slice@[i] == d;
                            if i == j as int {
                                assert(d == value);
                                assert(dd == k);
                                assert((values | bit) & (1u16 << dd) != 0);
                            } else {
                                assert(0 <= i < j && slice@[i] == d);
                                assert(mask_has(values, d));
                                assert((values | bit) & (1u16 << dd) != 0);
                            }
                            assert(mask_has(values | bit, d));
                        }
                    }
                    assert(values | bit < 0x200) by (bit_vector)
                        requires
                            values < 0x200,
                            bit == 1u16 << k,
                            k < 9,
                    ;
                    assert forall|i1: int, i2: int|
                        0 <= i1 < j + 1 && 0 <= i2 < j + 1 && i1 != i2 && slice@[i1] != 0 implies slice@[i1]
                        != slice@[i2] by {
                        if i2 == j as int && slice@[i1] == slice@[i2] {
                            assert(mask_has(values, value));
                        }
                        if i1 == j as int && slice@[i1] == slice@[i2] {
                            assert(mask_has(values, value));
                        }
                    }
                }
                values = values | bit;
            } else {
                proof {
                    assert forall|d: u8| 1 <= d <= 9 implies (#[trigger] mask_has(values, d) <==>
                        exists|i: int| 0 <= i < j + 1 && slice@[i] == d) by {
                        if exists|i: int| 0 <= i < j + 1 && slice@[i] == d {
                            let i = choose|i: int| 0 <= i < j + 1 && slice@[i] == d;
                            assert(i < j);
                        }
                    }
                }
            }
            j += 1;
        }
        proof {
            assert(!seq_has_dup(slice@));
        }
        let remaining = values ^ MASK_ALL;
        if remaining == 0 {
            proof {
                assert(values == 0x1FF) by (bit_vector)
                    requires
                        values ^ 0x1FFu16 == 0,
                ;
                assert forall|d: u8| 1 <= d <= 9 implies slice@.contains(d) by {
                    lemma_bit_all((d - 1) as u16);
                    assert(mask_has(values, d));
                    let i = choose|i: int| 0 <= i < 9 && slice@[i] == d;
                    assert(slice@[i] == d);
                }
                lemma_nine_cells(slice@);
            }
            Check::Full
        } else {
            proof {
                if line_full(slice@) {
                    lemma_nine_cells(slice@);
                    assert forall|d: u8| 1 <= d <= 9 implies #[trigger] mask_has(values, d) by {
                        assert(slice@.contains(d));
                        let i = choose|i: int| 0 <= i < slice@.len() && slice@[i] == d;
                        assert(exists|i: int| 0 <= i < 9 && slice@[i] == d);
                    }
                    lemma_mask_saturated(values);
                    assert(values ^ 0x1FFu16 == 0) by (bit_vector)
                        requires
                            values == 0x1FF,
                    ;
                    assert(false);
                }
                assert(remaining < 0x200 && remaining != 0) by (bit_vector)
                    requires
                        values < 0x200,
                        remaining == values ^ 0x1FFu16,
                        remaining != 0,
                ;
                assert forall|d: u8| 1 <= d <= 9 implies (#[trigger] mask_has(remaining, d) <==>
                    !slice@.contains(d)) by {
                    lemma_bit_complement(values, (d - 1) as u16);
                    if !mask_has(values, d) {
                        assert(!exists|i: int| 0 <= i < 9 && slice@[i] == d);
                    }
                    if mask_has(values, d) {
                        let i = choose|i: int| 0 <= i < 9 && slice@[i] == d;
                        assert(slice@.contains(d));
                    }
                }
            }
            Check::Remaining(remaining)
        }
    }

    /// The Check of row `row`; out-of-range rows count as unconstrained.
    pub fn check_row(&self, row: u8) -> (r: Check)
        requires
            wf(self@),
        ensures
            row >= 9 ==> r == Check::Remaining(MASK_ALL),
            row < 9 ==> (r is Duplicates <==> row_dup(self@, row as int)),
            row < 9 ==> (r is Full <==> (!row_dup(self@, row as int) && line_full(
                row_seq(self@, row as int),
            ))),
            row < 9 ==> (r matches Check::Remaining(m) ==> !row_dup(self@, row as int) && m != 0
                && m < 0x200 && forall|d: u8|
                1 <= d <= 9 ==> (#[trigger] mask_has(m, d) <==> !digit_in_row(
                    self@,
                    row as int,
                    d,
                ))),
    {
        if row >= 9 {
            return Check::Remaining(MASK_ALL);
        }
        let mut vals: Vec<u8> = Vec::new();
        let mut c: u8 = 0;
        while c < 9
            invariant
                wf(self@),
                row < 9,
                c <= 9,
                vals@.len() == c as int,
                forall|j: int| 0 <= j < c ==> vals@[j] == cell(self@, row as int, j),
            decreases 9 - c,
        {
            vals.push(self.value_at(row, c));
            c += 1;
        }
        proof {
            assert(vals@ =~= row_seq(self@, row as int));
        }
        Self::check_slice(vals.as_slice())
    }

    /// The Check of column `column`; out-of-range columns count as unconstrained.
    pub fn check_column(&self, column: u8) -> (r: Check)
        requires
            wf(self@),
        ensures
            column >= 9 ==> r == Check::Remaining(MASK_ALL),
            column < 9 ==> (r is Duplicates <==> col_dup(self@, column as int)),
            column < 9 ==> (r is Full <==> (!col_dup(self@, column as int) && line_full(
                col_seq(self@, column as int),
            ))),
            column < 9 ==> (r matches Check::Remaining(m) ==> !col_dup(self@, column as int) && m
                != 0 && m < 0x200 && forall|d: u8|
                1 <= d <= 9 ==> (#[trigger] mask_has(m, d) <==> !digit_in_col(
                    self@,
                    column as int,
                    d,
                ))),
    {
        if column >= 9 {
            return Check::Remaining(MASK_ALL);
        }
        let mut vals: Vec<u8> = Vec::new();
        let mut k: u8 = 0;
        while k < 9
            invariant
                wf(self@),
                column < 9,
                k <= 9,
                vals@.len() == k as int,
                forall|j: int| 0 <= j < k ==> vals@[j] == cell(self@, j, column as int),
            decreases 9 - k,
        {
            vals.push(self.value_at(k, column));
            k += 1;
        }
        proof {
            assert(vals@ =~= col_seq(self@, column as int));
        }
        Self::check_slice(vals.as_slice())
    }

    /// The Check of the box holding cell (row, column); if either index is
    /// out of range the box counts as unconstrained.
    pub fn check_square(&self, row: u8, column: u8) -> (r: Check)
        requires
            wf(self@),
        ensures
            row >= 9 || column >= 9 ==> r == Check::Remaining(MASK_ALL),
            row < 9 && column < 9 ==> (r is Duplicates <==> box_dup(
                self@,
                box_of(row as int, column as int),
            )),
            row < 9 && column < 9 ==> (r is Full <==> (!box_dup(
                self@,
                box_of(row as int, column as int),
            ) && line_full(box_seq(self@, box_of(row as int, column as int))))),
            row < 9 && column < 9 ==> (r matches Check::Remaining(m) ==> !box_dup(
                self@,
                box_of(row as int, column as int),
            ) && m != 0 && m < 0x200 && forall|d: u8|
                1 <= d <= 9 ==> (#[trigger] mask_has(m, d) <==> !digit_in_box(
                    self@,
                    box_of(row as int, column as int),
                    d,
                ))),
    {
        if row >= 9 || column >= 9 {
            return Check::Remaining(MASK_ALL);
        }
        let start_row = (row / 3) * 3;
        let start_column = (column / 3) * 3;
        let ghost b = box_of(row as int, column as int);
        proof {
            vstd::arithmetic::div_mod::lemma_fundamental_div_mod_converse(
                b,
                3,
                row as int / 3,
                column as int / 3,
            );
            assert(3 * (b / 3) == start_row as int);
            assert(3 * (b % 3) == start_column as int);
        }
        let mut vals: Vec<u8> = Vec::new();
        let mut i: u8 = 0;
        while i < 9
            invariant
                wf(self@),
                row < 9,
                column < 9,
                b == box_of(row as int, column as int),
                0 <= b < 9,
                start_row == (row / 3) * 3,
                start_column == (column / 3) * 3,
                3 * (b / 3) == start_row as int,
                3 * (b % 3) == start_column as int,
                i <= 9,
                vals@.len() == i as int,
                forall|j: int| 0 <= j < i ==> vals@[j] == box_cell(self@, b, j),
            decreases 9 - i,
        {
            vals.push(self.value_at(start_row + i / 3, start_column + i % 3));
            i += 1;
        }
        proof {
            assert(vals@ =~= box_seq(self@, b));
        }
        Self::check_slice(vals.as_slice())
    }

    /// True iff no row, column or box holds a duplicate.
    pub fn check_all(&self) -> (r: bool)
        requires
            wf(self@),
        ensures
            r <==> valid(self@),
    {
        let mut i: u8 = 0;
        while i < 9
            invariant
                wf(self@),
                i <= 9,
                forall|k: int|
                    0 <= k < i ==> !row_dup(self@, k) && !col_dup(self@, k) && !box_dup(self@, k),
            decreases 9 - i,
        {
            if let Check::Duplicates = self.check_row(i) {
                return false;
            }
            if let Check::Duplicates = self.check_column(i) {
                return false;
            }
            let r0 = (i / 3) * 3;
            let c0 = (i % 3) * 3;
            proof {
                vstd::arithmetic::div_mod::lemma_fundamental_div_mod_converse(
                    r0 as int,
                    3,
                    i as int / 3,
                    0,
                );
                vstd::arithmetic::div_mod::lemma_fundamental_div_mod_converse(
                    c0 as int,
                    3,
                    i as int % 3,
                    0,
                );
                vstd::arithmetic::div_mod::lemma_fundamental_div_mod(i as int, 3);
                assert(box_of(r0 as int, c0 as int) == i as int);
            }
            if let Check::Duplicates = self.check_square(r0, c0) {
                return false;
            }
            i += 1;
        }
        true
    }

    /// Folds one line's Check into the accumulated candidate mask. The ghost
    /// arguments carry the nine cells of the line and whether the requested
    /// indices actually select a line.
    fn apply_check(all: u16, ck: &Check, Ghost(line): Ghost<Seq<u8>>, Ghost(inrange): Ghost<bool>) -> (m: u16)
        requires
            all < 0x200,
            inrange ==> line.len() == 9,
            inrange ==> forall|i: int| 0 <= i < 9 ==> line[i] <= 9,
            !(ck is Duplicates),
            !inrange ==> *ck == Check::Remaining(MASK_ALL),
            inrange ==> (ck matches Check::Remaining(x) ==> *x < 0x200 && forall|d: u8|
                1 <= d <= 9 ==> (#[trigger] mask_has(*x, d) <==> !line.contains(d))),
            inrange ==> (ck is Full ==> !seq_has_dup(line) && line_full(line)),
        ensures
            m < 0x200,
            forall|d: u8|
                1 <= d <= 9 ==> (#[trigger] mask_has(m, d) <==> (mask_has(all, d) && (inrange
                    ==> !line.contains(d)))),
    {
        match ck {
            Check::Remaining(x) => {
                let m = all & *x;
                proof {
                    assert(m < 0x200) by (bit_vector)
                        requires
                            all < 0x200,
                            m == all & *x,
                    ;
                    assert forall|d: u8| 1 <= d <= 9 implies (#[trigger] mask_has(m, d) <==> (
                    mask_has(all, d) && mask_has(*x, d))) by {
                        lemma_bit_and(all, *x, (d - 1) as u16);
                    }
                    if !inrange {
                        assert forall|d: u8| 1 <= d <= 9 implies #[trigger] mask_has(MASK_ALL, d) by {
                            lemma_bit_all((d - 1) as u16);
                        }
                    }
                }
                m
            },
            Check::Full => {
                proof {
                    lemma_nine_cells(line);
                    assert forall|d: u8| 1 <= d <= 9 implies !mask_has(0u16, d) && line.contains(
                        d,
                    ) by {
                        lemma_bit_all((d - 1) as u16);
                    }
                }
                0
            },
            Check::Duplicates => {
                proof {
                    assert(false);
                }
                0
            },
        }
    }

    /// The candidate mask for cell (row, column): the AND of the three line
    /// masks. A line holding a duplicate yields the empty mask, since no
    /// digit can complete an already-broken line.
    pub(crate) fn all_remaining(&self, row: u8, column: u8) -> (m: u16)
        requires
            wf(self@),
        ensures
            m < 0x200,
            line_dup_at(self@, row as int, column as int) ==> m == 0,
            !line_dup_at(self@, row as int, column as int) ==> forall|d: u8|
                1 <= d <= 9 ==> (#[trigger] mask_has(m, d) <==> avail(
                    self@,
                    row as int,
                    column as int,
                    d,
                )),
    {
        let ghost g = self@;
        let ghost ri = row as int;
        let ghost ci = column as int;
        proof {
            lemma_line_seqs_wf(g, ri, ci);
        }
        let mut all: u16 = MASK_ALL;
        proof {
            assert forall|d: u8| 1 <= d <= 9 implies #[trigger] mask_has(all, d) by {
                lemma_bit_all((d - 1) as u16);
            }
        }
        let ck_row = self.check_row(row);
        if let Check::Duplicates = ck_row {
            return 0;
        }
        all = Self::apply_check(all, &ck_row, Ghost(row_seq(g, ri)), Ghost(row < 9));
        if all == 0 {
            // no digit fits the row: the column and box cannot widen the mask
            proof {
                assert forall|d: u8| 1 <= d <= 9 implies !mask_has(0u16, d) && !avail(
                    g,
                    ri,
                    ci,
                    d,
                ) by {
                    lemma_bit_all((d - 1) as u16);
                    if avail(g, ri, ci, d) {
                        assert(mask_has(MASK_ALL, d));
                        assert(mask_has(all, d));
                        assert(false);
                    }
                }
            }
            return 0;
        }
        let ck_col = self.check_column(column);
        if let Check::Duplicates = ck_col {
            return 0;
        }
        let ghost after_row = all;
        all = Self::apply_check(all, &ck_col, Ghost(col_seq(g, ci)), Ghost(column < 9));
        if all == 0 {
            proof {
                assert forall|d: u8| 1 <= d <= 9 implies !mask_has(0u16, d) && !avail(
                    g,
                    ri,
                    ci,
                    d,
                ) by {
                    lemma_bit_all((d - 1) as u16);
                    if avail(g, ri, ci, d) {
                        assert(mask_has(MASK_ALL, d));
                        assert(mask_has(after_row, d));
                        assert(mask_has(all, d));
                        assert(false);
                    }
                }
            }
            return 0;
        }
        let ck_box = self.check_square(row, column);
        if let Check::Duplicates = ck_box {
            return 0;
        }
        let ghost box_inrange = row < 9 && column < 9;
        all = Self::apply_check(all, &ck_box, Ghost(box_seq(g, box_of(ri, ci))), Ghost(box_inrange));
        proof {
            assert(!line_dup_at(g, ri, ci));
        }
        all
    }

    /// Expands a candidate mask into the ascending list of digits it holds.
    pub(crate) fn expand_remaining(remaining: u16) -> (r: Vec<u8>)
        requires
            remaining < 0x200,
        ensures
            forall|d: u8| #[trigger]
                r@.contains(d) <==> (1 <= d <= 9 && mask_has(remaining, d)),
            forall|j1: int, j2: int| 0 <= j1 < j2 < r@.len() ==> r@[j1] < r@[j2],
            forall|j: int| 0 <= j < r@.len() ==> 1 <= #[trigger] r@[j] <= 9,
            r@.no_duplicates(),
    {
        let mut result: Vec<u8> = Vec::new();
        let mut value: u8 = 1;
        while value <= 9
            invariant
                1 <= value <= 10,
                remaining < 0x200,
                forall|d: u8| #[trigger]
                    result@.contains(d) <==> (1 <= d < value && mask_has(remaining, d)),
                forall|j1: int, j2: int| 0 <= j1 < j2 < result@.len() ==> result@[j1] < result@[j2],
                forall|j: int| 0 <= j < result@.len() ==> 1 <= #[trigger] result@[j] < value,
            decreases 10 - value,
        {
            if remaining & (1u16 << ((value - 1) as u16)) != 0 {
                let ghost before = result@;
                result.push(value);
                proof {
                    assert(mask_has(remaining, value));
                    assert(result@ == before.push(value));
                    assert forall|d: u8| #[trigger]
                        result@.contains(d) <==> (1 <= d < value + 1 && mask_has(remaining, d)) by {
                        if result@.contains(d) {
                            let j = choose|j: int| 0 <= j < result@.len() && result@[j] == d;
                            if j < before.len() {
                                assert(before.contains(d));
                            }
                        }
                        if 1 <= d < value + 1 && mask_has(remaining, d) {
                            if d == value {
                                assert(result@[before.len() as int] == d);
                            } else {
                                assert(before.contains(d));
                                let j = choose|j: int| 0 <= j < before.len() && before[j] == d;
                                assert(result@[j] == d);
                            }
                        }
                    }
                }
            } else {
                proof {
                    assert(!mask_has(remaining, value));
                    assert forall|d: u8| #[trigger]
                        result@.contains(d) <==> (1 <= d < value + 1 && mask_has(remaining, d)) by {
                    }
                }
            }
            value += 1;
        }
        proof {
            assert forall|j1: int, j2: int|
                0 <= j1 < result@.len() && 0 <= j2 < result@.len() && j1 != j2 implies result@[j1]
                != result@[j2] by {}
        }
        result
    }

    /// The candidate digits for cell (row, column), ascending, without
    /// running a solve. Out-of-range indices merely drop the corresponding
    /// constraint, matching the unconstrained sentinel of the line checks.
    pub fn get_all_remaining(&self, row: u8, column: u8) -> (r: Vec<u8>)
        requires
            wf(self@),
        ensures
            forall|j1: int, j2: int| 0 <= j1 < j2 < r@.len() ==> r@[j1] < r@[j2],
            forall|j: int| 0 <= j < r@.len() ==> 1 <= #[trigger] r@[j] <= 9,
            !line_dup_at(self@, row as int, column as int) ==> forall|d: u8| #[trigger]
                r@.contains(d) <==> (1 <= d <= 9 && avail(self@, row as int, column as int, d)),
            line_dup_at(self@, row as int, column as int) ==> r@.len() == 0,
    {
        let mask = self.all_remaining(row, column);
        let r = Self::expand_remaining(mask);
        proof {
            if line_dup_at(self@, row as int, column as int) {
                assert forall|d: u8| 1 <= d <= 9 implies !mask_has(0u16, d) by {
                    lemma_bit_all((d - 1) as u16);
                }
                if r@.len() > 0 {
                    assert(r@.contains(r@[0]));
                }
            }
        }
        r
    }
}

/// The three line sequences through (row, col) have nine cells in 0..=9.
proof fn lemma_line_seqs_wf(g: Seq<u8>, row: int, col: int)
    requires
        wf(g),
    ensures
        row_seq(g, row).len() == 9 && col_seq(g, col).len() == 9 && box_seq(
            g,
            box_of(row, col),
        ).len() == 9,
        0 <= row < 9 ==> forall|i: int| 0 <= i < 9 ==> row_seq(g, row)[i] <= 9,
        0 <= col < 9 ==> forall|i: int| 0 <= i < 9 ==> col_seq(g, col)[i] <= 9,
        0 <= row < 9 && 0 <= col < 9 ==> forall|i: int|
            0 <= i < 9 ==> box_seq(g, box_of(row, col))[i] <= 9,
{
    if 0 <= row < 9 && 0 <= col < 9 {
        let b = box_of(row, col);
        assert(0 <= b < 9);
        assert forall|i: int| 0 <= i < 9 implies box_seq(g, b)[i] <= 9 by {
            assert(0 <= 3 * (b / 3) + i / 3 < 9);
            assert(0 <= 3 * (b % 3) + i % 3 < 9);
            assert(0 <= (3 * (b / 3) + i / 3) * 9 + (3 * (b % 3) + i % 3) < 81);
        }
    }
}

} // verus!
