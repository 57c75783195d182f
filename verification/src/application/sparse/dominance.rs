//! What the strict diagonal-dominance test of the compressed formats
//! decides, stated over the matrix entries as integers.
use vstd::prelude::*;
use crate::domain::scalar::Scalar;
use super::compressed::{
    diag_mag, dominant, gathered, lemma_gathered_keyed, lemma_gathered_value, lemma_lane_keyed, lemma_value_at_found,
    off_ok, off_sum, strictly_keyed, value_at,
};
use super::csc::CscView;
use super::csr::CsrView;

verus! {

/// `|x|`.
pub open spec fn abs_int(x: int) -> int {
    if x < 0 {
        -x
    } else {
        x
    }
}

/// `Σ |e(j)|` over the columns `j < c` other than `i`.
pub open spec fn abs_sum_except(e: spec_fn(int) -> int, i: int, c: int) -> int
    decreases c,
{
    if c <= 0 {
        0
    } else {
        abs_sum_except(e, i, c - 1) + if c - 1 != i {
            abs_int(e(c - 1))
        } else {
            0
        }
    }
}

proof fn lemma_abs_sum_ext(e1: spec_fn(int) -> int, e2: spec_fn(int) -> int, i: int, c: int)
    requires
        forall|j: int| 0 <= j < c ==> #[trigger] e1(j) == e2(j),
    ensures
        abs_sum_except(e1, i, c) == abs_sum_except(e2, i, c),
    decreases c,
{
    if c > 0 {
        lemma_abs_sum_ext(e1, e2, i, c - 1);
    }
}

/// Columns at or past `c0` holding zero add nothing.
proof fn lemma_abs_sum_zero_tail(e: spec_fn(int) -> int, i: int, c0: int, c: int)
    requires
        0 <= c0 <= c,
        forall|j: int| c0 <= j < c ==> #[trigger] e(j) == 0,
    ensures
        abs_sum_except(e, i, c) == abs_sum_except(e, i, c0),
    decreases c,
{
    if c > c0 {
        lemma_abs_sum_zero_tail(e, i, c0, c - 1);
    }
}

/// The entries of a row, as integers: the value stored at column `j`, or 0.
pub open spec fn row_entries<T: Scalar>(s: Seq<(usize, T)>) -> spec_fn(int) -> int {
    |j: int| value_at(s, j as usize).as_int()
}

proof fn lemma_drop_last_keyed<T>(s: Seq<(usize, T)>, bound: int)
    requires
        strictly_keyed(s, bound),
        s.len() > 0,
    ensures
        strictly_keyed(s.drop_last(), s.last().0 as int),
{
    let d = s.drop_last();
    assert forall|a: int, b: int| 0 <= a < b < d.len() implies (#[trigger] d[a]).0 < (#[trigger] d[b]).0 by {
        assert(s[a].0 < s[b].0);
    }
    assert forall|a: int| 0 <= a < d.len() implies (#[trigger] d[a]).0 < s.last().0 as int by {
        assert(s[a].0 < s[s.len() - 1].0);
    }
}

/// Dropping the last entry of a keyed row keeps every other column's value.
proof fn lemma_value_at_drop_last<T: Scalar>(s: Seq<(usize, T)>, bound: int, j: usize)
    requires
        strictly_keyed(s, bound),
        s.len() > 0,
        j != s.last().0,
    ensures
        value_at(s, j) == value_at(s.drop_last(), j),
{
    let d = s.drop_last();
    lemma_drop_last_keyed(s, bound);
    if exists|a: int| 0 <= a < s.len() && (#[trigger] s[a]).0 == j {
        let a = choose|a: int| 0 <= a < s.len() && (#[trigger] s[a]).0 == j;
        assert(a < d.len());
        assert(d[a] == s[a]);
        lemma_value_at_found(s, bound, a);
        lemma_value_at_found(d, s.last().0 as int, a);
    } else {
        assert(!exists|a: int| 0 <= a < d.len() && (#[trigger] d[a]).0 == j) by {
            assert forall|a: int| 0 <= a < d.len() implies (#[trigger] d[a]).0 != j by {
                assert(s[a] == d[a]);
            }
        }
    }
}

/// A keyed row has value zero at columns past its keys.
proof fn lemma_value_at_past<T: Scalar>(s: Seq<(usize, T)>, bound: int, j: usize)
    requires
        strictly_keyed(s, bound),
        (j as int) >= bound,
    ensures
        value_at(s, j) == T::zero_value(),
{
    assert(!exists|a: int| 0 <= a < s.len() && (#[trigger] s[a]).0 == j);
}

/// The diagonal term of the dominance test is the absolute value of the
/// diagonal entry, and the off-diagonal term is the sum of the absolute
/// values of the other entries of the row; the row is dominant exactly when
/// the first exceeds the second.
pub proof fn lemma_row_dominance<T: Scalar>(s: Seq<(usize, T)>, i: usize, bound: int)
    requires
        strictly_keyed(s, bound),
        0 <= bound <= usize::MAX as int + 1,
        off_ok(s, i),
    ensures
        diag_mag(s, i).as_int() == abs_int(value_at(s, i).as_int()),
        off_sum(s, i).as_int() == abs_sum_except(row_entries(s), i as int, bound),
        dominant(s, i) == (abs_int(value_at(s, i).as_int()) > abs_sum_except(row_entries(s), i as int, bound)),
    decreases s.len(),
{
    T::lemma_zero_int();
    if s.len() == 0 {
        lemma_abs_sum_zero_tail(row_entries(s), i as int, 0, bound);
    } else {
        let d = s.drop_last();
        let n = s.len() - 1;
        let (l, x) = (s[n].0, s[n].1);
        lemma_drop_last_keyed(s, bound);
        lemma_row_dominance(d, i, l as int);
        T::lemma_magnitude_exact(x);
        lemma_value_at_found(s, bound, n);
        // the diagonal
        if l != i {
            lemma_value_at_drop_last(s, bound, i);
        }
        // the off-diagonal sum over columns
        let e = row_entries(s);
        let ed = row_entries(d);
        assert forall|j: int| 0 <= j < l implies #[trigger] e(j) == ed(j) by {
            lemma_value_at_drop_last(s, bound, j as usize);
        }
        lemma_abs_sum_ext(e, ed, i as int, l as int);
        assert(abs_sum_except(e, i as int, l + 1) == abs_sum_except(ed, i as int, l as int) + if l != i {
            abs_int(x.as_int())
        } else {
            0
        });
        assert forall|j: int| l + 1 <= j < bound implies #[trigger] e(j) == 0 by {
            lemma_value_at_past(s, l + 1, j as usize);
        }
        assert(strictly_keyed(s, l + 1)) by {
            assert forall|a: int| 0 <= a < s.len() implies (#[trigger] s[a]).0 < l + 1 by {
                if a < n {
                    assert(s[a].0 < s[n].0);
                }
            }
        }
        lemma_abs_sum_zero_tail(e, i as int, l + 1, bound);
        if l != i {
            T::lemma_plus_exact(off_sum(d, i), x.magnitude());
        }
    }
    T::lemma_at_most_exact(diag_mag(s, i), off_sum(s, i));
}

/// A CSR matrix's row `i` is strictly diagonally dominant exactly when
/// `|a_ii| > Σ_{j ≠ i} |a_ij|` over its entries as integers.
pub proof fn lemma_csr_dominance<T: Scalar>(a: CsrView<T>, i: int)
    requires
        a.wf(),
        0 <= i < a.nrows,
        off_ok(a.row(i), i as usize),
    ensures
        dominant(a.row(i), i as usize) == (abs_int(a.entry(i, i as usize).as_int()) > abs_sum_except(
            |j: int| a.entry(i, j as usize).as_int(),
            i,
            a.ncols as int,
        )),
{
    lemma_lane_keyed(a.row_ptr, a.col_indices, a.values, a.values.len() as int, a.nrows as int, a.ncols as int, i);
    lemma_row_dominance(a.row(i), i as usize, a.ncols as int);
    lemma_abs_sum_ext(row_entries(a.row(i)), |j: int| a.entry(i, j as usize).as_int(), i, a.ncols as int);
}

/// A CSC matrix's row `i` (on the diagonal's side of the columns), read
/// across all columns, is strictly diagonally dominant exactly when `|a_ii| > Σ_{j ≠ i} |a_ij|` over its entries as
/// integers.
pub proof fn lemma_csc_dominance<T: Scalar>(a: CscView<T>, i: usize)
    requires
        a.wf(),
        i < a.nrows,
        (i as int) < a.ncols,
        off_ok(a.row(i), i),
    ensures
        dominant(a.row(i), i) == (abs_int(a.entry(i, i as int).as_int()) > abs_sum_except(
            |j: int| a.entry(i, j).as_int(),
            i as int,
            a.ncols as int,
        )),
{
    let (nr, nc) = (a.nrows as int, a.ncols as int);
    lemma_gathered_keyed(a.col_ptr, a.row_indices, a.values, a.values.len() as int, nc, nr, i, nc);
    lemma_row_dominance(a.row(i), i, nc);
    let e = row_entries(a.row(i));
    let f = |j: int| a.entry(i, j).as_int();
    assert forall|j: int| 0 <= j < nc implies #[trigger] e(j) == f(j) by {
        lemma_gathered_value(a.col_ptr, a.row_indices, a.values, a.values.len() as int, nc, nr, i, nc, j as usize);
    }
    lemma_abs_sum_ext(e, f, i as int, nc);
    lemma_gathered_value(a.col_ptr, a.row_indices, a.values, a.values.len() as int, nc, nr, i, nc, i);
}

} // verus!
