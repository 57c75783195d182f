//! Scalar reference kernels behind the slice hooks of [`Scalar`]: the path
//! every element type of this library takes.
//!
//! The strided kernels read row-major sub-matrices whose row `r` starts at
//! position `r * stride`; a kernel whose extents do not fit the slices it is
//! given leaves its output unchanged.
use vstd::prelude::*;
use vstd::arithmetic::div_mod::lemma_fundamental_div_mod_converse;
use super::scalar::Scalar;
use crate::application::vector::{seq_dot, seq_dot_ok};

verus! {

/// `Σ s[k]` added left to right from zero.
pub open spec fn seq_sum<T: Scalar>(s: Seq<T>) -> T
    decreases s.len(),
{
    if s.len() == 0 {
        T::zero_value()
    } else {
        seq_sum(s.drop_last()).plus(s.last())
    }
}

/// Every partial sum of `seq_sum(s)` is representable.
pub open spec fn seq_sum_ok<T: Scalar>(s: Seq<T>) -> bool
    decreases s.len(),
{
    s.len() == 0 || (seq_sum_ok(s.drop_last()) && seq_sum(s.drop_last()).can_add(s.last()))
}

/// The least element of `s`, folded from the greatest value of the type: a
/// later element replaces the one kept only when it is strictly smaller.
pub open spec fn seq_min<T: Scalar>(s: Seq<T>) -> T
    decreases s.len(),
{
    if s.len() == 0 {
        T::highest()
    } else {
        let acc = seq_min(s.drop_last());
        if !acc.at_most(s.last()) {
            s.last()
        } else {
            acc
        }
    }
}

/// The greatest element of `s`, folded from the least value of the type: a
/// later element replaces the one kept only when it is strictly greater.
pub open spec fn seq_max<T: Scalar>(s: Seq<T>) -> T
    decreases s.len(),
{
    if s.len() == 0 {
        T::lowest()
    } else {
        let acc = seq_max(s.drop_last());
        if !s.last().at_most(acc) {
            s.last()
        } else {
            acc
        }
    }
}

/// `Σ s[k]` over the integers the elements stand for.
pub open spec fn int_sum<T: Scalar>(s: Seq<T>) -> int
    decreases s.len(),
{
    if s.len() == 0 {
        0
    } else {
        int_sum(s.drop_last()) + s.last().as_int()
    }
}

/// A sum computed without overflow is the sum of the integers.
pub proof fn lemma_seq_sum_exact<T: Scalar>(s: Seq<T>)
    requires
        seq_sum_ok(s),
    ensures
        seq_sum(s).as_int() == int_sum(s),
    decreases s.len(),
{
    T::lemma_zero_int();
    if s.len() > 0 {
        lemma_seq_sum_exact(s.drop_last());
        T::lemma_plus_exact(seq_sum(s.drop_last()), s.last());
    }
}

/// `Σ a[k] · b[k]` over the first `a.len()` positions, as integers.
pub open spec fn int_dot<T: Scalar>(a: Seq<T>, b: Seq<T>) -> int
    decreases a.len(),
{
    if a.len() == 0 {
        0
    } else {
        int_dot(a.drop_last(), b) + a.last().as_int() * b[a.len() - 1].as_int()
    }
}

/// A dot product computed without overflow is the dot product of the
/// integers.
pub proof fn lemma_seq_dot_exact<T: Scalar>(a: Seq<T>, b: Seq<T>)
    requires
        seq_dot_ok(a, b),
    ensures
        seq_dot(a, b).as_int() == int_dot(a, b),
    decreases a.len(),
{
    T::lemma_zero_int();
    if a.len() > 0 {
        lemma_seq_dot_exact(a.drop_last(), b);
        let p = a.last().times(b[a.len() - 1]);
        T::lemma_times_exact(a.last(), b[a.len() - 1]);
        T::lemma_plus_exact(seq_dot(a.drop_last(), b), p);
    }
}

/// The greatest element of a non-empty sequence is one of its elements, and
/// every element is at most it.
pub proof fn lemma_seq_max_is_greatest<T: Scalar>(s: Seq<T>)
    requires
        s.len() > 0,
    ensures
        exists|k: int| 0 <= k < s.len() && s[k] == seq_max(s),
        forall|k: int| 0 <= k < s.len() ==> (#[trigger] s[k]).at_most(seq_max(s)),
    decreases s.len(),
{
    let m = seq_max(s);
    let last = s.len() - 1;
    T::lemma_at_most_exact(s[last], m);
    if s.len() == 1 {
        let acc = seq_max(s.drop_last());
        T::lemma_at_most_exact(s[0], acc);
        T::lemma_bounds(s[0]);
        T::lemma_as_int_injective(s[0], acc);
        assert(s[0] == m);
    } else {
        let d = s.drop_last();
        lemma_seq_max_is_greatest(d);
        let acc = seq_max(d);
        T::lemma_at_most_exact(s[last], acc);
        let w = choose|k: int| 0 <= k < d.len() && d[k] == acc;
        if !s[last].at_most(acc) {
            assert(s[last] == m);
        } else {
            assert(s[w] == m);
        }
        assert forall|k: int| 0 <= k < s.len() implies (#[trigger] s[k]).at_most(m) by {
            T::lemma_at_most_exact(s[k], m);
            if k < last {
                assert(d[k] == s[k]);
                assert(d[k].at_most(acc));
                T::lemma_at_most_exact(d[k], acc);
                T::lemma_at_most_exact(acc, m);
                T::lemma_at_most_exact(s[last], acc);
            }
        }
    }
}

/// The least element of a non-empty sequence is one of its elements, and it
/// is at most every element.
pub proof fn lemma_seq_min_is_least<T: Scalar>(s: Seq<T>)
    requires
        s.len() > 0,
    ensures
        exists|k: int| 0 <= k < s.len() && s[k] == seq_min(s),
        forall|k: int| 0 <= k < s.len() ==> seq_min(s).at_most(#[trigger] s[k]),
    decreases s.len(),
{
    let m = seq_min(s);
    let last = s.len() - 1;
    T::lemma_at_most_exact(m, s[last]);
    if s.len() == 1 {
        let acc = seq_min(s.drop_last());
        T::lemma_at_most_exact(acc, s[0]);
        T::lemma_bounds(s[0]);
        T::lemma_as_int_injective(s[0], acc);
        assert(s[0] == m);
    } else {
        let d = s.drop_last();
        lemma_seq_min_is_least(d);
        let acc = seq_min(d);
        T::lemma_at_most_exact(acc, s[last]);
        let w = choose|k: int| 0 <= k < d.len() && d[k] == acc;
        if !acc.at_most(s[last]) {
            assert(s[last] == m);
        } else {
            assert(s[w] == m);
        }
        assert forall|k: int| 0 <= k < s.len() implies m.at_most(#[trigger] s[k]) by {
            T::lemma_at_most_exact(m, s[k]);
            if k < last {
                assert(d[k] == s[k]);
                assert(acc.at_most(d[k]));
                T::lemma_at_most_exact(acc, d[k]);
                T::lemma_at_most_exact(m, acc);
                T::lemma_at_most_exact(acc, s[last]);
            }
        }
    }
}

proof fn lemma_sum_ok_prefix<T: Scalar>(s: Seq<T>, k: int)
    requires
        seq_sum_ok(s),
        0 <= k <= s.len(),
    ensures
        seq_sum_ok(s.take(k)),
    decreases s.len(),
{
    if k < s.len() {
        assert(s.drop_last().take(k) =~= s.take(k));
        lemma_sum_ok_prefix(s.drop_last(), k);
    } else {
        assert(s.take(k) =~= s);
    }
}

proof fn lemma_dot_ok_prefix<T: Scalar>(a: Seq<T>, b: Seq<T>, k: int)
    requires
        seq_dot_ok(a, b),
        0 <= k <= a.len(),
    ensures
        seq_dot_ok(a.take(k), b),
    decreases a.len(),
{
    if k < a.len() {
        assert(a.drop_last().take(k) =~= a.take(k));
        lemma_dot_ok_prefix(a.drop_last(), b, k);
    } else {
        assert(a.take(k) =~= a);
    }
}

/// Sum reduction over a slice, left to right from zero.
pub fn sum_slice<T: Scalar>(s: &[T]) -> (r: T)
    requires
        seq_sum_ok(s@),
    ensures
        r == seq_sum(s@),
{
    let mut acc = T::zero();
    for i in 0..s.len()
        invariant
            seq_sum_ok(s@),
            acc == seq_sum(s@.take(i as int)),
    {
        proof {
            lemma_sum_ok_prefix(s@, i + 1);
            assert(s@.take(i + 1).drop_last() =~= s@.take(i as int));
        }
        acc = acc.add(s[i]);
    }
    assert(s@.take(s@.len() as int) =~= s@);
    acc
}

/// Dot product reduction over two slices of one length, left to right from
/// zero.
pub fn dot_slice<T: Scalar>(a: &[T], b: &[T]) -> (r: T)
    requires
        a@.len() == b@.len(),
        seq_dot_ok(a@, b@),
    ensures
        r == seq_dot(a@, b@),
{
    let mut acc = T::zero();
    for i in 0..a.len()
        invariant
            a@.len() == b@.len(),
            seq_dot_ok(a@, b@),
            acc == seq_dot(a@.take(i as int), b@),
    {
        proof {
            lemma_dot_ok_prefix(a@, b@, i + 1);
            assert(a@.take(i + 1).drop_last() =~= a@.take(i as int));
        }
        acc = acc.add(a[i].mul(b[i]));
    }
    assert(a@.take(a@.len() as int) =~= a@);
    acc
}

/// Min reduction over a slice: the greatest value of the type for an empty
/// slice.
pub fn min_slice<T: Scalar>(s: &[T]) -> (r: T)
    ensures
        r == seq_min(s@),
{
    let mut acc = T::max_value();
    for i in 0..s.len()
        invariant
            acc == seq_min(s@.take(i as int)),
    {
        assert(s@.take(i + 1).drop_last() =~= s@.take(i as int));
        let x = s[i];
        if !acc.le(x) {
            acc = x;
        }
    }
    assert(s@.take(s@.len() as int) =~= s@);
    acc
}

/// Max reduction over a slice: the least value of the type for an empty
/// slice.
pub fn max_slice<T: Scalar>(s: &[T]) -> (r: T)
    ensures
        r == seq_max(s@),
{
    let mut acc = T::min_value();
    for i in 0..s.len()
        invariant
            acc == seq_max(s@.take(i as int)),
    {
        assert(s@.take(i + 1).drop_last() =~= s@.take(i as int));
        let x = s[i];
        if !x.le(acc) {
            acc = x;
        }
    }
    assert(s@.take(s@.len() as int) =~= s@);
    acc
}

/// Elementwise slice addition: `out[i] = a[i] + b[i]`.
pub fn add_slice<T: Scalar>(a: &[T], b: &[T], out: &mut [T])
    requires
        a@.len() == b@.len(),
        a@.len() == old(out)@.len(),
        forall|i: int| 0 <= i < a@.len() ==> #[trigger] a@[i].can_add(b@[i]),
    ensures
        final(out)@.len() == a@.len(),
        forall|i: int| 0 <= i < a@.len() ==> #[trigger] final(out)@[i] == a@[i].plus(b@[i]),
{
    for i in 0..a.len()
        invariant
            a@.len() == b@.len(),
            a@.len() == out@.len(),
            forall|j: int| 0 <= j < a@.len() ==> #[trigger] a@[j].can_add(b@[j]),
            forall|j: int| 0 <= j < i ==> #[trigger] out@[j] == a@[j].plus(b@[j]),
    {
        out[i] = a[i].add(b[i]);
    }
}

/// Elementwise slice subtraction: `out[i] = a[i] - b[i]`.
pub fn sub_slice<T: Scalar>(a: &[T], b: &[T], out: &mut [T])
    requires
        a@.len() == b@.len(),
        a@.len() == old(out)@.len(),
        forall|i: int| 0 <= i < a@.len() ==> #[trigger] a@[i].can_sub(b@[i]),
    ensures
        final(out)@.len() == a@.len(),
        forall|i: int| 0 <= i < a@.len() ==> #[trigger] final(out)@[i] == a@[i].minus(b@[i]),
{
    for i in 0..a.len()
        invariant
            a@.len() == b@.len(),
            a@.len() == out@.len(),
            forall|j: int| 0 <= j < a@.len() ==> #[trigger] a@[j].can_sub(b@[j]),
            forall|j: int| 0 <= j < i ==> #[trigger] out@[j] == a@[j].minus(b@[j]),
    {
        out[i] = a[i].sub(b[i]);
    }
}

/// Elementwise slice multiplication: `out[i] = a[i] * b[i]`.
pub fn mul_slice<T: Scalar>(a: &[T], b: &[T], out: &mut [T])
    requires
        a@.len() == b@.len(),
        a@.len() == old(out)@.len(),
        forall|i: int| 0 <= i < a@.len() ==> #[trigger] a@[i].can_mul(b@[i]),
    ensures
        final(out)@.len() == a@.len(),
        forall|i: int| 0 <= i < a@.len() ==> #[trigger] final(out)@[i] == a@[i].times(b@[i]),
{
    for i in 0..a.len()
        invariant
            a@.len() == b@.len(),
            a@.len() == out@.len(),
            forall|j: int| 0 <= j < a@.len() ==> #[trigger] a@[j].can_mul(b@[j]),
            forall|j: int| 0 <= j < i ==> #[trigger] out@[j] == a@[j].times(b@[j]),
    {
        out[i] = a[i].mul(b[i]);
    }
}

/// Elementwise slice division: `out[i] = a[i] / b[i]`.
pub fn div_slice<T: Scalar>(a: &[T], b: &[T], out: &mut [T])
    requires
        a@.len() == b@.len(),
        a@.len() == old(out)@.len(),
        forall|i: int| 0 <= i < a@.len() ==> #[trigger] a@[i].can_div(b@[i]),
    ensures
        final(out)@.len() == a@.len(),
        forall|i: int| 0 <= i < a@.len() ==> #[trigger] final(out)@[i] == a@[i].quotient(b@[i]),
{
    for i in 0..a.len()
        invariant
            a@.len() == b@.len(),
            a@.len() == out@.len(),
            forall|j: int| 0 <= j < a@.len() ==> #[trigger] a@[j].can_div(b@[j]),
            forall|j: int| 0 <= j < i ==> #[trigger] out@[j] == a@[j].quotient(b@[j]),
    {
        out[i] = a[i].div(b[i]);
    }
}

/// Adding `alpha · xv` to `ov` is representable.
pub open spec fn axpy_ok<T: Scalar>(alpha: T, xv: T, ov: T) -> bool {
    alpha.can_mul(xv) && ov.can_add(alpha.times(xv))
}

/// Fused update over slices of one length: `out[i] += alpha · x[i]`.
pub fn axpy_slice<T: Scalar>(alpha: T, x: &[T], out: &mut [T])
    requires
        x@.len() == old(out)@.len(),
        forall|i: int| 0 <= i < x@.len() ==> #[trigger] axpy_ok(alpha, x@[i], old(out)@[i]),
    ensures
        final(out)@.len() == old(out)@.len(),
        forall|i: int| 0 <= i < x@.len() ==> #[trigger] final(out)@[i] == old(out)@[i].plus(alpha.times(x@[i])),
{
    let ghost before = out@;
    for i in 0..x.len()
        invariant
            before == old(out)@,
            x@.len() == before.len(),
            out@.len() == before.len(),
            forall|j: int| 0 <= j < x@.len() ==> #[trigger] axpy_ok(alpha, x@[j], before[j]),
            forall|j: int| i <= j < x@.len() ==> out@[j] == before[j],
            forall|j: int| 0 <= j < i ==> #[trigger] out@[j] == before[j].plus(alpha.times(x@[j])),
    {
        assert(axpy_ok(alpha, x@[i as int], before[i as int]));
        out[i] = out[i].add(alpha.mul(x[i]));
    }
}

/// Position of column `i` of row `r` in a row-major layout with row stride
/// `stride`.
pub open spec fn cell(r: int, i: int, stride: int) -> int {
    r * stride + i
}

/// The number of positions spanned by `rows` rows of `cols` columns at row
/// stride `stride`.
pub open spec fn rows_span(rows: int, stride: int, cols: int) -> int {
    if rows == 0 {
        0
    } else {
        (rows - 1) * stride + cols
    }
}

/// A position of a row-major layout lies in its first `rows` rows and first
/// `cols` columns.
pub open spec fn in_block(p: int, stride: int, rows: int, cols: int) -> bool {
    p / stride < rows && p % stride < cols
}

/// The positions of the first `rows` rows and `cols` columns are below the
/// span, and decompose back into their row and column.
proof fn lemma_cell(r: int, i: int, stride: int, rows: int, cols: int)
    requires
        0 <= r < rows,
        0 <= i < cols,
        cols <= stride,
    ensures
        0 <= cell(r, i, stride) < rows_span(rows, stride, cols),
        cell(r, i, stride) / stride == r,
        cell(r, i, stride) % stride == i,
{
    assert(r * stride <= (rows - 1) * stride) by (nonlinear_arith)
        requires
            r <= rows - 1,
            stride >= 0,
    ;
    assert(r * stride >= 0) by (nonlinear_arith)
        requires
            r >= 0,
            stride >= 0,
    ;
    lemma_fundamental_div_mod_converse(cell(r, i, stride), stride, r, i);
}

/// `axpy_rows` runs: no extent is zero, the span fits in `usize`, and the
/// slices are long enough.
pub open spec fn axpy_rows_applies(
    alphas_len: int,
    x_len: int,
    out_len: int,
    row_stride: int,
    rows: int,
    cols: int,
) -> bool {
    &&& rows > 0 && cols > 0
    &&& rows_span(rows, row_stride, cols) <= usize::MAX
    &&& alphas_len >= rows && x_len >= cols && row_stride >= cols
    &&& out_len >= rows_span(rows, row_stride, cols)
}

/// Adds `alphas[a0 + r] · x[x0 + i]` at column `i` of row `r`, for the
/// first `rows` rows and `cols` columns.
fn axpy_rows_from<T: Scalar>(
    alphas: &[T],
    a0: usize,
    x: &[T],
    x0: usize,
    out: &mut [T],
    row_stride: usize,
    rows: usize,
    cols: usize,
)
    requires
        rows > 0 && cols > 0,
        row_stride >= cols,
        rows_span(rows as int, row_stride as int, cols as int) <= old(out)@.len(),
        a0 + rows <= alphas@.len(),
        x0 + cols <= x@.len(),
        forall|r: int, i: int|
            0 <= r < rows && 0 <= i < cols ==> #[trigger] axpy_ok(
                alphas@[a0 + r],
                x@[x0 + i],
                old(out)@[cell(r, i, row_stride as int)],
            ),
    ensures
        final(out)@.len() == old(out)@.len(),
        forall|r: int, i: int|
            0 <= r < rows && 0 <= i < cols ==> #[trigger] final(out)@[cell(r, i, row_stride as int)] == old(out)@[cell(r, i, row_stride as int)].plus(alphas@[a0 + r].times(x@[x0 + i])),
        forall|p: int|
            0 <= p < old(out)@.len() && !in_block(p, row_stride as int, rows as int, cols as int) ==> #[trigger] final(out)@[p] == old(out)@[p],
{
    let ghost before = out@;
    let ghost s = row_stride as int;
    let n_out = out.len();
    let n_alphas = alphas.len();
    let n_x = x.len();
    for row in 0..rows
        invariant
            before == old(out)@,
            out@.len() == before.len(),
            n_out == before.len(),
            n_alphas == alphas@.len(),
            n_x == x@.len(),
            rows > 0 && cols > 0,
            row_stride >= cols,
            s == row_stride,
            rows_span(rows as int, s, cols as int) <= before.len(),
            a0 + rows <= alphas@.len(),
            x0 + cols <= x@.len(),
            forall|r: int, i: int|
                0 <= r < rows && 0 <= i < cols ==> #[trigger] axpy_ok(
                    alphas@[a0 + r],
                    x@[x0 + i],
                    before[cell(r, i, s)],
                ),
            forall|r: int, i: int|
                0 <= r < row && 0 <= i < cols ==> #[trigger] out@[cell(r, i, s)] == before[cell(r, i, s)].plus(
                    alphas@[a0 + r].times(x@[x0 + i]),
                ),
            forall|p: int|
                0 <= p < before.len() && !in_block(p, s, row as int, cols as int) ==> #[trigger] out@[p] == before[p],
    {
        proof {
            lemma_cell(row as int, 0, s, rows as int, cols as int);
            lemma_cell(row as int, cols - 1, s, rows as int, cols as int);
        }
        let start = row * row_stride;
        let alpha = alphas[a0 + row];
        for i in 0..cols
            invariant
                before == old(out)@,
                out@.len() == before.len(),
                n_out == before.len(),
                n_alphas == alphas@.len(),
                n_x == x@.len(),
                rows > 0 && cols > 0,
                row < rows,
                row_stride >= cols,
                s == row_stride,
                start == cell(row as int, 0, s),
                start + cols <= before.len(),
                alpha == alphas@[a0 + row],
                rows_span(rows as int, s, cols as int) <= before.len(),
                a0 + rows <= alphas@.len(),
                x0 + cols <= x@.len(),
                forall|r: int, i2: int|
                    0 <= r < rows && 0 <= i2 < cols ==> #[trigger] axpy_ok(
                        alphas@[a0 + r],
                        x@[x0 + i2],
                        before[cell(r, i2, s)],
                    ),
                forall|r: int, i2: int|
                    0 <= r < row && 0 <= i2 < cols ==> #[trigger] out@[cell(r, i2, s)] == before[cell(
                        r,
                        i2,
                        s,
                    )].plus(alphas@[a0 + r].times(x@[x0 + i2])),
                forall|i2: int|
                    0 <= i2 < i ==> #[trigger] out@[cell(row as int, i2, s)] == before[cell(
                        row as int,
                        i2,
                        s,
                    )].plus(alpha.times(x@[x0 + i2])),
                forall|p: int|
                    0 <= p < before.len() && !in_block(p, s, row as int, cols as int) && !(p / s == row && p % s
                        < i) ==> #[trigger] out@[p] == before[p],
        {
            proof {
                lemma_cell(row as int, i as int, s, rows as int, cols as int);
                assert(axpy_ok(alphas@[a0 + row], x@[x0 + i], before[cell(row as int, i as int, s)]));
                assert(cell(row as int, i as int, s) == start + i);
            }
            let p = start + i;
            out[p] = out[p].add(alpha.mul(x[x0 + i]));
            proof {
                assert forall|r: int, i2: int|
                    0 <= r < row && 0 <= i2 < cols implies #[trigger] out@[cell(r, i2, s)] == before[cell(
                        r,
                        i2,
                        s,
                    )].plus(alphas@[a0 + r].times(x@[x0 + i2])) by {
                    lemma_cell(r, i2, s, rows as int, cols as int);
                }
                assert forall|i2: int| 0 <= i2 < i + 1 implies #[trigger] out@[cell(row as int, i2, s)] == before[cell(
                    row as int,
                    i2,
                    s,
                )].plus(alpha.times(x@[x0 + i2])) by {
                    lemma_cell(row as int, i2, s, rows as int, cols as int);
                }
            }
        }
        proof {
            assert forall|p: int|
                0 <= p < before.len() && !in_block(p, s, row + 1, cols as int) implies #[trigger] out@[p]
                == before[p] by {
                assert(!(p / s == row && p % s < cols));
            }
        }
    }
    proof {
        assert forall|p: int|
            0 <= p < before.len() && !in_block(p, s, rows as int, cols as int) implies #[trigger] out@[p]
            == before[p] by {}
    }
}

/// Fused multi-row update `out[r * row_stride + i] += alphas[r] · x[i]` for
/// the first `rows` rows and the `cols` columns of `x`; nothing happens when
/// an extent is zero, the span overflows, or a slice is too short.
pub fn axpy_rows<T: Scalar>(alphas: &[T], x: &[T], out: &mut [T], row_stride: usize, rows: usize, cols: usize)
    requires
        axpy_rows_applies(
            alphas@.len() as int,
            x@.len() as int,
            old(out)@.len() as int,
            row_stride as int,
            rows as int,
            cols as int,
        ) ==> x@.len() == cols && forall|r: int, i: int|
            0 <= r < rows && 0 <= i < cols ==> #[trigger] axpy_ok(
                alphas@[r],
                x@[i],
                old(out)@[cell(r, i, row_stride as int)],
            ),
    ensures
        !axpy_rows_applies(
            alphas@.len() as int,
            x@.len() as int,
            old(out)@.len() as int,
            row_stride as int,
            rows as int,
            cols as int,
        ) ==> final(out)@ == old(out)@,
        axpy_rows_applies(
            alphas@.len() as int,
            x@.len() as int,
            old(out)@.len() as int,
            row_stride as int,
            rows as int,
            cols as int,
        ) ==> final(out)@.len() == old(out)@.len() && (forall|r: int, i: int|
            0 <= r < rows && 0 <= i < cols ==> #[trigger] final(out)@[cell(r, i, row_stride as int)] == old(out)@[cell(r, i, row_stride as int)].plus(alphas@[r].times(x@[i]))) && (forall|p: int|
            0 <= p < old(out)@.len() && !in_block(p, row_stride as int, rows as int, cols as int) ==> #[trigger] final(out)@[p] == old(out)@[p]),
{
    if rows == 0 || cols == 0 {
        return;
    }
    let last_row_offset = match (rows - 1).checked_mul(row_stride) {
        Some(v) => v,
        None => {
            return;
        },
    };
    let required_out_len = match last_row_offset.checked_add(cols) {
        Some(v) => v,
        None => {
            return;
        },
    };
    if alphas.len() < rows || x.len() < cols || row_stride < cols || out.len() < required_out_len {
        return;
    }
    axpy_rows_from(alphas, 0, x, 0, out, row_stride, rows, cols);
}

/// `o0` plus `alphas[t * rows + r] · x_panel[t * cols + i]` for `t < depth`,
/// added in order of `t`.
pub open spec fn batch_accum<T: Scalar>(
    o0: T,
    alphas: Seq<T>,
    x_panel: Seq<T>,
    r: int,
    i: int,
    rows: int,
    cols: int,
    depth: nat,
) -> T
    decreases depth,
{
    if depth == 0 {
        o0
    } else {
        batch_accum(o0, alphas, x_panel, r, i, rows, cols, (depth - 1) as nat).plus(
            alphas[(depth - 1) * rows + r].times(x_panel[(depth - 1) * cols + i]),
        )
    }
}

/// Every update of `batch_accum(o0, alphas, x_panel, r, i, rows, cols,
/// depth)` is representable.
pub open spec fn batch_accum_ok<T: Scalar>(
    o0: T,
    alphas: Seq<T>,
    x_panel: Seq<T>,
    r: int,
    i: int,
    rows: int,
    cols: int,
    depth: nat,
) -> bool
    decreases depth,
{
    depth == 0 || (batch_accum_ok(o0, alphas, x_panel, r, i, rows, cols, (depth - 1) as nat) && axpy_ok(
        alphas[(depth - 1) * rows + r],
        x_panel[(depth - 1) * cols + i],
        batch_accum(o0, alphas, x_panel, r, i, rows, cols, (depth - 1) as nat),
    ))
}

proof fn lemma_batch_ok_prefix<T: Scalar>(
    o0: T,
    alphas: Seq<T>,
    x_panel: Seq<T>,
    r: int,
    i: int,
    rows: int,
    cols: int,
    t: nat,
    depth: nat,
)
    requires
        t <= depth,
        batch_accum_ok(o0, alphas, x_panel, r, i, rows, cols, depth),
    ensures
        batch_accum_ok(o0, alphas, x_panel, r, i, rows, cols, t),
    decreases depth - t,
{
    if t < depth {
        lemma_batch_ok_prefix(o0, alphas, x_panel, r, i, rows, cols, t, (depth - 1) as nat);
    }
}

/// `axpy_rows_batch` runs: no extent is zero, the panel sizes fit in
/// `usize`, the slices are long enough, and each panel's `axpy_rows` runs.
pub open spec fn axpy_batch_applies(
    alphas_len: int,
    panel_len: int,
    out_len: int,
    row_stride: int,
    rows: int,
    depth: int,
    cols: int,
) -> bool {
    &&& rows > 0 && depth > 0 && cols > 0
    &&& rows * depth <= usize::MAX && depth * cols <= usize::MAX
    &&& alphas_len >= rows * depth && panel_len >= depth * cols
    &&& axpy_rows_applies(rows, cols, out_len, row_stride, rows, cols)
}

/// Fused batched multi-row update: for each `t < depth` in order,
/// `out[r * row_stride + i] += alphas[t * rows + r] · x_panel[t * cols + i]`;
/// nothing happens when an extent is zero, a size overflows, or a slice is
/// too short.
pub fn axpy_rows_batch<T: Scalar>(
    alphas: &[T],
    x_panel: &[T],
    out: &mut [T],
    row_stride: usize,
    rows: usize,
    depth: usize,
    cols: usize,
)
    requires
        axpy_batch_applies(
            alphas@.len() as int,
            x_panel@.len() as int,
            old(out)@.len() as int,
            row_stride as int,
            rows as int,
            depth as int,
            cols as int,
        ) ==> forall|r: int, i: int|
            0 <= r < rows && 0 <= i < cols ==> #[trigger] batch_accum_ok(
                old(out)@[cell(r, i, row_stride as int)],
                alphas@,
                x_panel@,
                r,
                i,
                rows as int,
                cols as int,
                depth as nat,
            ),
    ensures
        !axpy_batch_applies(
            alphas@.len() as int,
            x_panel@.len() as int,
            old(out)@.len() as int,
            row_stride as int,
            rows as int,
            depth as int,
            cols as int,
        ) ==> final(out)@ == old(out)@,
        axpy_batch_applies(
            alphas@.len() as int,
            x_panel@.len() as int,
            old(out)@.len() as int,
            row_stride as int,
            rows as int,
            depth as int,
            cols as int,
        ) ==> final(out)@.len() == old(out)@.len() && (forall|r: int, i: int|
            0 <= r < rows && 0 <= i < cols ==> #[trigger] final(out)@[cell(r, i, row_stride as int)]
                == batch_accum(
                old(out)@[cell(r, i, row_stride as int)],
                alphas@,
                x_panel@,
                r,
                i,
                rows as int,
                cols as int,
                depth as nat,
            )) && (forall|p: int|
            0 <= p < old(out)@.len() && !in_block(p, row_stride as int, rows as int, cols as int) ==> #[trigger] final(out)@[p] == old(out)@[p]),
{
    if rows == 0 || depth == 0 || cols == 0 {
        return;
    }
    let alpha_len = match rows.checked_mul(depth) {
        Some(v) => v,
        None => {
            return;
        },
    };
    let panel_len = match depth.checked_mul(cols) {
        Some(v) => v,
        None => {
            return;
        },
    };
    if alphas.len() < alpha_len || x_panel.len() < panel_len {
        return;
    }
    let last_row_offset = match (rows - 1).checked_mul(row_stride) {
        Some(v) => v,
        None => {
            return;
        },
    };
    let required_out_len = match last_row_offset.checked_add(cols) {
        Some(v) => v,
        None => {
            return;
        },
    };
    if row_stride < cols || out.len() < required_out_len {
        return;
    }
    let ghost before = out@;
    let ghost s = row_stride as int;
    for shared in 0..depth
        invariant
            alpha_len == rows * depth,
            panel_len == depth * cols,
            before == old(out)@,
            out@.len() == before.len(),
            rows > 0 && cols > 0 && depth > 0,
            s == row_stride,
            row_stride >= cols,
            rows * depth <= alphas@.len(),
            depth * cols <= x_panel@.len(),
            rows_span(rows as int, s, cols as int) <= before.len(),
            forall|r: int, i: int|
                0 <= r < rows && 0 <= i < cols ==> #[trigger] batch_accum_ok(
                    before[cell(r, i, s)],
                    alphas@,
                    x_panel@,
                    r,
                    i,
                    rows as int,
                    cols as int,
                    depth as nat,
                ),
            forall|r: int, i: int|
                0 <= r < rows && 0 <= i < cols ==> #[trigger] out@[cell(r, i, s)] == batch_accum(
                    before[cell(r, i, s)],
                    alphas@,
                    x_panel@,
                    r,
                    i,
                    rows as int,
                    cols as int,
                    shared as nat,
                ),
            forall|p: int|
                0 <= p < before.len() && !in_block(p, s, rows as int, cols as int) ==> #[trigger] out@[p] == before[p],
    {
        proof {
            assert(shared * rows + rows <= rows * depth) by (nonlinear_arith)
                requires
                    shared < depth,
                    rows >= 0,
            ;
            assert(shared * cols + cols <= depth * cols) by (nonlinear_arith)
                requires
                    shared < depth,
                    cols >= 0,
            ;
        }
        let alpha_start = shared * rows;
        let x_start = shared * cols;
        proof {
            assert forall|r: int, i: int|
                0 <= r < rows && 0 <= i < cols implies #[trigger] axpy_ok(
                    alphas@[alpha_start + r],
                    x_panel@[x_start + i],
                    out@[cell(r, i, s)],
                ) by {
                lemma_batch_ok_prefix(
                    before[cell(r, i, s)],
                    alphas@,
                    x_panel@,
                    r,
                    i,
                    rows as int,
                    cols as int,
                    (shared + 1) as nat,
                    depth as nat,
                );
            }
        }
        let ghost mid = out@;
        axpy_rows_from(alphas, alpha_start, x_panel, x_start, out, row_stride, rows, cols);
        proof {
            assert forall|r: int, i: int|
                0 <= r < rows && 0 <= i < cols implies #[trigger] out@[cell(r, i, s)] == batch_accum(
                    before[cell(r, i, s)],
                    alphas@,
                    x_panel@,
                    r,
                    i,
                    rows as int,
                    cols as int,
                    (shared + 1) as nat,
                ) by {
                assert(out@[cell(r, i, s)] == mid[cell(r, i, s)].plus(
                    alphas@[alpha_start + r].times(x_panel@[x_start + i]),
                ));
            }
        }
    }
}


/// Row `r` of a span starts early enough for its `cols` columns.
proof fn lemma_row_start(r: int, stride: int, rows: int, cols: int)
    requires
        0 <= r < rows,
        0 <= cols,
        0 <= stride,
    ensures
        0 <= r * stride,
        r * stride + cols <= rows_span(rows, stride, cols),
{
    assert(0 <= r * stride <= (rows - 1) * stride) by (nonlinear_arith)
        requires
            0 <= r <= rows - 1,
            stride >= 0,
    ;
}

/// A full block of `rows` rows spans `rows * cols` positions at stride
/// `cols`.
proof fn lemma_full_span(rows: int, cols: int)
    requires
        rows > 0,
    ensures
        rows_span(rows, cols, cols) == rows * cols,
{
    assert((rows - 1) * cols + cols == rows * cols) by (nonlinear_arith);
}

/// `Σ a[start + c] · x[c]` for `c < k`, added left to right from zero.
pub open spec fn strided_dot<T: Scalar>(a: Seq<T>, x: Seq<T>, start: int, k: nat) -> T
    decreases k,
{
    if k == 0 {
        T::zero_value()
    } else {
        strided_dot(a, x, start, (k - 1) as nat).plus(a[start + k - 1].times(x[k - 1]))
    }
}

/// Every product and partial sum of `strided_dot(a, x, start, k)` is
/// representable.
pub open spec fn strided_dot_ok<T: Scalar>(a: Seq<T>, x: Seq<T>, start: int, k: nat) -> bool
    decreases k,
{
    k == 0 || (strided_dot_ok(a, x, start, (k - 1) as nat) && a[start + k - 1].can_mul(x[k - 1]) && strided_dot(
        a,
        x,
        start,
        (k - 1) as nat,
    ).can_add(a[start + k - 1].times(x[k - 1])))
}

proof fn lemma_strided_dot_ok_prefix<T: Scalar>(a: Seq<T>, x: Seq<T>, start: int, j: nat, k: nat)
    requires
        j <= k,
        strided_dot_ok(a, x, start, k),
    ensures
        strided_dot_ok(a, x, start, j),
    decreases k - j,
{
    if j < k {
        lemma_strided_dot_ok_prefix(a, x, start, j, (k - 1) as nat);
    }
}

/// `gemv_strided` runs: the row stride covers the columns, `x` has a value
/// per column, `y` one per row, and `a` holds the whole sub-matrix.
pub open spec fn gemv_applies(a_len: int, x_len: int, y_len: int, nrows: int, ncols: int, lda: int) -> bool {
    lda >= ncols && x_len >= ncols && y_len >= nrows && rows_span(nrows, lda, ncols) <= a_len
}

/// Sub-matrix product `y[r] += Σ_c a[r * lda + c] · x[c]` over the row-major
/// `nrows × ncols` sub-matrix with row stride `lda`, each row's sum added
/// left to right from zero; nothing happens when the slices do not fit.
pub fn gemv_strided<T: Scalar>(a: &[T], x: &[T], y: &mut [T], nrows: usize, ncols: usize, lda: usize)
    requires
        lda >= ncols && x@.len() >= ncols && old(y)@.len() >= nrows ==> rows_span(
            nrows as int,
            lda as int,
            ncols as int,
        ) <= usize::MAX,
        gemv_applies(
            a@.len() as int,
            x@.len() as int,
            old(y)@.len() as int,
            nrows as int,
            ncols as int,
            lda as int,
        ) ==> forall|r: int|
            0 <= r < nrows ==> #[trigger] strided_dot_ok(a@, x@, cell(r, 0, lda as int), ncols as nat) && old(
                y,
            )@[r].can_add(strided_dot(a@, x@, cell(r, 0, lda as int), ncols as nat)),
    ensures
        !gemv_applies(
            a@.len() as int,
            x@.len() as int,
            old(y)@.len() as int,
            nrows as int,
            ncols as int,
            lda as int,
        ) ==> final(y)@ == old(y)@,
        gemv_applies(
            a@.len() as int,
            x@.len() as int,
            old(y)@.len() as int,
            nrows as int,
            ncols as int,
            lda as int,
        ) ==> final(y)@.len() == old(y)@.len() && forall|r: int|
            0 <= r < old(y)@.len() ==> #[trigger] final(y)@[r] == if r < nrows {
                old(y)@[r].plus(strided_dot(a@, x@, cell(r, 0, lda as int), ncols as nat))
            } else {
                old(y)@[r]
            },
{
    if lda < ncols || x.len() < ncols || y.len() < nrows {
        return;
    }
    let a_needed = if nrows == 0 {
        0
    } else {
        (nrows - 1) * lda + ncols
    };
    if a.len() < a_needed {
        return;
    }
    let na = a.len();
    let ghost before = y@;
    for r in 0..nrows
        invariant
            na == a@.len(),
            before == old(y)@,
            y@.len() == before.len(),
            lda >= ncols,
            x@.len() >= ncols,
            before.len() >= nrows,
            rows_span(nrows as int, lda as int, ncols as int) <= a@.len(),
            forall|r2: int|
                0 <= r2 < nrows ==> #[trigger] strided_dot_ok(a@, x@, cell(r2, 0, lda as int), ncols as nat)
                    && before[r2].can_add(strided_dot(a@, x@, cell(r2, 0, lda as int), ncols as nat)),
            forall|r2: int|
                0 <= r2 < before.len() ==> #[trigger] y@[r2] == if r2 < r {
                    before[r2].plus(strided_dot(a@, x@, cell(r2, 0, lda as int), ncols as nat))
                } else {
                    before[r2]
                },
    {
        proof {
            lemma_row_start(r as int, lda as int, nrows as int, ncols as int);
            assert(strided_dot_ok(a@, x@, cell(r as int, 0, lda as int), ncols as nat));
        }
        let start = r * lda;
        let mut acc = T::zero();
        for c in 0..ncols
            invariant
                na == a@.len(),
                start == cell(r as int, 0, lda as int),
                start + ncols <= a@.len(),
                x@.len() >= ncols,
                strided_dot_ok(a@, x@, start as int, ncols as nat),
                acc == strided_dot(a@, x@, start as int, c as nat),
        {
            proof {
                lemma_strided_dot_ok_prefix(a@, x@, start as int, (c + 1) as nat, ncols as nat);
            }
            acc = acc.add(a[start + c].mul(x[c]));
        }
        y[r] = y[r].add(acc);
    }
}

/// `y0` plus `a[t * lda + c] · x[t]` for `t < k`, added in row order.
pub open spec fn column_accum<T: Scalar>(y0: T, a: Seq<T>, x: Seq<T>, c: int, lda: int, k: nat) -> T
    decreases k,
{
    if k == 0 {
        y0
    } else {
        column_accum(y0, a, x, c, lda, (k - 1) as nat).plus(a[cell(k - 1, c, lda)].times(x[k - 1]))
    }
}

/// Every update of `column_accum(y0, a, x, c, lda, k)` is representable.
pub open spec fn column_accum_ok<T: Scalar>(y0: T, a: Seq<T>, x: Seq<T>, c: int, lda: int, k: nat) -> bool
    decreases k,
{
    k == 0 || (column_accum_ok(y0, a, x, c, lda, (k - 1) as nat) && axpy_ok(
        a[cell(k - 1, c, lda)],
        x[k - 1],
        column_accum(y0, a, x, c, lda, (k - 1) as nat),
    ))
}

proof fn lemma_column_accum_ok_prefix<T: Scalar>(y0: T, a: Seq<T>, x: Seq<T>, c: int, lda: int, j: nat, k: nat)
    requires
        j <= k,
        column_accum_ok(y0, a, x, c, lda, k),
    ensures
        column_accum_ok(y0, a, x, c, lda, j),
    decreases k - j,
{
    if j < k {
        lemma_column_accum_ok_prefix(y0, a, x, c, lda, j, (k - 1) as nat);
    }
}

/// `gemv_transpose_strided` runs: the row stride covers the columns, `x`
/// has a value per row, `y` one per column, and `a` holds the whole
/// sub-matrix.
pub open spec fn gemv_transpose_applies(a_len: int, x_len: int, y_len: int, nrows: int, ncols: int, lda: int) -> bool {
    lda >= ncols && x_len >= nrows && y_len >= ncols && rows_span(nrows, lda, ncols) <= a_len
}

/// Transposed sub-matrix product `y[c] += Σ_r a[r * lda + c] · x[r]` over
/// the row-major `nrows × ncols` sub-matrix with row stride `lda`, rows
/// taken in order; nothing happens when the slices do not fit.
pub fn gemv_transpose_strided<T: Scalar>(a: &[T], x: &[T], y: &mut [T], nrows: usize, ncols: usize, lda: usize)
    requires
        lda >= ncols && x@.len() >= nrows && old(y)@.len() >= ncols ==> rows_span(
            nrows as int,
            lda as int,
            ncols as int,
        ) <= usize::MAX,
        gemv_transpose_applies(
            a@.len() as int,
            x@.len() as int,
            old(y)@.len() as int,
            nrows as int,
            ncols as int,
            lda as int,
        ) ==> forall|c: int|
            0 <= c < ncols ==> #[trigger] column_accum_ok(old(y)@[c], a@, x@, c, lda as int, nrows as nat),
    ensures
        !gemv_transpose_applies(
            a@.len() as int,
            x@.len() as int,
            old(y)@.len() as int,
            nrows as int,
            ncols as int,
            lda as int,
        ) ==> final(y)@ == old(y)@,
        gemv_transpose_applies(
            a@.len() as int,
            x@.len() as int,
            old(y)@.len() as int,
            nrows as int,
            ncols as int,
            lda as int,
        ) ==> final(y)@.len() == old(y)@.len() && forall|c: int|
            0 <= c < old(y)@.len() ==> #[trigger] final(y)@[c] == if c < ncols {
                column_accum(old(y)@[c], a@, x@, c, lda as int, nrows as nat)
            } else {
                old(y)@[c]
            },
{
    if lda < ncols || x.len() < nrows || y.len() < ncols {
        return;
    }
    let a_needed = if nrows == 0 {
        0
    } else {
        (nrows - 1) * lda + ncols
    };
    if a.len() < a_needed {
        return;
    }
    let na = a.len();
    let ghost before = y@;
    for r in 0..nrows
        invariant
            na == a@.len(),
            before == old(y)@,
            y@.len() == before.len(),
            lda >= ncols,
            x@.len() >= nrows,
            before.len() >= ncols,
            rows_span(nrows as int, lda as int, ncols as int) <= a@.len(),
            forall|c2: int| 0 <= c2 < ncols ==> #[trigger] column_accum_ok(before[c2], a@, x@, c2, lda as int, nrows as nat),
            forall|c2: int|
                0 <= c2 < before.len() ==> #[trigger] y@[c2] == if c2 < ncols {
                    column_accum(before[c2], a@, x@, c2, lda as int, r as nat)
                } else {
                    before[c2]
                },
    {
        proof {
            lemma_row_start(r as int, lda as int, nrows as int, ncols as int);
        }
        let start = r * lda;
        let xr = x[r];
        for c in 0..ncols
            invariant
                na == a@.len(),
                before == old(y)@,
                y@.len() == before.len(),
                r < nrows,
                start == cell(r as int, 0, lda as int),
                start + ncols <= a@.len(),
                xr == x@[r as int],
                before.len() >= ncols,
                forall|c2: int|
                    0 <= c2 < ncols ==> #[trigger] column_accum_ok(before[c2], a@, x@, c2, lda as int, nrows as nat),
                forall|c2: int|
                    0 <= c2 < before.len() ==> #[trigger] y@[c2] == if c2 < c {
                        column_accum(before[c2], a@, x@, c2, lda as int, (r + 1) as nat)
                    } else if c2 < ncols {
                        column_accum(before[c2], a@, x@, c2, lda as int, r as nat)
                    } else {
                        before[c2]
                    },
        {
            proof {
                lemma_column_accum_ok_prefix(before[c as int], a@, x@, c as int, lda as int, (r + 1) as nat, nrows as nat);
                assert(cell(r as int, c as int, lda as int) == start + c);
            }
            y[c] = y[c].add(a[start + c].mul(xr));
        }
    }
}

/// `c0` plus `a[r * k + t] · b[t * n + col]` for `t < kk`, in order of `t`,
/// skipping the terms whose `a` factor is zero.
pub open spec fn gemm_accum<T: Scalar>(
    c0: T,
    a: Seq<T>,
    b: Seq<T>,
    r: int,
    col: int,
    k: int,
    n: int,
    kk: nat,
) -> T
    decreases kk,
{
    if kk == 0 {
        c0
    } else {
        let prev = gemm_accum(c0, a, b, r, col, k, n, (kk - 1) as nat);
        let av = a[cell(r, kk - 1, k)];
        if av == T::zero_value() {
            prev
        } else {
            prev.plus(av.times(b[cell(kk - 1, col, n)]))
        }
    }
}

/// Every update of `gemm_accum(c0, a, b, r, col, k, n, kk)` is
/// representable.
pub open spec fn gemm_accum_ok<T: Scalar>(
    c0: T,
    a: Seq<T>,
    b: Seq<T>,
    r: int,
    col: int,
    k: int,
    n: int,
    kk: nat,
) -> bool
    decreases kk,
{
    kk == 0 || (gemm_accum_ok(c0, a, b, r, col, k, n, (kk - 1) as nat) && (a[cell(r, kk - 1, k)]
        != T::zero_value() ==> axpy_ok(
        a[cell(r, kk - 1, k)],
        b[cell(kk - 1, col, n)],
        gemm_accum(c0, a, b, r, col, k, n, (kk - 1) as nat),
    )))
}

proof fn lemma_gemm_ok_prefix<T: Scalar>(
    c0: T,
    a: Seq<T>,
    b: Seq<T>,
    r: int,
    col: int,
    k: int,
    n: int,
    j: nat,
    kk: nat,
)
    requires
        j <= kk,
        gemm_accum_ok(c0, a, b, r, col, k, n, kk),
    ensures
        gemm_accum_ok(c0, a, b, r, col, k, n, j),
    decreases kk - j,
{
    if j < kk {
        lemma_gemm_ok_prefix(c0, a, b, r, col, k, n, j, (kk - 1) as nat);
    }
}

/// `tiled_gemm` runs: no extent is zero and the slices hold the `m × k`,
/// `k × n` and `m × n` row-major matrices.
pub open spec fn gemm_applies(a_len: int, b_len: int, c_len: int, m: int, n: int, k: int) -> bool {
    m > 0 && n > 0 && k > 0 && a_len >= m * k && b_len >= k * n && c_len >= m * n
}

/// Matrix product `c += a · b` of row-major `m × k` and `k × n` matrices
/// into the row-major `m × n` matrix `c`, each element accumulating over
/// `k` in order and skipping the zero entries of `a`; nothing happens when
/// an extent is zero or a slice is too short.
pub fn tiled_gemm<T: Scalar>(a: &[T], b: &[T], c: &mut [T], m: usize, n: usize, k: usize)
    requires
        m > 0 && n > 0 && k > 0 ==> m * k <= usize::MAX && k * n <= usize::MAX && m * n <= usize::MAX,
        gemm_applies(a@.len() as int, b@.len() as int, old(c)@.len() as int, m as int, n as int, k as int)
            ==> forall|r: int, col: int|
            0 <= r < m && 0 <= col < n ==> #[trigger] gemm_accum_ok(
                old(c)@[cell(r, col, n as int)],
                a@,
                b@,
                r,
                col,
                k as int,
                n as int,
                k as nat,
            ),
    ensures
        !gemm_applies(a@.len() as int, b@.len() as int, old(c)@.len() as int, m as int, n as int, k as int)
            ==> final(c)@ == old(c)@,
        gemm_applies(a@.len() as int, b@.len() as int, old(c)@.len() as int, m as int, n as int, k as int)
            ==> final(c)@.len() == old(c)@.len() && (forall|r: int, col: int|
            0 <= r < m && 0 <= col < n ==> #[trigger] final(c)@[cell(r, col, n as int)] == gemm_accum(
                old(c)@[cell(r, col, n as int)],
                a@,
                b@,
                r,
                col,
                k as int,
                n as int,
                k as nat,
            )) && (forall|p: int| m * n <= p < old(c)@.len() ==> #[trigger] final(c)@[p] == old(c)@[p]),
{
    if m == 0 || n == 0 || k == 0 {
        return;
    }
    if a.len() < m * k || b.len() < k * n || c.len() < m * n {
        return;
    }
    let ghost before = c@;
    let ghost (ni, ki) = (n as int, k as int);
    proof {
        lemma_full_span(m as int, ni);
        lemma_full_span(m as int, ki);
        lemma_full_span(ki, ni);
    }
    for r in 0..m
        invariant
            before == old(c)@,
            c@.len() == before.len(),
            ni == n,
            ki == k,
            m > 0 && n > 0 && k > 0,
            m * k <= usize::MAX && k * n <= usize::MAX && m * n <= usize::MAX,
            a@.len() >= m * k,
            b@.len() >= k * n,
            before.len() >= m * n,
            rows_span(m as int, ni, ni) == m * n,
            rows_span(m as int, ki, ki) == m * k,
            rows_span(ki, ni, ni) == k * n,
            forall|r2: int, col: int|
                0 <= r2 < m && 0 <= col < n ==> #[trigger] gemm_accum_ok(
                    before[cell(r2, col, ni)],
                    a@,
                    b@,
                    r2,
                    col,
                    ki,
                    ni,
                    k as nat,
                ),
            forall|r2: int, col: int|
                0 <= r2 < r && 0 <= col < n ==> #[trigger] c@[cell(r2, col, ni)] == gemm_accum(
                    before[cell(r2, col, ni)],
                    a@,
                    b@,
                    r2,
                    col,
                    ki,
                    ni,
                    k as nat,
                ),
            forall|p: int| cell(r as int, 0, ni) <= p < before.len() ==> #[trigger] c@[p] == before[p],
    {
        proof {
            lemma_row_start(r as int, ni, m as int, ni);
            lemma_row_start(r as int, ki, m as int, ki);
            assert(cell(r as int + 1, 0, ni) >= cell(r as int, 0, ni)) by (nonlinear_arith)
                requires
                    ni >= 0,
                    r >= 0,
            ;
        }
        let row_c = r * n;
        let row_a = r * k;
        for kk in 0..k
            invariant
                before == old(c)@,
                c@.len() == before.len(),
                ni == n,
                ki == k,
                r < m,
                m > 0 && n > 0 && k > 0,
                m * k <= usize::MAX && k * n <= usize::MAX && m * n <= usize::MAX,
                row_c == cell(r as int, 0, ni),
                row_a == cell(r as int, 0, ki),
                row_c + n <= m * n,
                row_a + k <= m * k,
                a@.len() >= m * k,
                b@.len() >= k * n,
                before.len() >= m * n,
                rows_span(ki, ni, ni) == k * n,
                forall|r2: int, col: int|
                    0 <= r2 < m && 0 <= col < n ==> #[trigger] gemm_accum_ok(
                        before[cell(r2, col, ni)],
                        a@,
                        b@,
                        r2,
                        col,
                        ki,
                        ni,
                        k as nat,
                    ),
                forall|r2: int, col: int|
                    0 <= r2 < r && 0 <= col < n ==> #[trigger] c@[cell(r2, col, ni)] == gemm_accum(
                        before[cell(r2, col, ni)],
                        a@,
                        b@,
                        r2,
                        col,
                        ki,
                        ni,
                        k as nat,
                    ),
                forall|col: int|
                    0 <= col < n ==> #[trigger] c@[cell(r as int, col, ni)] == gemm_accum(
                        before[cell(r as int, col, ni)],
                        a@,
                        b@,
                        r as int,
                        col,
                        ki,
                        ni,
                        kk as nat,
                    ),
                forall|p: int| cell(r as int + 1, 0, ni) <= p < before.len() ==> #[trigger] c@[p] == before[p],
        {
            proof {
                lemma_row_start(kk as int, ni, ki, ni);
                assert(cell(r as int, kk as int, ki) == row_a + kk);
            }
            let a_val = a[row_a + kk];
            if !a_val.is_zero() {
                let row_b = kk * n;
                for col in 0..n
                    invariant
                        before == old(c)@,
                        c@.len() == before.len(),
                        ni == n,
                        ki == k,
                        r < m,
                        kk < k,
                        m * n <= usize::MAX && k * n <= usize::MAX,
                        row_c == cell(r as int, 0, ni),
                        row_b == cell(kk as int, 0, ni),
                        row_c + n <= m * n,
                        row_b + n <= k * n,
                        b@.len() >= k * n,
                        before.len() >= m * n,
                        a_val == a@[cell(r as int, kk as int, ki)],
                        a_val != T::zero_value(),
                        forall|r2: int, col2: int|
                            0 <= r2 < m && 0 <= col2 < n ==> #[trigger] gemm_accum_ok(
                                before[cell(r2, col2, ni)],
                                a@,
                                b@,
                                r2,
                                col2,
                                ki,
                                ni,
                                k as nat,
                            ),
                        forall|r2: int, col2: int|
                            0 <= r2 < r && 0 <= col2 < n ==> #[trigger] c@[cell(r2, col2, ni)] == gemm_accum(
                                before[cell(r2, col2, ni)],
                                a@,
                                b@,
                                r2,
                                col2,
                                ki,
                                ni,
                                k as nat,
                            ),
                        forall|col2: int|
                            0 <= col2 < n ==> #[trigger] c@[cell(r as int, col2, ni)] == gemm_accum(
                                before[cell(r as int, col2, ni)],
                                a@,
                                b@,
                                r as int,
                                col2,
                                ki,
                                ni,
                                if col2 < col {
                                    (kk + 1) as nat
                                } else {
                                    kk as nat
                                },
                            ),
                        forall|p: int| cell(r as int + 1, 0, ni) <= p < before.len() ==> #[trigger] c@[p] == before[p],
                {
                    proof {
                        lemma_gemm_ok_prefix(
                            before[cell(r as int, col as int, ni)],
                            a@,
                            b@,
                            r as int,
                            col as int,
                            ki,
                            ni,
                            (kk + 1) as nat,
                            k as nat,
                        );
                        assert(cell(r as int, col as int, ni) == row_c + col);
                        assert(cell(kk as int, col as int, ni) == row_b + col);
                        assert(cell(r as int + 1, 0, ni) == row_c + ni) by (nonlinear_arith)
                            requires
                                row_c == cell(r as int, 0, ni),
                        ;
                    }
                    let p = row_c + col;
                    c[p] = c[p].add(a_val.mul(b[row_b + col]));
                    proof {
                        assert forall|r2: int, col2: int|
                            0 <= r2 < r && 0 <= col2 < n implies #[trigger] c@[cell(r2, col2, ni)] == gemm_accum(
                                before[cell(r2, col2, ni)],
                                a@,
                                b@,
                                r2,
                                col2,
                                ki,
                                ni,
                                k as nat,
                            ) by {
                            lemma_cell(r2, col2, ni, r as int, ni);
                            lemma_full_span(r as int, ni);
                        }
                        assert forall|col2: int| 0 <= col2 < n implies #[trigger] c@[cell(r as int, col2, ni)]
                            == gemm_accum(
                            before[cell(r as int, col2, ni)],
                            a@,
                            b@,
                            r as int,
                            col2,
                            ki,
                            ni,
                            if col2 < col + 1 {
                                (kk + 1) as nat
                            } else {
                                kk as nat
                            },
                        ) by {}
                    }
                }
            }
        }
    }
}

} // verus!
