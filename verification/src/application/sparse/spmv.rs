//! Sparse products: matrix–vector `y = A x` over CSR and CSC storage, and
//! sparse–dense `C = A B` over CSR.
use vstd::prelude::*;
use crate::domain::error::{extent, LetoError, StorageFault};
use crate::application::tensor::Tensor;
use super::dense::{lemma_matrix_lanes, lemma_matrix_layout, lemma_position, matrix_at, matrix_column, matrix_shape, position};
use crate::domain::scalar::Scalar;
use super::compressed::{
    gathered, hits, lane, lemma_gathered_keyed, lemma_gathered_prefix, lemma_gathered_value, lemma_lane_keyed,
    lemma_value_at_found, strictly_keyed, value_at,
};
use super::csr::CsrView;
use crate::application::vector::{seq_dot, seq_dot_ok};
use super::csc::CscMatrix;
use super::csr::CsrMatrix;

verus! {

/// `Σ v · x[k]` over the `(k, v)` entries of `l`, added left to right from zero.
pub open spec fn lane_dot<T: Scalar>(l: Seq<(usize, T)>, x: Seq<T>) -> T
    decreases l.len(),
{
    if l.len() == 0 {
        T::zero_value()
    } else {
        lane_dot(l.drop_last(), x).plus(l.last().1.times(x[l.last().0 as int]))
    }
}

/// Every product and partial sum of `lane_dot(l, x)` is representable.
pub open spec fn lane_dot_ok<T: Scalar>(l: Seq<(usize, T)>, x: Seq<T>) -> bool
    decreases l.len(),
{
    l.len() == 0 || {
        let v = l.last().1.times(x[l.last().0 as int]);
        &&& lane_dot_ok(l.drop_last(), x)
        &&& l.last().1.can_mul(x[l.last().0 as int])
        &&& lane_dot(l.drop_last(), x).can_add(v)
    }
}

/// `lane_dot` restricted to the entries whose `x[k]` is not zero.
pub open spec fn lane_dot_skipping<T: Scalar>(l: Seq<(usize, T)>, x: Seq<T>) -> T
    decreases l.len(),
{
    if l.len() == 0 {
        T::zero_value()
    } else if x[l.last().0 as int] == T::zero_value() {
        lane_dot_skipping(l.drop_last(), x)
    } else {
        lane_dot_skipping(l.drop_last(), x).plus(l.last().1.times(x[l.last().0 as int]))
    }
}

/// Every product and partial sum of `lane_dot_skipping(l, x)` is representable.
pub open spec fn lane_dot_skipping_ok<T: Scalar>(l: Seq<(usize, T)>, x: Seq<T>) -> bool
    decreases l.len(),
{
    l.len() == 0 || {
        let v = l.last().1.times(x[l.last().0 as int]);
        &&& lane_dot_skipping_ok(l.drop_last(), x)
        &&& x[l.last().0 as int] != T::zero_value() ==> l.last().1.can_mul(x[l.last().0 as int])
            && lane_dot_skipping(l.drop_last(), x).can_add(v)
    }
}

proof fn lemma_dot_prefix<T: Scalar>(l: Seq<(usize, T)>, x: Seq<T>, k: int)
    requires
        lane_dot_ok(l, x),
        0 <= k <= l.len(),
    ensures
        lane_dot_ok(l.take(k), x),
    decreases l.len(),
{
    if k < l.len() {
        assert(l.drop_last().take(k) =~= l.take(k));
        lemma_dot_prefix(l.drop_last(), x, k);
    } else {
        assert(l.take(k) =~= l);
    }
}

/// Sparse matrix–vector product `y = A x` into caller-owned storage.
///
/// Fails, leaving `y` unchanged, with `ShapeMismatch { lhs: [x.len()], rhs:
/// [ncols] }` when `x` does not have `ncols` elements, then with
/// `ShapeMismatch { lhs: [y.len()], rhs: [nrows] }`. Otherwise `y[i]` is the
/// sum over row `i` of `A[i, k] · x[k]`, added left to right by increasing `k`.
pub fn spmv_into<T: Scalar>(a: &CsrMatrix<T>, x: &[T], y: &mut [T]) -> (r: Result<(), LetoError>)
    requires
        a@.wf(),
        x@.len() == a@.ncols && old(y)@.len() == a@.nrows ==> forall|i: int| 0 <= i < a@.nrows ==> #[trigger] lane_dot_ok(a@.row(i), x@),
    ensures
        x@.len() != a@.ncols ==> (r matches Err(LetoError::ShapeMismatch { lhs, rhs }) && lhs@ == seq![
            x@.len() as usize,
        ] && rhs@ == seq![a@.ncols]),
        x@.len() == a@.ncols && old(y)@.len() != a@.nrows ==> (r matches Err(
            LetoError::ShapeMismatch { lhs, rhs },
        ) && lhs@ == seq![old(y)@.len() as usize] && rhs@ == seq![a@.nrows]),
        r is Ok <==> x@.len() == a@.ncols && old(y)@.len() == a@.nrows,
        r is Err ==> final(y)@ == old(y)@,
        r is Ok ==> final(y)@.len() == a@.nrows && forall|i: int|
            0 <= i < a@.nrows ==> #[trigger] final(y)@[i] == lane_dot(a@.row(i), x@),
{
    let (nrows, ncols) = a.shape();
    if x.len() != ncols {
        return Err(LetoError::ShapeMismatch { lhs: extent(x.len()), rhs: extent(ncols) });
    }
    if y.len() != nrows {
        return Err(LetoError::ShapeMismatch { lhs: extent(y.len()), rhs: extent(nrows) });
    }
    let (values, col_indices, row_ptr) = a.as_parts();
    let ghost m = a@;
    for i in 0..nrows
        invariant
            m == a@,
            m.wf(),
            nrows == m.nrows,
            x@.len() == m.ncols,
            values@ == m.values,
            col_indices@ == m.col_indices,
            row_ptr@ == m.row_ptr,
            forall|i2: int| 0 <= i2 < m.nrows ==> #[trigger] lane_dot_ok(m.row(i2), x@),
            y@.len() == nrows,
            forall|i2: int| 0 <= i2 < i ==> #[trigger] y@[i2] == lane_dot(m.row(i2), x@),
    {
        let start = row_ptr[i];
        let end = row_ptr[i + 1];
        let ghost l = m.row(i as int);
        proof {
            assert(row_ptr@[i as int] <= row_ptr@[i + 1] <= row_ptr@[nrows as int]);
            lemma_lane_keyed(m.row_ptr, m.col_indices, m.values, m.values.len() as int, m.nrows as int, m.ncols as int, i as int);
            assert(lane_dot_ok(l, x@));
            assert(l.take(0) =~= Seq::<(usize, T)>::empty());
        }
        let mut acc = T::zero();
        for p in start..end
            invariant
                m.wf(),
                start == m.row_ptr[i as int],
                end == m.row_ptr[i + 1],
                end <= m.values.len(),
                values@ == m.values,
                col_indices@ == m.col_indices,
                x@.len() == m.ncols,
                l == m.row(i as int),
                strictly_keyed(l, m.ncols as int),
                lane_dot_ok(l, x@),
                acc == lane_dot(l.take(p - start), x@),
        {
            let ghost t = p - start;
            proof {
                assert(l[t] == (col_indices@[p as int], values@[p as int]));
                lemma_dot_prefix(l, x@, t + 1);
                assert(l.take(t + 1).drop_last() =~= l.take(t));
            }
            let prod = values[p].mul(x[col_indices[p]]);
            acc = acc.add(prod);
        }
        proof {
            assert(l.take(end - start) =~= l);
        }
        y[i] = acc;
    }
    Ok(())
}

/// Sparse matrix–vector product `y = A x`, allocating `y`.
///
/// Fails with `ShapeMismatch { lhs: [x.len()], rhs: [ncols] }` when `x`
/// does not have `ncols` elements.
pub fn spmv<T: Scalar>(a: &CsrMatrix<T>, x: &[T]) -> (r: Result<Vec<T>, LetoError>)
    requires
        a@.wf(),
        x@.len() == a@.ncols ==> forall|i: int| 0 <= i < a@.nrows ==> #[trigger] lane_dot_ok(a@.row(i), x@),
    ensures
        x@.len() != a@.ncols ==> (r matches Err(LetoError::ShapeMismatch { lhs, rhs }) && lhs@ == seq![
            x@.len() as usize,
        ] && rhs@ == seq![a@.ncols]),
        x@.len() == a@.ncols ==> r is Ok && r->Ok_0@.len() == a@.nrows && forall|i: int|
            0 <= i < a@.nrows ==> #[trigger] r->Ok_0@[i] == lane_dot(a@.row(i), x@),
{
    let (nrows, _) = a.shape();
    let mut y: Vec<T> = Vec::with_capacity(nrows);
    for i in 0..nrows
        invariant
            y@.len() == i,
    {
        y.push(T::zero());
    }
    match spmv_into(a, x, y.as_mut_slice()) {
        Ok(()) => Ok(y),
        Err(e) => Err(e),
    }
}


proof fn lemma_skipping_prefix<T: Scalar>(l: Seq<(usize, T)>, x: Seq<T>, k: int)
    requires
        lane_dot_skipping_ok(l, x),
        0 <= k <= l.len(),
    ensures
        lane_dot_skipping_ok(l.take(k), x),
    decreases l.len(),
{
    if k < l.len() {
        assert(l.drop_last().take(k) =~= l.take(k));
        lemma_skipping_prefix(l.drop_last(), x, k);
    } else {
        assert(l.take(k) =~= l);
    }
}

/// Entries whose `x[k]` is zero add nothing to `lane_dot_skipping`.
proof fn lemma_skipping_zero_tail<T: Scalar>(g: Seq<(usize, T)>, h: Seq<(usize, T)>, x: Seq<T>)
    requires
        forall|a: int| 0 <= a < h.len() ==> x[(#[trigger] h[a]).0 as int] == T::zero_value(),
    ensures
        lane_dot_skipping(g + h, x) == lane_dot_skipping(g, x),
    decreases h.len(),
{
    if h.len() > 0 {
        assert((g + h).drop_last() =~= g + h.drop_last());
        assert((g + h).last() == h.last());
        assert(x[h[h.len() - 1].0 as int] == T::zero_value());
        lemma_skipping_zero_tail(g, h.drop_last(), x);
    } else {
        assert(g + h =~= g);
    }
}

/// Sparse matrix–vector product `y = A x` for CSC storage, into caller-owned
/// storage: columns are visited in order, columns whose `x[j]` is zero are
/// skipped, and each entry `(i, j)` adds `A[i, j] · x[j]` to `y[i]`.
///
/// Fails, leaving `y` unchanged, with `ShapeMismatch { lhs: [x.len()], rhs:
/// [ncols] }`, then with `ShapeMismatch { lhs: [y.len()], rhs: [nrows] }`.
pub fn csc_spmv_into<T: Scalar>(a: &CscMatrix<T>, x: &[T], y: &mut [T]) -> (r: Result<(), LetoError>)
    requires
        a@.wf(),
        x@.len() == a@.ncols && old(y)@.len() == a@.nrows ==> forall|i: usize| i < a@.nrows ==> #[trigger] lane_dot_skipping_ok(a@.row(i), x@),
    ensures
        x@.len() != a@.ncols ==> (r matches Err(LetoError::ShapeMismatch { lhs, rhs }) && lhs@ == seq![
            x@.len() as usize,
        ] && rhs@ == seq![a@.ncols]),
        x@.len() == a@.ncols && old(y)@.len() != a@.nrows ==> (r matches Err(
            LetoError::ShapeMismatch { lhs, rhs },
        ) && lhs@ == seq![old(y)@.len() as usize] && rhs@ == seq![a@.nrows]),
        r is Ok <==> x@.len() == a@.ncols && old(y)@.len() == a@.nrows,
        r is Err ==> final(y)@ == old(y)@,
        r is Ok ==> final(y)@.len() == a@.nrows && forall|i: usize|
            i < a@.nrows ==> #[trigger] final(y)@[i as int] == lane_dot_skipping(a@.row(i), x@),
{
    let (nrows, ncols) = a.shape();
    if x.len() != ncols {
        return Err(LetoError::ShapeMismatch { lhs: extent(x.len()), rhs: extent(ncols) });
    }
    if y.len() != nrows {
        return Err(LetoError::ShapeMismatch { lhs: extent(y.len()), rhs: extent(nrows) });
    }
    for i in 0..nrows
        invariant
            y@.len() == nrows,
            forall|i2: int| 0 <= i2 < i ==> #[trigger] y@[i2] == T::zero_value(),
    {
        y[i] = T::zero();
    }
    let (values, row_indices, col_ptr) = a.as_parts();
    let ghost m = a@;
    let ghost (cp, ri, vs) = (m.col_ptr, m.row_indices, m.values);
    proof {
        assert forall|i: usize| i < nrows implies #[trigger] y@[i as int] == lane_dot_skipping(
            gathered(cp, ri, vs, i, 0),
            x@,
        ) by {
            assert(gathered(cp, ri, vs, i, 0) =~= Seq::<(usize, T)>::empty());
        }
    }
    for j in 0..ncols
        invariant
            m == a@,
            m.wf(),
            nrows == m.nrows,
            ncols == m.ncols,
            cp == m.col_ptr,
            ri == m.row_indices,
            vs == m.values,
            x@.len() == ncols,
            values@ == vs,
            row_indices@ == ri,
            col_ptr@ == cp,
            forall|i: usize| i < nrows ==> #[trigger] lane_dot_skipping_ok(m.row(i), x@),
            y@.len() == nrows,
            forall|i: usize| i < nrows ==> #[trigger] y@[i as int] == lane_dot_skipping(gathered(cp, ri, vs, i, j as int), x@),
    {
        let xj = x[j];
        let ghost l = lane(cp, ri, vs, j as int);
        proof {
            assert(cp[j as int] <= cp[j + 1] <= cp[ncols as int]);
            lemma_lane_keyed(cp, ri, vs, vs.len() as int, ncols as int, nrows as int, j as int);
        }
        if xj.is_zero() {
            proof {
                assert forall|i: usize| i < nrows implies #[trigger] y@[i as int] == lane_dot_skipping(
                    gathered(cp, ri, vs, i, j + 1),
                    x@,
                ) by {
                    let h = hits(l, i, j);
                    assert(gathered(cp, ri, vs, i, j + 1) == gathered(cp, ri, vs, i, j as int) + h);
                    lemma_hits_tagged(l, i, j);
                    lemma_skipping_zero_tail(gathered(cp, ri, vs, i, j as int), h, x@);
                }
            }
        } else {
            let start = col_ptr[j];
            let end = col_ptr[j + 1];
            proof {
                assert forall|i: usize| i < nrows implies #[trigger] y@[i as int] == lane_dot_skipping(
                    gathered(cp, ri, vs, i, j as int) + hits(l.take(0), i, j),
                    x@,
                ) by {
                    assert(gathered(cp, ri, vs, i, j as int) + hits(l.take(0), i, j) =~= gathered(cp, ri, vs, i, j as int));
                }
            }
            for p in start..end
                invariant
                    m.wf(),
                    nrows == m.nrows,
                    ncols == m.ncols,
                    cp == m.col_ptr,
                    ri == m.row_indices,
                    vs == m.values,
                    j < ncols,
                    start == cp[j as int],
                    end == cp[j + 1],
                    end <= vs.len(),
                    x@.len() == ncols,
                    values@ == vs,
                    row_indices@ == ri,
                    xj == x@[j as int],
                    xj != T::zero_value(),
                    l == lane(cp, ri, vs, j as int),
                    strictly_keyed(l, nrows as int),
                    forall|i: usize| i < nrows ==> #[trigger] lane_dot_skipping_ok(m.row(i), x@),
                    y@.len() == nrows,
                    forall|i: usize| i < nrows ==> #[trigger] y@[i as int] == lane_dot_skipping(
                        gathered(cp, ri, vs, i, j as int) + hits(l.take(p - start), i, j),
                        x@,
                    ),
            {
                let i = row_indices[p];
                let ghost t = p - start;
                let ghost before = y@;
                let ghost cur = gathered(cp, ri, vs, i, j as int) + hits(l.take(t), i, j);
                let ghost next = gathered(cp, ri, vs, i, j as int) + hits(l.take(t + 1), i, j);
                proof {
                    assert(l[t] == (ri[p as int], vs[p as int]));
                    assert(l.take(t + 1).drop_last() =~= l.take(t));
                    assert(hits(l.take(t + 1), i, j) == hits(l.take(t), i, j).push((j, vs[p as int])));
                    assert(next =~= cur.push((j, vs[p as int])));
                    lemma_gathered_prefix(cp, ri, vs, i, j as int, t + 1, ncols as int);
                    let all = gathered(cp, ri, vs, i, ncols as int);
                    assert(m.row(i) == all);
                    assert(all.take(next.len() as int) == next);
                    lemma_skipping_prefix(all, x@, next.len() as int);
                    assert(next.drop_last() =~= cur);
                }
                let prod = values[p].mul(xj);
                y[i] = y[i].add(prod);
                proof {
                    assert forall|i2: usize| i2 < nrows implies #[trigger] y@[i2 as int] == lane_dot_skipping(
                        gathered(cp, ri, vs, i2, j as int) + hits(l.take(t + 1), i2, j),
                        x@,
                    ) by {
                        if i2 != i {
                            assert(hits(l.take(t + 1), i2, j) == hits(l.take(t), i2, j));
                            assert(y@[i2 as int] == before[i2 as int]);
                        }
                    }
                }
            }
            proof {
                assert(l.take(end - start) =~= l);
                assert forall|i: usize| i < nrows implies #[trigger] y@[i as int] == lane_dot_skipping(
                    gathered(cp, ri, vs, i, j + 1),
                    x@,
                ) by {
                    assert(gathered(cp, ri, vs, i, j + 1) == gathered(cp, ri, vs, i, j as int) + hits(l, i, j));
                }
            }
        }
    }
    Ok(())
}

/// Every entry hit in a lane carries the lane's tag.
proof fn lemma_hits_tagged<T>(s: Seq<(usize, T)>, k: usize, tag: usize)
    ensures
        forall|a: int| 0 <= a < hits(s, k, tag).len() ==> (#[trigger] hits(s, k, tag)[a]).0 == tag,
    decreases s.len(),
{
    if s.len() > 0 {
        lemma_hits_tagged(s.drop_last(), k, tag);
        let prev = hits(s.drop_last(), k, tag);
        let cur = hits(s, k, tag);
        assert forall|a: int| 0 <= a < cur.len() implies (#[trigger] cur[a]).0 == tag by {
            if a < prev.len() {
                assert(cur[a] == prev[a]);
            }
        }
    }
}

/// Sparse matrix–vector product `y = A x` for CSC storage, allocating `y`.
///
/// Fails with `ShapeMismatch { lhs: [x.len()], rhs: [ncols] }` when `x`
/// does not have `ncols` elements.
pub fn csc_spmv<T: Scalar>(a: &CscMatrix<T>, x: &[T]) -> (r: Result<Vec<T>, LetoError>)
    requires
        a@.wf(),
        x@.len() == a@.ncols ==> forall|i: usize| i < a@.nrows ==> #[trigger] lane_dot_skipping_ok(a@.row(i), x@),
    ensures
        x@.len() != a@.ncols ==> (r matches Err(LetoError::ShapeMismatch { lhs, rhs }) && lhs@ == seq![
            x@.len() as usize,
        ] && rhs@ == seq![a@.ncols]),
        x@.len() == a@.ncols ==> r is Ok && r->Ok_0@.len() == a@.nrows && forall|i: usize|
            i < a@.nrows ==> #[trigger] r->Ok_0@[i as int] == lane_dot_skipping(a@.row(i), x@),
{
    let (nrows, _) = a.shape();
    let mut y: Vec<T> = Vec::with_capacity(nrows);
    for i in 0..nrows
        invariant
            y@.len() == i,
    {
        y.push(T::zero());
    }
    match csc_spmv_into(a, x, y.as_mut_slice()) {
        Ok(()) => Ok(y),
        Err(e) => Err(e),
    }
}


/// Sparse–dense product `C = A B` into caller-owned row-major `c`.
///
/// Fails, leaving `c` unchanged, with `ShapeMismatch { lhs: b shape, rhs:
/// [ncols, b columns] }` when `b` does not have `ncols` rows, then with
/// `ExtentOverflow` when `nrows · b columns` exceeds `usize::MAX`, then with
/// `ShapeMismatch { lhs: [c.len()], rhs: [nrows · b columns] }`. Otherwise
/// `C[i, k]` is the sum over row `i` of `A[i, j] · B[j, k]`, added left to
/// right by increasing `j`.
pub fn spmm_into<T: Scalar>(a: &CsrMatrix<T>, b: &Tensor<T>, c: &mut [T]) -> (r: Result<(), LetoError>)
    requires
        a@.wf(),
        b@.wf(),
        b@.shape.len() == 2,
        b@.shape[0] == a@.ncols && old(c)@.len() == a@.nrows * b@.shape[1] ==> forall|i: int, k: int|
            0 <= i < a@.nrows && 0 <= k < b@.shape[1] ==> #[trigger] lane_dot_ok(a@.row(i), matrix_column(b@, k)),
    ensures
        b@.shape[0] != a@.ncols ==> (r matches Err(LetoError::ShapeMismatch { lhs, rhs }) && lhs@ == b@.shape
            && rhs@ == seq![a@.ncols, b@.shape[1]]),
        b@.shape[0] == a@.ncols && a@.nrows * b@.shape[1] > usize::MAX ==> r == Err::<(), LetoError>(
            LetoError::StorageError { reason: StorageFault::ExtentOverflow },
        ),
        b@.shape[0] == a@.ncols && a@.nrows * b@.shape[1] <= usize::MAX && old(c)@.len() != a@.nrows
            * b@.shape[1] ==> (r matches Err(LetoError::ShapeMismatch { lhs, rhs }) && lhs@ == seq![
            old(c)@.len() as usize,
        ] && rhs@ == seq![(a@.nrows * b@.shape[1]) as usize]),
        r is Ok <==> b@.shape[0] == a@.ncols && old(c)@.len() == a@.nrows * b@.shape[1],
        r is Err ==> final(c)@ == old(c)@,
        r is Ok ==> final(c)@.len() == old(c)@.len() && forall|i: int, k: int|
            0 <= i < a@.nrows && 0 <= k < b@.shape[1] ==> #[trigger] final(c)@[i * b@.shape[1] + k] == lane_dot(
                a@.row(i),
                matrix_column(b@, k),
            ),
{
    let (nrows, ncols) = a.shape();
    let b_shape = b.shape();
    let b_rows = b_shape[0];
    let bcols = b_shape[1];
    if b_rows != ncols {
        let mut rhs: Vec<usize> = Vec::new();
        rhs.push(ncols);
        rhs.push(bcols);
        return Err(LetoError::ShapeMismatch { lhs: super::super::tensor::copy_extents(b_shape), rhs });
    }
    let clen = c.len();
    let output_len = match nrows.checked_mul(bcols) {
        Some(len) => len,
        None => {
            return Err(LetoError::StorageError { reason: StorageFault::ExtentOverflow });
        },
    };
    if c.len() != output_len {
        return Err(LetoError::ShapeMismatch { lhs: extent(c.len()), rhs: extent(output_len) });
    }
    for q in 0..output_len
        invariant
            c@.len() == output_len,
            forall|q2: int| 0 <= q2 < q ==> #[trigger] c@[q2] == T::zero_value(),
    {
        c[q] = T::zero();
    }
    let (values, col_indices, row_ptr) = a.as_parts();
    let bs = b.data();
    let bs_len = bs.len();
    let ghost (m, bv) = (a@, b@);
    let ghost (nr, bc) = (nrows as int, bcols as int);
    proof {
        lemma_matrix_lanes(bv);
        assert forall|i: int, k: int| 0 <= i < nr && 0 <= k < bc implies #[trigger] c@[position(i, k, nr, bc, true)]
            == T::zero_value() by {
            lemma_position(i, k, i, k, nr, bc, true);
        }
    }
    for i in 0..nrows
        invariant
            m == a@,
            bv == b@,
            m.wf(),
            bv.wf(),
            bv.shape.len() == 2,
            nrows == m.nrows,
            nr == nrows,
            bc == bcols,
            bcols == bv.shape[1],
            bv.shape[0] == m.ncols,
            values@ == m.values,
            col_indices@ == m.col_indices,
            row_ptr@ == m.row_ptr,
            bs@ == bv.data,
            bs_len == bv.data.len(),
            bv.data.len() == bv.shape[0] * bv.shape[1],
            forall|i2: int, j2: int|
                0 <= i2 < bv.shape[0] && 0 <= j2 < bv.shape[1] ==> #[trigger] matrix_at(bv, i2, j2) == bv.data[i2
                    * bv.shape[1] + j2],
            output_len == nrows * bcols,
            c@.len() == output_len,
            forall|i2: int, k: int|
                0 <= i2 < nr && 0 <= k < bc ==> #[trigger] lane_dot_ok(m.row(i2), matrix_column(bv, k)),
            forall|i2: int, k: int|
                0 <= i2 < i && 0 <= k < bc ==> c@[position(i2, k, nr, bc, true)] == #[trigger] lane_dot(
                    m.row(i2),
                    matrix_column(bv, k),
                ),
            forall|i2: int, k: int|
                i <= i2 < nr && 0 <= k < bc ==> #[trigger] c@[position(i2, k, nr, bc, true)] == T::zero_value(),
    {
        let start = row_ptr[i];
        let end = row_ptr[i + 1];
        let ghost l = m.row(i as int);
        proof {
            assert(row_ptr@[i as int] <= row_ptr@[i + 1] <= row_ptr@[nrows as int]);
            lemma_lane_keyed(m.row_ptr, m.col_indices, m.values, m.values.len() as int, m.nrows as int, m.ncols as int, i as int);
            assert(l.take(0) =~= Seq::<(usize, T)>::empty());
        }
        for p in start..end
            invariant
                m.wf(),
                bv.wf(),
                bv.shape.len() == 2,
                nrows == m.nrows,
                nr == nrows,
                bc == bcols,
                bcols == bv.shape[1],
                bv.shape[0] == m.ncols,
                i < nrows,
                start == m.row_ptr[i as int],
                end == m.row_ptr[i + 1],
                end <= m.values.len(),
                values@ == m.values,
                col_indices@ == m.col_indices,
                bs@ == bv.data,
                bs_len == bv.data.len(),
                bv.data.len() == bv.shape[0] * bv.shape[1],
                forall|i2: int, j2: int|
                    0 <= i2 < bv.shape[0] && 0 <= j2 < bv.shape[1] ==> #[trigger] matrix_at(bv, i2, j2) == bv.data[i2
                        * bv.shape[1] + j2],
                output_len == nrows * bcols,
                c@.len() == output_len,
                l == m.row(i as int),
                strictly_keyed(l, m.ncols as int),
                forall|k: int| 0 <= k < bc ==> #[trigger] lane_dot_ok(l, matrix_column(bv, k)),
                forall|i2: int, k: int|
                    0 <= i2 < i && 0 <= k < bc ==> c@[position(i2, k, nr, bc, true)] == #[trigger] lane_dot(
                        m.row(i2),
                        matrix_column(bv, k),
                    ),
                forall|i2: int, k: int|
                    i < i2 < nr && 0 <= k < bc ==> #[trigger] c@[position(i2, k, nr, bc, true)] == T::zero_value(),
                forall|k: int|
                    0 <= k < bc ==> #[trigger] c@[position(i as int, k, nr, bc, true)] == lane_dot(
                        l.take(p - start),
                        matrix_column(bv, k),
                    ),
        {
            let col = col_indices[p];
            let alpha = values[p];
            let ghost t = p - start;
            proof {
                assert(l[t] == (col, alpha));
                assert(l.take(t + 1).drop_last() =~= l.take(t));
            }
            for kk in 0..bcols
                invariant
                    m.wf(),
                    bv.wf(),
                    bv.shape.len() == 2,
                    nr == nrows,
                    bc == bcols,
                    bcols == bv.shape[1],
                    bv.shape[0] == m.ncols,
                    i < nrows,
                    col < m.ncols,
                    l[t] == (col, alpha),
                    0 <= t < l.len(),
                    l.take(t + 1).drop_last() == l.take(t),
                    bs@ == bv.data,
                    bs_len == bv.data.len(),
                    bv.data.len() == bv.shape[0] * bv.shape[1],
                    forall|i2: int, j2: int|
                        0 <= i2 < bv.shape[0] && 0 <= j2 < bv.shape[1] ==> #[trigger] matrix_at(bv, i2, j2) == bv.data[i2
                            * bv.shape[1] + j2],
                    output_len == nrows * bcols,
                    c@.len() == output_len,
                    forall|k: int| 0 <= k < bc ==> #[trigger] lane_dot_ok(l, matrix_column(bv, k)),
                    forall|i2: int, k: int|
                        0 <= i2 < i && 0 <= k < bc ==> c@[position(i2, k, nr, bc, true)] == #[trigger] lane_dot(
                            m.row(i2),
                            matrix_column(bv, k),
                        ),
                    forall|i2: int, k: int|
                        i < i2 < nr && 0 <= k < bc ==> #[trigger] c@[position(i2, k, nr, bc, true)] == T::zero_value(),
                    forall|k: int|
                        0 <= k < bc ==> #[trigger] c@[position(i as int, k, nr, bc, true)] == if k < kk {
                            lane_dot(l.take(t + 1), matrix_column(bv, k))
                        } else {
                            lane_dot(l.take(t), matrix_column(bv, k))
                        },
            {
                let ghost x = matrix_column(bv, kk as int);
                proof {
                    lemma_position(i as int, kk as int, i as int, kk as int, nr, bc, true);
                    lemma_position(col as int, kk as int, col as int, kk as int, bv.shape[0] as int, bc, true);
                    lemma_dot_prefix(l, x, t + 1);
                    assert(x[col as int] == matrix_at(bv, col as int, kk as int));
                    assert(0 <= i * bcols <= i * bcols + kk) by (nonlinear_arith)
                        requires
                            i >= 0,
                            bcols >= 0,
                            kk >= 0,
                    ;
                    assert(0 <= col * bcols <= col * bcols + kk) by (nonlinear_arith)
                        requires
                            col >= 0,
                            bcols >= 0,
                            kk >= 0,
                    ;
                }
                let at = i * bcols + kk;
                let bval = bs[col * bcols + kk];
                let ghost before = c@;
                let prod = alpha.mul(bval);
                c[at] = c[at].add(prod);
                proof {
                    assert forall|i2: int, k: int| 0 <= i2 < nr && 0 <= k < bc && (i2, k) != (i as int, kk as int) implies #[trigger] c@[position(
                        i2,
                        k,
                        nr,
                        bc,
                        true,
                    )] == before[position(i2, k, nr, bc, true)] by {
                        lemma_position(i2, k, i as int, kk as int, nr, bc, true);
                    }
                }
            }
        }
        proof {
            assert(l.take(end - start) =~= l);
        }
    }
    proof {
        assert forall|i: int, k: int| 0 <= i < nr && 0 <= k < bc implies #[trigger] c@[i * bc + k] == lane_dot(
            m.row(i),
            matrix_column(bv, k),
        ) by {
            assert(c@[position(i, k, nr, bc, true)] == lane_dot(m.row(i), matrix_column(bv, k)));
        }
    }
    Ok(())
}


/// Sparse–dense product `C = A B`, allocating the row-major result.
///
/// Fails with `ExtentOverflow` when `nrows · b columns` exceeds
/// `usize::MAX`, then with `ShapeMismatch { lhs: b shape, rhs: [ncols, b
/// columns] }` when `b` does not have `ncols` rows.
pub fn spmm<T: Scalar>(a: &CsrMatrix<T>, b: &Tensor<T>) -> (r: Result<Tensor<T>, LetoError>)
    requires
        a@.wf(),
        b@.wf(),
        b@.shape.len() == 2,
        b@.shape[0] == a@.ncols ==> forall|i: int, k: int|
            0 <= i < a@.nrows && 0 <= k < b@.shape[1] ==> #[trigger] lane_dot_ok(a@.row(i), matrix_column(b@, k)),
    ensures
        a@.nrows * b@.shape[1] > usize::MAX ==> r == Err::<Tensor<T>, LetoError>(
            LetoError::StorageError { reason: StorageFault::ExtentOverflow },
        ),
        a@.nrows * b@.shape[1] <= usize::MAX && b@.shape[0] != a@.ncols ==> (r matches Err(
            LetoError::ShapeMismatch { lhs, rhs },
        ) && lhs@ == b@.shape && rhs@ == seq![a@.ncols, b@.shape[1]]),
        a@.nrows * b@.shape[1] <= usize::MAX && b@.shape[0] == a@.ncols ==> r is Ok && r->Ok_0@.wf()
            && r->Ok_0@.shape == seq![a@.nrows, b@.shape[1]] && forall|i: int, k: int|
            0 <= i < a@.nrows && 0 <= k < b@.shape[1] ==> #[trigger] matrix_at(r->Ok_0@, i, k) == lane_dot(
                a@.row(i),
                matrix_column(b@, k),
            ),
{
    let (nrows, _) = a.shape();
    let bcols = b.shape()[1];
    let output_len = match nrows.checked_mul(bcols) {
        Some(len) => len,
        None => {
            return Err(LetoError::StorageError { reason: StorageFault::ExtentOverflow });
        },
    };
    let mut c: Vec<T> = Vec::with_capacity(output_len);
    for q in 0..output_len
        invariant
            c@.len() == q,
    {
        c.push(T::zero());
    }
    match spmm_into(a, b, c.as_mut_slice()) {
        Ok(()) => {
            proof {
                lemma_matrix_layout(0, 0, nrows, bcols);
            }
            let r = Tensor::from_valid(matrix_shape(nrows, bcols), c);
            proof {
                lemma_matrix_lanes(r@);
            }
            Ok(r)
        },
        Err(e) => Err(e),
    }
}


/// Row `i` of a CSR matrix as a dense sequence: `A[i, 0], …, A[i, ncols - 1]`.
pub open spec fn csr_dense_row<T: Scalar>(a: CsrView<T>, i: int) -> Seq<T> {
    Seq::new(a.ncols as nat, |j: int| a.entry(i, j as usize))
}

/// The dense sequence of a strictly keyed lane: its value at every key below `n`.
pub open spec fn keyed_dense<T: Scalar>(l: Seq<(usize, T)>, n: int) -> Seq<T> {
    Seq::new(n as nat, |j: int| value_at(l, j as usize))
}

/// The entries of a strictly keyed lane with key below `c` are a prefix of
/// it, and summing over them equals summing `D[j] · x[j]` over `j < c` for
/// the lane's dense sequence `D`, with or without skipping zero `x[j]`.
proof fn lemma_keyed_dot_prefix<T: Scalar>(l: Seq<(usize, T)>, n: int, x: Seq<T>, c: int) -> (t: int)
    requires
        strictly_keyed(l, n),
        n <= usize::MAX,
        x.len() == n,
        0 <= c <= n,
    ensures
        0 <= t <= l.len(),
        forall|q: int| 0 <= q < t ==> (#[trigger] l[q]).0 < c,
        forall|q: int| t <= q < l.len() ==> (#[trigger] l[q]).0 >= c,
        lane_dot(l.take(t), x) == seq_dot(keyed_dense(l, n).take(c), x),
        lane_dot_ok(l.take(t), x) == seq_dot_ok(keyed_dense(l, n).take(c), x),
        lane_dot_skipping(l.take(t), x) == seq_dot(keyed_dense(l, n).take(c), x),
        lane_dot_skipping_ok(l.take(t), x) == seq_dot_ok(keyed_dense(l, n).take(c), x),
    decreases c,
{
    let d = keyed_dense(l, n);
    if c == 0 {
        assert(l.take(0) =~= Seq::<(usize, T)>::empty());
        assert(d.take(0) =~= Seq::<T>::empty());
        0
    } else {
        let t = lemma_keyed_dot_prefix(l, n, x, c - 1);
        let k = (c - 1) as usize;
        let acc = seq_dot(d.take(c - 1), x);
        assert(d.take(c).drop_last() =~= d.take(c - 1));
        assert(d.take(c).last() == d[c - 1]);
        assert(d[c - 1] == value_at(l, k));
        T::lemma_plus_zero(acc);
        if t < l.len() && l[t].0 == k {
            lemma_value_at_found(l, n, t);
            assert(l.take(t + 1).drop_last() =~= l.take(t));
            assert(l.take(t + 1).last() == l[t]);
            T::lemma_times_zero(l[t].1);
            assert forall|q: int| t + 1 <= q < l.len() implies (#[trigger] l[q]).0 >= c by {
                assert(l[t].0 < l[q].0);
            }
            t + 1
        } else {
            assert(!exists|q: int| 0 <= q < l.len() && (#[trigger] l[q]).0 == k) by {
                assert forall|q: int| 0 <= q < l.len() implies (#[trigger] l[q]).0 != k by {
                    if q > t {
                        assert(l[t].0 < l[q].0);
                    }
                }
            }
            assert(value_at(l, k) == T::zero_value());
            T::lemma_zero_times(x[c - 1]);
            assert forall|q: int| t <= q < l.len() implies (#[trigger] l[q]).0 >= c by {
                if q > t {
                    assert(l[t].0 < l[q].0);
                }
            }
            t
        }
    }
}

/// A strictly keyed lane and its dense sequence give the same dot product
/// with `x`, with or without skipping zero `x[j]`.
proof fn lemma_keyed_dot<T: Scalar>(l: Seq<(usize, T)>, n: int, x: Seq<T>)
    requires
        strictly_keyed(l, n),
        n <= usize::MAX,
        x.len() == n,
    ensures
        lane_dot(l, x) == seq_dot(keyed_dense(l, n), x),
        lane_dot_ok(l, x) == seq_dot_ok(keyed_dense(l, n), x),
        lane_dot_skipping(l, x) == seq_dot(keyed_dense(l, n), x),
        lane_dot_skipping_ok(l, x) == seq_dot_ok(keyed_dense(l, n), x),
{
    let t = lemma_keyed_dot_prefix(l, n, x, n);
    if t < l.len() {
        assert(l[t].0 < n);
    }
    assert(l.take(t) =~= l);
    assert(keyed_dense(l, n).take(n) =~= keyed_dense(l, n));
}

/// SpMV computes the matrix–vector product: summing `values[p] · x[col[p]]`
/// over the stored entries of row `i` equals summing `A[i, j] · x[j]` over
/// every column `j`, and one sum stays representable exactly when the other
/// does.
pub proof fn lemma_spmv_is_dense_product<T: Scalar>(a: CsrView<T>, x: Seq<T>, i: int)
    requires
        a.wf(),
        x.len() == a.ncols,
        0 <= i < a.nrows,
    ensures
        lane_dot_ok(a.row(i), x) == seq_dot_ok(csr_dense_row(a, i), x),
        lane_dot(a.row(i), x) == seq_dot(csr_dense_row(a, i), x),
{
    lemma_lane_keyed(a.row_ptr, a.col_indices, a.values, a.values.len() as int, a.nrows as int, a.ncols as int, i);
    lemma_keyed_dot(a.row(i), a.ncols as int, x);
    assert(keyed_dense(a.row(i), a.ncols as int) =~= csr_dense_row(a, i));
}

/// Row `i` of a CSC matrix as a dense sequence: `A[i, 0], …, A[i, ncols - 1]`.
pub open spec fn csc_dense_row<T: Scalar>(a: super::csc::CscView<T>, i: usize) -> Seq<T> {
    Seq::new(a.ncols as nat, |j: int| a.entry(i, j))
}

/// CSC SpMV computes the matrix–vector product: summing `A[i, j] · x[j]`
/// over the stored entries of row `i` whose `x[j]` is not zero equals summing
/// it over every column `j`, and one sum stays representable exactly when
/// the other does.
pub proof fn lemma_csc_spmv_is_dense_product<T: Scalar>(a: super::csc::CscView<T>, x: Seq<T>, i: usize)
    requires
        a.wf(),
        x.len() == a.ncols,
        i < a.nrows,
    ensures
        lane_dot_skipping_ok(a.row(i), x) == seq_dot_ok(csc_dense_row(a, i), x),
        lane_dot_skipping(a.row(i), x) == seq_dot(csc_dense_row(a, i), x),
{
    lemma_gathered_keyed(a.col_ptr, a.row_indices, a.values, a.values.len() as int, a.ncols as int, a.nrows as int, i, a.ncols as int);
    lemma_keyed_dot(a.row(i), a.ncols as int, x);
    assert forall|j: int| 0 <= j < a.ncols implies #[trigger] keyed_dense(a.row(i), a.ncols as int)[j]
        == csc_dense_row(a, i)[j] by {
        lemma_gathered_value(a.col_ptr, a.row_indices, a.values, a.values.len() as int, a.ncols as int, a.nrows as int, i, a.ncols as int, j as usize);
    }
    assert(keyed_dense(a.row(i), a.ncols as int) =~= csc_dense_row(a, i));
}

} // verus!
