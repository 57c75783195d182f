//! Dense dot and matrix–vector products.
use vstd::prelude::*;
use crate::domain::error::{extent, LetoError};
use crate::domain::scalar::Scalar;
use super::sparse::dense::{lemma_matrix_lanes, lemma_position, matrix_at, matrix_row};
use super::tensor::{copy_extents, Tensor};

verus! {

/// `Σ a[k] · b[k]` over the first `a.len()` positions, added left to right
/// from zero.
pub open spec fn seq_dot<T: Scalar>(a: Seq<T>, b: Seq<T>) -> T
    decreases a.len(),
{
    if a.len() == 0 {
        T::zero_value()
    } else {
        seq_dot(a.drop_last(), b).plus(a.last().times(b[a.len() - 1]))
    }
}

/// Every product and partial sum of `seq_dot(a, b)` is representable.
pub open spec fn seq_dot_ok<T: Scalar>(a: Seq<T>, b: Seq<T>) -> bool
    decreases a.len(),
{
    a.len() == 0 || {
        &&& seq_dot_ok(a.drop_last(), b)
        &&& a.last().can_mul(b[a.len() - 1])
        &&& seq_dot(a.drop_last(), b).can_add(a.last().times(b[a.len() - 1]))
    }
}

proof fn lemma_dot_ok_prefix<T: Scalar>(a: Seq<T>, b: Seq<T>, k: int)
    requires
        seq_dot_ok(a, b),
        0 <= k <= a.len(),
    ensures
        seq_dot_ok(a.take(k), b),
    decreases a.len(),
{
    if k < a.len() {
        assert(a.drop_last().take(k) =~= a.take(k));
        lemma_dot_ok_prefix(a.drop_last(), b, k);
    } else {
        assert(a.take(k) =~= a);
    }
}

/// Dot product `Σ a[i] · b[i]`, added left to right from zero.
///
/// Fails with `ShapeMismatch { lhs: [a.len()], rhs: [b.len()] }` when the
/// lengths differ.
pub fn dot<T: Scalar>(a: &[T], b: &[T]) -> (r: Result<T, LetoError>)
    requires
        a@.len() == b@.len() ==> seq_dot_ok(a@, b@),
    ensures
        a@.len() != b@.len() ==> (r matches Err(LetoError::ShapeMismatch { lhs, rhs }) && lhs@ == seq![
            a@.len() as usize,
        ] && rhs@ == seq![b@.len() as usize]),
        a@.len() == b@.len() ==> r == Ok::<T, LetoError>(seq_dot(a@, b@)),
{
    if a.len() != b.len() {
        return Err(LetoError::ShapeMismatch { lhs: extent(a.len()), rhs: extent(b.len()) });
    }
    let mut acc = T::zero();
    for i in 0..a.len()
        invariant
            a@.len() == b@.len(),
            seq_dot_ok(a@, b@),
            acc == seq_dot(a@.take(i as int), b@),
    {
        proof {
            lemma_dot_ok_prefix(a@, b@, i + 1);
            assert(a@.take(i + 1).drop_last() =~= a@.take(i as int));
        }
        acc = acc.add(a[i].mul(b[i]));
    }
    proof {
        assert(a@.take(a@.len() as int) =~= a@);
    }
    Ok(acc)
}

/// `Σ popcount(a[k] ^ b[k])` over the first `a.len()` positions.
pub open spec fn hamming<T: Scalar>(a: Seq<T>, b: Seq<T>) -> nat
    decreases a.len(),
{
    if a.len() == 0 {
        0
    } else {
        hamming(a.drop_last(), b) + a.last().xor(b[a.len() - 1]).ones()
    }
}

/// The Hamming distance between two sequences of the same length is zero
/// exactly when they are equal.
pub proof fn lemma_hamming_zero_iff_equal<T: Scalar>(a: Seq<T>, b: Seq<T>)
    requires
        a.len() == b.len(),
    ensures
        (hamming(a, b) == 0) == (a == b),
{
    lemma_hamming_zero_prefix(a, b);
    if a == b {
        assert forall|k: int| 0 <= k < a.len() implies a[k] == b[k] by {}
    } else {
        if forall|k: int| 0 <= k < a.len() ==> a[k] == b[k] {
            assert(a =~= b);
        }
    }
}

/// `hamming(a, b)` is zero exactly when `a` agrees with `b` on every
/// position of `a`.
proof fn lemma_hamming_zero_prefix<T: Scalar>(a: Seq<T>, b: Seq<T>)
    requires
        a.len() <= b.len(),
    ensures
        (hamming(a, b) == 0) == (forall|k: int| 0 <= k < a.len() ==> a[k] == b[k]),
    decreases a.len(),
{
    if a.len() > 0 {
        let d = a.drop_last();
        let n = a.len() - 1;
        lemma_hamming_zero_prefix(d, b);
        T::lemma_ones_zero(a[n].xor(b[n]));
        T::lemma_xor_zero(a[n], b[n]);
        if forall|k: int| 0 <= k < a.len() ==> a[k] == b[k] {
            assert forall|k: int| 0 <= k < d.len() implies d[k] == b[k] by {
                assert(a[k] == b[k]);
            }
            assert(a[n] == b[n]);
        }
        if hamming(a, b) == 0 {
            assert forall|k: int| 0 <= k < a.len() implies a[k] == b[k] by {
                if k < n {
                    assert(d[k] == a[k]);
                }
            }
        }
    }
}

proof fn lemma_hamming_prefix<T: Scalar>(a: Seq<T>, b: Seq<T>, k: int)
    requires
        0 <= k <= a.len(),
    ensures
        hamming(a.take(k), b) <= hamming(a, b),
    decreases a.len(),
{
    if k < a.len() {
        assert(a.drop_last().take(k) =~= a.take(k));
        lemma_hamming_prefix(a.drop_last(), b, k);
    } else {
        assert(a.take(k) =~= a);
    }
}

/// Hamming distance: the number of bit positions at which the elements of
/// `a` and `b` differ, summed over the positions.
///
/// Fails with `ShapeMismatch { lhs: [a.len()], rhs: [b.len()] }` when the
/// lengths differ.
pub fn hamming_distance<T: Scalar>(a: &[T], b: &[T]) -> (r: Result<u64, LetoError>)
    requires
        a@.len() == b@.len() ==> hamming(a@, b@) <= u64::MAX,
    ensures
        a@.len() != b@.len() ==> (r matches Err(LetoError::ShapeMismatch { lhs, rhs }) && lhs@ == seq![
            a@.len() as usize,
        ] && rhs@ == seq![b@.len() as usize]),
        a@.len() == b@.len() ==> r == Ok::<u64, LetoError>(hamming(a@, b@) as u64),
{
    if a.len() != b.len() {
        return Err(LetoError::ShapeMismatch { lhs: extent(a.len()), rhs: extent(b.len()) });
    }
    let mut distance: u64 = 0;
    for i in 0..a.len()
        invariant
            a@.len() == b@.len(),
            hamming(a@, b@) <= u64::MAX,
            distance == hamming(a@.take(i as int), b@),
    {
        proof {
            lemma_hamming_prefix(a@, b@, i + 1);
            assert(a@.take(i + 1).drop_last() =~= a@.take(i as int));
        }
        let ones = a[i].bitxor(b[i]).count_ones();
        distance = distance + ones as u64;
    }
    proof {
        assert(a@.take(a@.len() as int) =~= a@);
    }
    Ok(distance)
}

/// `Σ popcount(a[k] & b[k])` over the first `a.len()` positions.
pub open spec fn common_ones<T: Scalar>(a: Seq<T>, b: Seq<T>) -> nat
    decreases a.len(),
{
    if a.len() == 0 {
        0
    } else {
        common_ones(a.drop_last(), b) + a.last().and_bits(b[a.len() - 1]).ones()
    }
}

/// `Σ popcount(a[k] | b[k])` over the first `a.len()` positions.
pub open spec fn joint_ones<T: Scalar>(a: Seq<T>, b: Seq<T>) -> nat
    decreases a.len(),
{
    if a.len() == 0 {
        0
    } else {
        joint_ones(a.drop_last(), b) + a.last().or_bits(b[a.len() - 1]).ones()
    }
}

proof fn lemma_ones_prefix<T: Scalar>(a: Seq<T>, b: Seq<T>, k: int)
    requires
        0 <= k <= a.len(),
    ensures
        common_ones(a.take(k), b) <= common_ones(a, b),
        joint_ones(a.take(k), b) <= joint_ones(a, b),
    decreases a.len(),
{
    if k < a.len() {
        assert(a.drop_last().take(k) =~= a.take(k));
        lemma_ones_prefix(a.drop_last(), b, k);
    } else {
        assert(a.take(k) =~= a);
    }
}

/// The bit counts behind the Jaccard distance of two binary vectors: the
/// ones of `a & b` and the ones of `a | b`, each summed over the positions.
///
/// Fails with `ShapeMismatch { lhs: [a.len()], rhs: [b.len()] }` when the
/// lengths differ.
pub fn jaccard_counts<T: Scalar>(a: &[T], b: &[T]) -> (r: Result<(u64, u64), LetoError>)
    requires
        a@.len() == b@.len() ==> joint_ones(a@, b@) <= u64::MAX && common_ones(a@, b@) <= u64::MAX,
    ensures
        a@.len() != b@.len() ==> (r matches Err(LetoError::ShapeMismatch { lhs, rhs }) && lhs@ == seq![
            a@.len() as usize,
        ] && rhs@ == seq![b@.len() as usize]),
        a@.len() == b@.len() ==> r == Ok::<(u64, u64), LetoError>(
            (common_ones(a@, b@) as u64, joint_ones(a@, b@) as u64),
        ),
{
    if a.len() != b.len() {
        return Err(LetoError::ShapeMismatch { lhs: extent(a.len()), rhs: extent(b.len()) });
    }
    let mut intersection: u64 = 0;
    let mut union: u64 = 0;
    for i in 0..a.len()
        invariant
            a@.len() == b@.len(),
            joint_ones(a@, b@) <= u64::MAX,
            common_ones(a@, b@) <= u64::MAX,
            intersection == common_ones(a@.take(i as int), b@),
            union == joint_ones(a@.take(i as int), b@),
    {
        proof {
            lemma_ones_prefix(a@, b@, i + 1);
            assert(a@.take(i + 1).drop_last() =~= a@.take(i as int));
        }
        let x = a[i];
        let y = b[i];
        intersection = intersection + x.bitand(y).count_ones() as u64;
        union = union + x.bitor(y).count_ones() as u64;
    }
    proof {
        assert(a@.take(a@.len() as int) =~= a@);
    }
    Ok((intersection, union))
}

/// Dense matrix–vector product `out[i] = Σ_j a[i, j] · x[j]`, added left to
/// right by increasing `j`.
///
/// Fails, leaving `out` unchanged, with `ShapeMismatch { lhs: a shape, rhs:
/// [x.len()] }` when `x` does not have one element per column, then with
/// `ShapeMismatch { lhs: [rows], rhs: [out.len()] }`.
pub fn matvec<T: Scalar>(a: &Tensor<T>, x: &[T], out: &mut [T]) -> (r: Result<(), LetoError>)
    requires
        a@.wf(),
        a@.shape.len() == 2,
        x@.len() == a@.shape[1] && old(out)@.len() == a@.shape[0] ==> forall|i: int|
            0 <= i < a@.shape[0] ==> #[trigger] seq_dot_ok(matrix_row(a@, i), x@),
    ensures
        x@.len() != a@.shape[1] ==> (r matches Err(LetoError::ShapeMismatch { lhs, rhs }) && lhs@ == a@.shape
            && rhs@ == seq![x@.len() as usize]),
        x@.len() == a@.shape[1] && old(out)@.len() != a@.shape[0] ==> (r matches Err(
            LetoError::ShapeMismatch { lhs, rhs },
        ) && lhs@ == seq![a@.shape[0]] && rhs@ == seq![old(out)@.len() as usize]),
        r is Ok <==> x@.len() == a@.shape[1] && old(out)@.len() == a@.shape[0],
        r is Err ==> final(out)@ == old(out)@,
        r is Ok ==> final(out)@.len() == old(out)@.len() && forall|i: int|
            0 <= i < a@.shape[0] ==> #[trigger] final(out)@[i] == seq_dot(matrix_row(a@, i), x@),
{
    let shape = a.shape();
    let rows = shape[0];
    let cols = shape[1];
    if x.len() != cols {
        return Err(LetoError::ShapeMismatch { lhs: copy_extents(shape), rhs: extent(x.len()) });
    }
    if out.len() != rows {
        return Err(LetoError::ShapeMismatch { lhs: extent(rows), rhs: extent(out.len()) });
    }
    let data = a.data();
    let data_len = data.len();
    let ghost m = a@;
    proof {
        lemma_matrix_lanes(m);
    }
    for i in 0..rows
        invariant
            m == a@,
            m.wf(),
            m.shape.len() == 2,
            rows == m.shape[0],
            cols == m.shape[1],
            x@.len() == cols,
            data@ == m.data,
            data_len == m.data.len(),
            m.data.len() == m.shape[0] * m.shape[1],
            forall|i2: int, j2: int|
                0 <= i2 < m.shape[0] && 0 <= j2 < m.shape[1] ==> #[trigger] matrix_at(m, i2, j2) == m.data[i2
                    * m.shape[1] + j2],
            forall|i2: int| 0 <= i2 < rows ==> #[trigger] seq_dot_ok(matrix_row(m, i2), x@),
            out@.len() == rows,
            forall|i2: int| 0 <= i2 < i ==> #[trigger] out@[i2] == seq_dot(matrix_row(m, i2), x@),
    {
        let ghost row = matrix_row(m, i as int);
        let mut acc = T::zero();
        proof {
            assert(seq_dot_ok(row, x@));
        }
        for j in 0..cols
            invariant
                m.wf(),
                m.shape.len() == 2,
                rows == m.shape[0],
                cols == m.shape[1],
                i < rows,
                x@.len() == cols,
                data@ == m.data,
                data_len == m.data.len(),
                m.data.len() == m.shape[0] * m.shape[1],
                forall|i2: int, j2: int|
                    0 <= i2 < m.shape[0] && 0 <= j2 < m.shape[1] ==> #[trigger] matrix_at(m, i2, j2) == m.data[i2
                        * m.shape[1] + j2],
                row == matrix_row(m, i as int),
                seq_dot_ok(row, x@),
                acc == seq_dot(row.take(j as int), x@),
        {
            proof {
                lemma_dot_ok_prefix(row, x@, j + 1);
                assert(row.take(j + 1).drop_last() =~= row.take(j as int));
                lemma_position(i as int, j as int, i as int, j as int, rows as int, cols as int, true);
                assert(row[j as int] == matrix_at(m, i as int, j as int));
                assert(0 <= i * cols <= i * cols + j) by (nonlinear_arith)
                    requires
                        i >= 0,
                        cols >= 0,
                        j >= 0,
                ;
            }
            acc = acc.add(data[i * cols + j].mul(x[j]));
        }
        proof {
            assert(row.take(cols as int) =~= row);
        }
        out[i] = acc;
    }
    Ok(())
}

} // verus!
