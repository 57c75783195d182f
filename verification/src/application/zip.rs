//! Folds over the elements of dense arrays.
//!
//! A fold threads an accumulator through one call of the closure per
//! element: it starts from `init`, and each call receives the accumulator the
//! previous call returned.
use vstd::prelude::*;
use crate::domain::error::LetoError;
use super::tensor::{
    copy_extents, in_bounds, index_from_flat, lemma_flat_bound, offset_of, same_shape, size,
    unflat, Tensor, TensorView,
};

verus! {

/// `accs` is a run of `f` over the pairs `(lhs[i], rhs[i])`: one more
/// accumulator than pairs, each returned by `f` for the one before it and
/// the pair at its position.
pub open spec fn pair_chain<T, U, Acc, F: FnMut(Acc, &T, &U) -> Acc>(
    f: F,
    lhs: Seq<T>,
    rhs: Seq<U>,
    accs: Seq<Acc>,
) -> bool {
    &&& accs.len() == lhs.len() + 1
    &&& forall|i: int| 0 <= i < lhs.len() ==> f.ensures((accs[i], &lhs[i], &rhs[i]), #[trigger] accs[i + 1])
}

/// Folds two arrays of one shape into one accumulator, pair by pair in
/// row-major order.
///
/// Fails with `ShapeMismatch { lhs: lhs shape, rhs: rhs shape }` when the
/// shapes differ. Otherwise returns the last accumulator of a run of `f`
/// from `init` over the element pairs.
pub fn zip_fold<T, U, Acc, F>(lhs: &Tensor<T>, rhs: &Tensor<U>, init: Acc, mut f: F) -> (r: Result<Acc, LetoError>) where
    F: FnMut(Acc, &T, &U) -> Acc,

    requires
        lhs@.wf(),
        rhs@.wf(),
        lhs@.shape == rhs@.shape ==> forall|a: Acc, i: int|
            0 <= i < lhs@.data.len() ==> #[trigger] f.requires((a, &lhs@.data[i], &rhs@.data[i])),
    ensures
        lhs@.shape != rhs@.shape ==> (r matches Err(LetoError::ShapeMismatch { lhs: l, rhs: m }) && l@ == lhs@.shape
            && m@ == rhs@.shape),
        lhs@.shape == rhs@.shape ==> (r matches Ok(acc) && exists|accs: Seq<Acc>|
            pair_chain(f, lhs@.data, rhs@.data, accs) && accs[0] == init && accs.last() == acc),
{
    if !same_shape(lhs.shape(), rhs.shape()) {
        return Err(LetoError::ShapeMismatch { lhs: copy_extents(lhs.shape()), rhs: copy_extents(rhs.shape()) });
    }
    let ghost f0 = f;
    let a = lhs.data();
    let b = rhs.data();
    let n = a.len();
    let mut acc = init;
    let ghost mut accs: Seq<Acc> = seq![init];
    for i in 0..n
        invariant
            f == f0,
            a@ == lhs@.data,
            b@ == rhs@.data,
            n == a@.len(),
            b@.len() == n,
            forall|x: Acc, j: int| 0 <= j < n ==> #[trigger] f.requires((x, &a@[j], &b@[j])),
            accs.len() == i + 1,
            accs[0] == init,
            accs.last() == acc,
            forall|j: int| 0 <= j < i ==> f.ensures((accs[j], &a@[j], &b@[j]), #[trigger] accs[j + 1]),
    {
        acc = f(acc, &a[i], &b[i]);
        proof {
            accs = accs.push(acc);
        }
    }
    assert(pair_chain(f, a@, b@, accs));
    Ok(acc)
}

/// `accs` is a run of `f` over the elements of `data` together with the
/// indices `indices` they are visited at.
pub open spec fn indexed_chain<T, Acc, F: FnMut(Acc, Vec<usize>, &T) -> Acc>(
    f: F,
    data: Seq<T>,
    indices: Seq<Vec<usize>>,
    accs: Seq<Acc>,
) -> bool {
    &&& accs.len() == indices.len() + 1
    &&& forall|i: int| 0 <= i < indices.len() ==> f.ensures((accs[i], indices[i], &data[i]), #[trigger] accs[i + 1])
}

/// Folds one array with the row-major index of each element.
///
/// The elements are visited in row-major order; the closure receives the
/// accumulator, the element's index and the element. Returns the last
/// accumulator of a run of `f` from `init`.
pub fn indexed_fold<T, Acc, F>(view: &Tensor<T>, init: Acc, mut f: F) -> (r: Result<Acc, LetoError>) where
    F: FnMut(Acc, Vec<usize>, &T) -> Acc,

    requires
        view@.wf(),
        forall|a: Acc, idx: Vec<usize>, i: int|
            0 <= i < view@.data.len() && idx@ == unflat(i as nat, view@.shape) ==> #[trigger] f.requires(
                (a, idx, &view@.data[i]),
            ),
    ensures
        r matches Ok(acc) && exists|indices: Seq<Vec<usize>>, accs: Seq<Acc>|
            {
                &&& indices.len() == view@.data.len()
                &&& forall|i: int| 0 <= i < indices.len() ==> (#[trigger] indices[i])@ == unflat(i as nat, view@.shape)
                &&& indexed_chain(f, view@.data, indices, accs)
                &&& accs[0] == init
                &&& accs.last() == acc
            },
{
    let ghost f0 = f;
    let data = view.data();
    let shape = view.shape();
    let n = data.len();
    let mut acc = init;
    let ghost mut accs: Seq<Acc> = seq![init];
    let ghost mut indices: Seq<Vec<usize>> = Seq::empty();
    for i in 0..n
        invariant
            f == f0,
            data@ == view@.data,
            shape@ == view@.shape,
            n == data@.len(),
            forall|x: Acc, idx: Vec<usize>, j: int|
                0 <= j < n && idx@ == unflat(j as nat, shape@) ==> #[trigger] f.requires((x, idx, &data@[j])),
            indices.len() == i,
            accs.len() == i + 1,
            accs[0] == init,
            accs.last() == acc,
            forall|j: int| 0 <= j < i ==> (#[trigger] indices[j])@ == unflat(j as nat, shape@),
            forall|j: int| 0 <= j < i ==> f.ensures((accs[j], indices[j], &data@[j]), #[trigger] accs[j + 1]),
    {
        let index = index_from_flat(i, &shape);
        let ghost passed = index;
        acc = f(acc, index, &data[i]);
        proof {
            indices = indices.push(passed);
            accs = accs.push(acc);
        }
    }
    assert(indexed_chain(f, data@, indices, accs));
    Ok(acc)
}

/// The coordinates of position `f` in column-major order: peeled off from
/// the first axis, each coordinate the remainder by its extent and the
/// quotient carrying on to the axes after it. An axis of extent zero gets
/// coordinate zero and leaves the quotient unchanged.
pub open spec fn column_major_index(f: nat, shape: Seq<usize>) -> Seq<usize>
    decreases shape.len(),
{
    if shape.len() == 0 {
        Seq::empty()
    } else if shape[0] == 0 {
        seq![0usize] + column_major_index(f, shape.skip(1))
    } else {
        seq![(f % (shape[0] as nat)) as usize] + column_major_index(f / (shape[0] as nat), shape.skip(1))
    }
}

/// The element count also factors from the front: the first extent times
/// the count of the rest.
proof fn lemma_size_front(shape: Seq<usize>)
    requires
        shape.len() > 0,
    ensures
        size(shape) == shape[0] * size(shape.skip(1)),
    decreases shape.len(),
{
    if shape.len() == 1 {
        assert(shape.drop_last() =~= Seq::<usize>::empty());
        assert(shape.skip(1) =~= Seq::<usize>::empty());
        assert(size(Seq::<usize>::empty()) == 1);
        assert(size(shape) == size(shape.drop_last()) * (shape.last() as nat));
        assert(shape.last() == shape[0]);
    } else {
        let d = shape.drop_last();
        lemma_size_front(d);
        assert(d.skip(1) =~= shape.skip(1).drop_last());
        assert(shape.skip(1).last() == shape.last());
        assert(d[0] == shape[0]);
        let (a, b, c) = (shape[0] as int, size(d.skip(1)) as int, shape.last() as int);
        assert(size(shape) == size(d) * c);
        assert(size(d) == a * b);
        assert(size(shape.skip(1)) == b * c);
        assert(a * b * c == a * (b * c)) by (nonlinear_arith);
        assert(size(shape) == a * (b * c));
    }
}

/// A position below the element count decomposes, in column-major order,
/// into an in-bounds index.
proof fn lemma_column_major_in_bounds(f: nat, shape: Seq<usize>)
    requires
        f < size(shape),
    ensures
        in_bounds(column_major_index(f, shape), shape),
    decreases shape.len(),
{
    if shape.len() > 0 {
        lemma_size_front(shape);
        let s = shape[0] as int;
        let rest = size(shape.skip(1)) as int;
        if s == 0 {
            assert(s * rest == 0) by (nonlinear_arith)
                requires
                    s == 0,
            ;
        } else {
            let q = f as int / s;
            assert(q < rest && f as int % s < s) by (nonlinear_arith)
                requires
                    f < s * rest,
                    q == f as int / s,
                    s > 0,
                    f >= 0,
            ;
            lemma_column_major_in_bounds(q as nat, shape.skip(1));
            let idx = column_major_index(f, shape);
            let tail = column_major_index(q as nat, shape.skip(1));
            assert forall|d: int| 0 <= d < shape.len() implies #[trigger] idx[d] < shape[d] by {
                if d > 0 {
                    assert(idx[d] == tail[d - 1]);
                    assert(tail[d - 1] < shape.skip(1)[d - 1]);
                }
            }
        }
    }
}

/// The column-major position of `index` in an array of `shape`: the
/// mixed-radix number whose first coordinate varies fastest.
pub open spec fn column_major_position(index: Seq<usize>, shape: Seq<usize>) -> int
    decreases shape.len(),
{
    if shape.len() == 0 {
        0
    } else {
        index[0] + shape[0] * column_major_position(index.skip(1), shape.skip(1))
    }
}

/// The column-major order visits every index of an array exactly once: each
/// position below the element count decomposes into an in-bounds index that
/// recomposes to it, and each in-bounds index recomposes to a position below
/// the element count that decomposes back into it.
pub proof fn lemma_column_major_bijection(shape: Seq<usize>)
    ensures
        forall|k: nat|
            k < size(shape) ==> in_bounds(#[trigger] column_major_index(k, shape), shape) && column_major_position(
                column_major_index(k, shape),
                shape,
            ) == k,
        forall|index: Seq<usize>|
            in_bounds(index, shape) ==> 0 <= #[trigger] column_major_position(index, shape) < size(shape)
                && column_major_index(column_major_position(index, shape) as nat, shape) == index,
{
    assert forall|k: nat| k < size(shape) implies in_bounds(#[trigger] column_major_index(k, shape), shape)
        && column_major_position(column_major_index(k, shape), shape) == k by {
        lemma_column_major_in_bounds(k, shape);
        lemma_column_major_round_trip(k, shape);
    }
    assert forall|index: Seq<usize>| in_bounds(index, shape) implies 0 <= #[trigger] column_major_position(
        index,
        shape,
    ) < size(shape) && column_major_index(column_major_position(index, shape) as nat, shape) == index by {
        lemma_column_major_position_inverse(index, shape);
    }
}

/// Decomposing a position below the element count and recomposing it gives
/// it back.
proof fn lemma_column_major_round_trip(f: nat, shape: Seq<usize>)
    requires
        f < size(shape),
    ensures
        column_major_position(column_major_index(f, shape), shape) == f,
    decreases shape.len(),
{
    if shape.len() > 0 {
        lemma_size_front(shape);
        let s = shape[0] as int;
        let rest = size(shape.skip(1)) as int;
        if s == 0 {
            assert(s * rest == 0) by (nonlinear_arith)
                requires
                    s == 0,
            ;
        } else {
            let q = f as int / s;
            assert(q < rest && f as int == f as int % s + s * q) by (nonlinear_arith)
                requires
                    f < s * rest,
                    q == f as int / s,
                    s > 0,
                    f >= 0,
            ;
            lemma_column_major_round_trip(q as nat, shape.skip(1));
            let idx = column_major_index(f, shape);
            assert(idx.skip(1) =~= column_major_index(q as nat, shape.skip(1)));
        }
    }
}

/// An in-bounds index recomposes to a position below the element count that
/// decomposes back into it.
proof fn lemma_column_major_position_inverse(index: Seq<usize>, shape: Seq<usize>)
    requires
        in_bounds(index, shape),
    ensures
        0 <= column_major_position(index, shape) < size(shape),
        column_major_index(column_major_position(index, shape) as nat, shape) == index,
    decreases shape.len(),
{
    if shape.len() > 0 {
        lemma_size_front(shape);
        let (i0, s0) = (index.skip(1), shape.skip(1));
        assert(in_bounds(i0, s0)) by {
            assert forall|d: int| 0 <= d < s0.len() implies #[trigger] i0[d] < s0[d] by {
                assert(index[d + 1] < shape[d + 1]);
            }
        }
        lemma_column_major_position_inverse(i0, s0);
        let t = column_major_position(i0, s0);
        let c = index[0] as int;
        let s = shape[0] as int;
        let rest = size(s0) as int;
        assert(index[0] < shape[0]);
        let f = c + s * t;
        assert(0 <= f < s * rest && f / s == t && f % s == c) by (nonlinear_arith)
            requires
                f == c + s * t,
                0 <= c < s,
                0 <= t < rest,
        ;
        assert(column_major_index(f as nat, shape) =~= index);
    }
}

/// The coordinates of position `flat` in column-major order.
fn column_major_from_flat(flat: usize, shape: &[usize]) -> (r: Vec<usize>)
    ensures
        r@ == column_major_index(flat as nat, shape@),
{
    let n = shape.len();
    let mut index: Vec<usize> = Vec::new();
    let mut remaining = flat;
    assert(shape@.skip(0) =~= shape@);
    assert(index@ + column_major_index(flat as nat, shape@) =~= column_major_index(flat as nat, shape@));
    for axis in 0..n
        invariant
            n == shape@.len(),
            index@.len() == axis,
            column_major_index(flat as nat, shape@) == index@ + column_major_index(
                remaining as nat,
                shape@.skip(axis as int),
            ),
    {
        let ghost rest = shape@.skip(axis as int);
        assert(rest.skip(1) =~= shape@.skip(axis + 1));
        assert(rest[0] == shape@[axis as int]);
        if shape[axis] > 0 {
            let c = remaining % shape[axis];
            let q = remaining / shape[axis];
            assert(index@.push(c) + column_major_index(q as nat, shape@.skip(axis + 1)) =~= index@ + column_major_index(
                remaining as nat,
                rest,
            ));
            index.push(c);
            remaining = q;
        } else {
            assert(index@.push(0usize) + column_major_index(remaining as nat, shape@.skip(axis + 1)) =~= index@
                + column_major_index(remaining as nat, rest));
            index.push(0);
        }
    }
    assert(shape@.skip(n as int) =~= Seq::<usize>::empty());
    assert(index@ + column_major_index(remaining as nat, shape@.skip(n as int)) =~= index@);
    index
}

/// The element of `view` at the `k`-th index in column-major order.
pub open spec fn column_major_element<T>(view: TensorView<T>, k: int) -> T {
    view.at(column_major_index(k as nat, view.shape))
}

/// `accs` is a run of `f` over the first `indices.len()` elements of `view`
/// in column-major order, together with their indices.
pub open spec fn column_major_chain<T, Acc, F: FnMut(Acc, Vec<usize>, &T) -> Acc>(
    f: F,
    view: TensorView<T>,
    indices: Seq<Vec<usize>>,
    accs: Seq<Acc>,
) -> bool {
    &&& accs.len() == indices.len() + 1
    &&& forall|i: int|
        0 <= i < indices.len() ==> f.ensures(
            (accs[i], indices[i], &column_major_element(view, i)),
            #[trigger] accs[i + 1],
        )
}

/// Folds one array in column-major index order: axis `0` fastest, then axis
/// `1`, and so on.
///
/// The closure receives the accumulator, the element's index and the
/// element. Returns the last accumulator of a run of `f` from `init`.
pub fn indexed_fold_fortran<T, Acc, F>(view: &Tensor<T>, init: Acc, mut f: F) -> (r: Result<Acc, LetoError>) where
    F: FnMut(Acc, Vec<usize>, &T) -> Acc,

    requires
        view@.wf(),
        forall|a: Acc, idx: Vec<usize>, i: int|
            0 <= i < view@.data.len() && idx@ == column_major_index(i as nat, view@.shape) ==> #[trigger] f.requires(
                (a, idx, &column_major_element(view@, i)),
            ),
    ensures
        r matches Ok(acc) && exists|indices: Seq<Vec<usize>>, accs: Seq<Acc>|
            {
                &&& indices.len() == view@.data.len()
                &&& forall|i: int|
                    0 <= i < indices.len() ==> (#[trigger] indices[i])@ == column_major_index(i as nat, view@.shape)
                &&& column_major_chain(f, view@, indices, accs)
                &&& accs[0] == init
                &&& accs.last() == acc
            },
{
    let ghost f0 = f;
    let ghost v = view@;
    let data = view.data();
    let shape = view.shape();
    let n = data.len();
    let mut acc = init;
    let ghost mut accs: Seq<Acc> = seq![init];
    let ghost mut indices: Seq<Vec<usize>> = Seq::empty();
    for k in 0..n
        invariant
            f == f0,
            v == view@,
            v.wf(),
            data@ == v.data,
            shape@ == v.shape,
            n == data@.len(),
            forall|x: Acc, idx: Vec<usize>, j: int|
                0 <= j < n && idx@ == column_major_index(j as nat, shape@) ==> #[trigger] f.requires(
                    (x, idx, &column_major_element(v, j)),
                ),
            indices.len() == k,
            accs.len() == k + 1,
            accs[0] == init,
            accs.last() == acc,
            forall|j: int| 0 <= j < k ==> (#[trigger] indices[j])@ == column_major_index(j as nat, shape@),
            forall|j: int|
                0 <= j < k ==> f.ensures(
                    (accs[j], indices[j], &column_major_element(v, j)),
                    #[trigger] accs[j + 1],
                ),
    {
        let index = column_major_from_flat(k, shape);
        proof {
            lemma_column_major_in_bounds(k as nat, shape@);
            lemma_flat_bound(index@, shape@);
        }
        let offset = offset_of(&index, shape);
        assert(data@[offset as int] == column_major_element(v, k as int));
        assert(f.requires((acc, index, &column_major_element(v, k as int))));
        let ghost passed = index;
        acc = f(acc, index, &data[offset]);
        proof {
            indices = indices.push(passed);
            accs = accs.push(acc);
        }
    }
    assert(column_major_chain(f, v, indices, accs));
    Ok(acc)
}

/// The elements of `v` in reverse order.
fn reversed<T>(v: Vec<T>) -> (r: Vec<T>)
    ensures
        r@.len() == v@.len(),
        forall|k: int| 0 <= k < v@.len() ==> #[trigger] r@[k] == v@[v@.len() - 1 - k],
{
    let ghost orig = v@;
    let mut src = v;
    let mut out: Vec<T> = Vec::new();
    while src.len() > 0
        invariant
            src@.len() + out@.len() == orig.len(),
            src@ == orig.take(src@.len() as int),
            forall|k: int| 0 <= k < out@.len() ==> #[trigger] out@[k] == orig[orig.len() - 1 - k],
        decreases src@.len(),
    {
        let x = src.pop().unwrap();
        assert(x == orig[orig.len() - 1 - out@.len()]);
        out.push(x);
        assert(src@ =~= orig.take(src@.len() as int));
    }
    out
}

/// Maps the elements of `lhs` in place with the elements of `rhs`: at every
/// position, in row-major order, the element of `lhs` is replaced by what
/// `f` returns for it and the element of `rhs` there.
///
/// Fails, leaving `lhs` unchanged, with `ShapeMismatch { lhs: lhs shape,
/// rhs: rhs shape }` when the shapes differ.
pub fn zip_mut_with<T, U, F>(lhs: &mut Tensor<T>, rhs: &Tensor<U>, mut f: F) -> (r: Result<(), LetoError>) where
    F: FnMut(T, &U) -> T,

    requires
        old(lhs)@.wf(),
        rhs@.wf(),
        old(lhs)@.shape == rhs@.shape ==> forall|x: T, i: int|
            0 <= i < rhs@.data.len() ==> #[trigger] f.requires((x, &rhs@.data[i])),
    ensures
        old(lhs)@.shape != rhs@.shape ==> (r matches Err(LetoError::ShapeMismatch { lhs: l, rhs: m }) && l@
            == old(lhs)@.shape && m@ == rhs@.shape),
        old(lhs)@.shape != rhs@.shape ==> final(lhs)@ == old(lhs)@,
        old(lhs)@.shape == rhs@.shape ==> r is Ok && final(lhs)@.shape == old(lhs)@.shape && final(lhs)@.data.len()
            == old(lhs)@.data.len() && forall|i: int|
            0 <= i < old(lhs)@.data.len() ==> f.ensures(
                (old(lhs)@.data[i], &rhs@.data[i]),
                #[trigger] final(lhs)@.data[i],
            ),
{
    if !same_shape(lhs.shape(), rhs.shape()) {
        return Err(LetoError::ShapeMismatch { lhs: copy_extents(lhs.shape()), rhs: copy_extents(rhs.shape()) });
    }
    let ghost f0 = f;
    let ghost before = lhs@.data;
    let b = rhs.data();
    let n = b.len();
    let mut rev = reversed(lhs.take_data());
    let mut out: Vec<T> = Vec::with_capacity(n);
    for i in 0..n
        invariant
            f == f0,
            b@ == rhs@.data,
            n == b@.len(),
            before.len() == n,
            forall|x: T, j: int| 0 <= j < n ==> #[trigger] f.requires((x, &b@[j])),
            rev@.len() == n - i,
            forall|k: int| 0 <= k < n - i ==> #[trigger] rev@[k] == before[n - 1 - k],
            out@.len() == i,
            forall|j: int| 0 <= j < i ==> f.ensures((before[j], &b@[j]), #[trigger] out@[j]),
    {
        let ghost remaining = rev@;
        let x = rev.pop().unwrap();
        assert(x == before[i as int]);
        assert forall|k: int| 0 <= k < n - (i + 1) implies #[trigger] rev@[k] == before[n - 1 - k] by {
            assert(rev@[k] == remaining[k]);
        }
        out.push(f(x, &b[i]));
    }
    lhs.put_data(out);
    Ok(())
}

/// Maps the elements of `lhs` in place with the elements of `a` and `b`: at
/// every position, in row-major order, the element of `lhs` is replaced by
/// what `f` returns for it and the elements of `a` and `b` there.
///
/// Fails, leaving `lhs` unchanged, with `ShapeMismatch { lhs: lhs shape,
/// rhs: a shape }` when the three shapes are not all equal.
pub fn zip2_mut_with<T, A, B, F>(lhs: &mut Tensor<T>, a: &Tensor<A>, b: &Tensor<B>, mut f: F) -> (r: Result<(), LetoError>) where
    F: FnMut(T, &A, &B) -> T,

    requires
        old(lhs)@.wf(),
        a@.wf(),
        b@.wf(),
        old(lhs)@.shape == a@.shape && old(lhs)@.shape == b@.shape ==> forall|x: T, i: int|
            0 <= i < old(lhs)@.data.len() ==> #[trigger] f.requires((x, &a@.data[i], &b@.data[i])),
    ensures
        old(lhs)@.shape != a@.shape || old(lhs)@.shape != b@.shape ==> (r matches Err(LetoError::ShapeMismatch { lhs: l, rhs: m }) && l@
            == old(lhs)@.shape && m@ == a@.shape),
        old(lhs)@.shape != a@.shape || old(lhs)@.shape != b@.shape ==> final(lhs)@ == old(lhs)@,
        old(lhs)@.shape == a@.shape && old(lhs)@.shape == b@.shape ==> r is Ok && final(lhs)@.shape == old(lhs)@.shape
            && final(lhs)@.data.len() == old(lhs)@.data.len(),
        old(lhs)@.shape == a@.shape && old(lhs)@.shape == b@.shape ==> forall|i: int|
            0 <= i < old(lhs)@.data.len() ==> f.ensures(
                (old(lhs)@.data[i], &a@.data[i], &b@.data[i]),
                #[trigger] final(lhs)@.data[i],
            ),
{
    if !same_shape(lhs.shape(), a.shape()) || !same_shape(lhs.shape(), b.shape()) {
        return Err(LetoError::ShapeMismatch { lhs: copy_extents(lhs.shape()), rhs: copy_extents(a.shape()) });
    }
    let ghost f0 = f;
    let ghost before = lhs@.data;
    let a_data = a.data();
    let b_data = b.data();
    let n = lhs.data().len();
    let mut rev = reversed(lhs.take_data());
    let mut out: Vec<T> = Vec::with_capacity(n);
    for i in 0..n
        invariant
            f == f0,
            a_data@ == a@.data,
            b_data@ == b@.data,
            a_data@.len() == n,
            b_data@.len() == n,
            before.len() == n,
            forall|x: T, j: int| 0 <= j < n ==> #[trigger] f.requires((x, &a_data@[j], &b_data@[j])),
            rev@.len() == n - i,
            forall|k: int| 0 <= k < n - i ==> #[trigger] rev@[k] == before[n - 1 - k],
            out@.len() == i,
            forall|j: int| 0 <= j < i ==> f.ensures(
                (before[j], &a_data@[j], &b_data@[j]),
                #[trigger] out@[j],
            ),
    {
        let ghost remaining = rev@;
        let x = rev.pop().unwrap();
        assert(x == before[i as int]);
        assert forall|k: int| 0 <= k < n - (i + 1) implies #[trigger] rev@[k] == before[n - 1 - k] by {
            assert(rev@[k] == remaining[k]);
        }
        out.push(f(x, &a_data[i], &b_data[i]));
    }
    lhs.put_data(out);
    Ok(())
}

/// Maps the elements of `lhs` in place with the elements of `a`, `b` and
/// `c`, position by position in row-major order.
///
/// Fails, leaving `lhs` unchanged, with `ShapeMismatch { lhs: lhs shape,
/// rhs: a shape }` when the four shapes are not all equal.
pub fn zip3_mut_with<T, A, B, C, F>(lhs: &mut Tensor<T>, a: &Tensor<A>, b: &Tensor<B>, c: &Tensor<C>, mut f: F) -> (r: Result<(), LetoError>) where
    F: FnMut(T, &A, &B, &C) -> T,

    requires
        old(lhs)@.wf(),
        a@.wf(),
        b@.wf(),
        c@.wf(),
        old(lhs)@.shape == a@.shape && old(lhs)@.shape == b@.shape && old(lhs)@.shape == c@.shape ==> forall|x: T, i: int|
            0 <= i < old(lhs)@.data.len() ==> #[trigger] f.requires((x, &a@.data[i], &b@.data[i], &c@.data[i])),
    ensures
        old(lhs)@.shape != a@.shape || old(lhs)@.shape != b@.shape || old(lhs)@.shape != c@.shape ==> (r matches Err(LetoError::ShapeMismatch { lhs: l, rhs: m }) && l@
            == old(lhs)@.shape && m@ == a@.shape),
        old(lhs)@.shape != a@.shape || old(lhs)@.shape != b@.shape || old(lhs)@.shape != c@.shape ==> final(lhs)@ == old(lhs)@,
        old(lhs)@.shape == a@.shape && old(lhs)@.shape == b@.shape && old(lhs)@.shape == c@.shape ==> r is Ok && final(lhs)@.shape == old(lhs)@.shape
            && final(lhs)@.data.len() == old(lhs)@.data.len(),
        old(lhs)@.shape == a@.shape && old(lhs)@.shape == b@.shape && old(lhs)@.shape == c@.shape ==> forall|i: int|
            0 <= i < old(lhs)@.data.len() ==> f.ensures(
                (old(lhs)@.data[i], &a@.data[i], &b@.data[i], &c@.data[i]),
                #[trigger] final(lhs)@.data[i],
            ),
{
    if !same_shape(lhs.shape(), a.shape()) || !same_shape(lhs.shape(), b.shape()) || !same_shape(lhs.shape(), c.shape()) {
        return Err(LetoError::ShapeMismatch { lhs: copy_extents(lhs.shape()), rhs: copy_extents(a.shape()) });
    }
    let ghost f0 = f;
    let ghost before = lhs@.data;
    let a_data = a.data();
    let b_data = b.data();
    let c_data = c.data();
    let n = lhs.data().len();
    let mut rev = reversed(lhs.take_data());
    let mut out: Vec<T> = Vec::with_capacity(n);
    for i in 0..n
        invariant
            f == f0,
            a_data@ == a@.data,
            b_data@ == b@.data,
            c_data@ == c@.data,
            a_data@.len() == n,
            b_data@.len() == n,
            c_data@.len() == n,
            before.len() == n,
            forall|x: T, j: int| 0 <= j < n ==> #[trigger] f.requires((x, &a_data@[j], &b_data@[j], &c_data@[j])),
            rev@.len() == n - i,
            forall|k: int| 0 <= k < n - i ==> #[trigger] rev@[k] == before[n - 1 - k],
            out@.len() == i,
            forall|j: int| 0 <= j < i ==> f.ensures(
                (before[j], &a_data@[j], &b_data@[j], &c_data@[j]),
                #[trigger] out@[j],
            ),
    {
        let ghost remaining = rev@;
        let x = rev.pop().unwrap();
        assert(x == before[i as int]);
        assert forall|k: int| 0 <= k < n - (i + 1) implies #[trigger] rev@[k] == before[n - 1 - k] by {
            assert(rev@[k] == remaining[k]);
        }
        out.push(f(x, &a_data[i], &b_data[i], &c_data[i]));
    }
    lhs.put_data(out);
    Ok(())
}

/// Maps the elements of `lhs` in place with the elements of `a` to `e`,
/// position by position in row-major order.
///
/// Fails, leaving `lhs` unchanged, with `ShapeMismatch { lhs: lhs shape,
/// rhs: a shape }` when the six shapes are not all equal.
pub fn zip5_mut_with<T, A, B, C, D, E, F>(lhs: &mut Tensor<T>, a: &Tensor<A>, b: &Tensor<B>, c: &Tensor<C>, d: &Tensor<D>, e: &Tensor<E>, mut f: F) -> (r: Result<(), LetoError>) where
    F: FnMut(T, &A, &B, &C, &D, &E) -> T,

    requires
        old(lhs)@.wf(),
        a@.wf(),
        b@.wf(),
        c@.wf(),
        d@.wf(),
        e@.wf(),
        old(lhs)@.shape == a@.shape && old(lhs)@.shape == b@.shape && old(lhs)@.shape == c@.shape && old(lhs)@.shape == d@.shape && old(lhs)@.shape == e@.shape ==> forall|x: T, i: int|
            0 <= i < old(lhs)@.data.len() ==> #[trigger] f.requires((x, &a@.data[i], &b@.data[i], &c@.data[i], &d@.data[i], &e@.data[i])),
    ensures
        old(lhs)@.shape != a@.shape || old(lhs)@.shape != b@.shape || old(lhs)@.shape != c@.shape || old(lhs)@.shape != d@.shape || old(lhs)@.shape != e@.shape ==> (r matches Err(LetoError::ShapeMismatch { lhs: l, rhs: m }) && l@
            == old(lhs)@.shape && m@ == a@.shape),
        old(lhs)@.shape != a@.shape || old(lhs)@.shape != b@.shape || old(lhs)@.shape != c@.shape || old(lhs)@.shape != d@.shape || old(lhs)@.shape != e@.shape ==> final(lhs)@ == old(lhs)@,
        old(lhs)@.shape == a@.shape && old(lhs)@.shape == b@.shape && old(lhs)@.shape == c@.shape && old(lhs)@.shape == d@.shape && old(lhs)@.shape == e@.shape ==> r is Ok && final(lhs)@.shape == old(lhs)@.shape
            && final(lhs)@.data.len() == old(lhs)@.data.len(),
        old(lhs)@.shape == a@.shape && old(lhs)@.shape == b@.shape && old(lhs)@.shape == c@.shape && old(lhs)@.shape == d@.shape && old(lhs)@.shape == e@.shape ==> forall|i: int|
            0 <= i < old(lhs)@.data.len() ==> f.ensures(
                (old(lhs)@.data[i], &a@.data[i], &b@.data[i], &c@.data[i], &d@.data[i], &e@.data[i]),
                #[trigger] final(lhs)@.data[i],
            ),
{
    if !same_shape(lhs.shape(), a.shape()) || !same_shape(lhs.shape(), b.shape()) || !same_shape(lhs.shape(), c.shape()) || !same_shape(lhs.shape(), d.shape()) || !same_shape(lhs.shape(), e.shape()) {
        return Err(LetoError::ShapeMismatch { lhs: copy_extents(lhs.shape()), rhs: copy_extents(a.shape()) });
    }
    let ghost f0 = f;
    let ghost before = lhs@.data;
    let a_data = a.data();
    let b_data = b.data();
    let c_data = c.data();
    let d_data = d.data();
    let e_data = e.data();
    let n = lhs.data().len();
    let mut rev = reversed(lhs.take_data());
    let mut out: Vec<T> = Vec::with_capacity(n);
    for i in 0..n
        invariant
            f == f0,
            a_data@ == a@.data,
            b_data@ == b@.data,
            c_data@ == c@.data,
            d_data@ == d@.data,
            e_data@ == e@.data,
            a_data@.len() == n,
            b_data@.len() == n,
            c_data@.len() == n,
            d_data@.len() == n,
            e_data@.len() == n,
            before.len() == n,
            forall|x: T, j: int| 0 <= j < n ==> #[trigger] f.requires((x, &a_data@[j], &b_data@[j], &c_data@[j], &d_data@[j], &e_data@[j])),
            rev@.len() == n - i,
            forall|k: int| 0 <= k < n - i ==> #[trigger] rev@[k] == before[n - 1 - k],
            out@.len() == i,
            forall|j: int| 0 <= j < i ==> f.ensures(
                (before[j], &a_data@[j], &b_data@[j], &c_data@[j], &d_data@[j], &e_data@[j]),
                #[trigger] out@[j],
            ),
    {
        let ghost remaining = rev@;
        let x = rev.pop().unwrap();
        assert(x == before[i as int]);
        assert forall|k: int| 0 <= k < n - (i + 1) implies #[trigger] rev@[k] == before[n - 1 - k] by {
            assert(rev@[k] == remaining[k]);
        }
        out.push(f(x, &a_data[i], &b_data[i], &c_data[i], &d_data[i], &e_data[i]));
    }
    lhs.put_data(out);
    Ok(())
}

/// Maps the elements of `lhs` in place with the elements of `rhs` and the
/// row-major index: at every position, in row-major order, `f` receives the
/// index, the element of `lhs` and the element of `rhs`, and its result
/// replaces the element of `lhs`.
///
/// Fails, leaving `lhs` unchanged, with `ShapeMismatch { lhs: lhs shape,
/// rhs: rhs shape }` when the shapes differ.
pub fn indexed_zip_mut_with<T, U, F>(lhs: &mut Tensor<T>, rhs: &Tensor<U>, mut f: F) -> (r: Result<(), LetoError>) where
    F: FnMut(Vec<usize>, T, &U) -> T,

    requires
        old(lhs)@.wf(),
        rhs@.wf(),
        old(lhs)@.shape == rhs@.shape ==> forall|idx: Vec<usize>, x: T, i: int|
            0 <= i < old(lhs)@.data.len() && idx@ == unflat(i as nat, old(lhs)@.shape) ==> #[trigger] f.requires(
                (idx, x, &rhs@.data[i]),
            ),
    ensures
        old(lhs)@.shape != rhs@.shape ==> (r matches Err(LetoError::ShapeMismatch { lhs: l, rhs: m }) && l@
            == old(lhs)@.shape && m@ == rhs@.shape),
        old(lhs)@.shape != rhs@.shape ==> final(lhs)@ == old(lhs)@,
        old(lhs)@.shape == rhs@.shape ==> r is Ok && final(lhs)@.shape == old(lhs)@.shape
            && final(lhs)@.data.len() == old(lhs)@.data.len(),
        old(lhs)@.shape == rhs@.shape ==> exists|indices: Seq<Vec<usize>>|
            {
                &&& indices.len() == old(lhs)@.data.len()
                &&& forall|i: int| 0 <= i < indices.len() ==> (#[trigger] indices[i])@ == unflat(i as nat, old(lhs)@.shape)
                &&& forall|i: int|
                    0 <= i < indices.len() ==> f.ensures(
                        (indices[i], old(lhs)@.data[i], &rhs@.data[i]),
                        #[trigger] final(lhs)@.data[i],
                    )
            },
{
    if !same_shape(lhs.shape(), rhs.shape()) {
        return Err(LetoError::ShapeMismatch { lhs: copy_extents(lhs.shape()), rhs: copy_extents(rhs.shape()) });
    }
    let ghost f0 = f;
    let ghost before = lhs@.data;
    let shape = copy_extents(lhs.shape());
    let rhs_data = rhs.data();
    let n = lhs.data().len();
    let mut rev = reversed(lhs.take_data());
    let mut out: Vec<T> = Vec::with_capacity(n);
    let ghost mut indices: Seq<Vec<usize>> = Seq::empty();
    for i in 0..n
        invariant
            f == f0,
            shape@ == old(lhs)@.shape,
            rhs_data@ == rhs@.data,
            rhs_data@.len() == n,
            before.len() == n,
            forall|idx: Vec<usize>, x: T, j: int|
                0 <= j < n && idx@ == unflat(j as nat, shape@) ==> #[trigger] f.requires(
                    (idx, x, &rhs_data@[j]),
                ),
            rev@.len() == n - i,
            forall|k: int| 0 <= k < n - i ==> #[trigger] rev@[k] == before[n - 1 - k],
            out@.len() == i,
            indices.len() == i,
            forall|j: int| 0 <= j < i ==> (#[trigger] indices[j])@ == unflat(j as nat, shape@),
            forall|j: int| 0 <= j < i ==> f.ensures(
                (indices[j], before[j], &rhs_data@[j]),
                #[trigger] out@[j],
            ),
    {
        let ghost remaining = rev@;
        let x = rev.pop().unwrap();
        assert(x == before[i as int]);
        assert forall|k: int| 0 <= k < n - (i + 1) implies #[trigger] rev@[k] == before[n - 1 - k] by {
            assert(rev@[k] == remaining[k]);
        }
        let index = index_from_flat(i, &shape);
        let ghost passed = index;
        out.push(f(index, x, &rhs_data[i]));
        proof {
            indices = indices.push(passed);
        }
    }
    lhs.put_data(out);
    Ok(())
}

/// Maps the elements of `lhs` in place with the elements of `a` and `b` and
/// the row-major index, position by position in row-major order.
///
/// Fails, leaving `lhs` unchanged, with `ShapeMismatch { lhs: lhs shape,
/// rhs: a shape }` when the three shapes are not all equal.
pub fn indexed_zip2_mut_with<T, A, B, F>(lhs: &mut Tensor<T>, a: &Tensor<A>, b: &Tensor<B>, mut f: F) -> (r: Result<(), LetoError>) where
    F: FnMut(Vec<usize>, T, &A, &B) -> T,

    requires
        old(lhs)@.wf(),
        a@.wf(),
        b@.wf(),
        old(lhs)@.shape == a@.shape && old(lhs)@.shape == b@.shape ==> forall|idx: Vec<usize>, x: T, i: int|
            0 <= i < old(lhs)@.data.len() && idx@ == unflat(i as nat, old(lhs)@.shape) ==> #[trigger] f.requires(
                (idx, x, &a@.data[i], &b@.data[i]),
            ),
    ensures
        old(lhs)@.shape != a@.shape || old(lhs)@.shape != b@.shape ==> (r matches Err(LetoError::ShapeMismatch { lhs: l, rhs: m }) && l@
            == old(lhs)@.shape && m@ == a@.shape),
        old(lhs)@.shape != a@.shape || old(lhs)@.shape != b@.shape ==> final(lhs)@ == old(lhs)@,
        old(lhs)@.shape == a@.shape && old(lhs)@.shape == b@.shape ==> r is Ok && final(lhs)@.shape == old(lhs)@.shape
            && final(lhs)@.data.len() == old(lhs)@.data.len(),
        old(lhs)@.shape == a@.shape && old(lhs)@.shape == b@.shape ==> exists|indices: Seq<Vec<usize>>|
            {
                &&& indices.len() == old(lhs)@.data.len()
                &&& forall|i: int| 0 <= i < indices.len() ==> (#[trigger] indices[i])@ == unflat(i as nat, old(lhs)@.shape)
                &&& forall|i: int|
                    0 <= i < indices.len() ==> f.ensures(
                        (indices[i], old(lhs)@.data[i], &a@.data[i], &b@.data[i]),
                        #[trigger] final(lhs)@.data[i],
                    )
            },
{
    if !same_shape(lhs.shape(), a.shape()) || !same_shape(lhs.shape(), b.shape()) {
        return Err(LetoError::ShapeMismatch { lhs: copy_extents(lhs.shape()), rhs: copy_extents(a.shape()) });
    }
    let ghost f0 = f;
    let ghost before = lhs@.data;
    let shape = copy_extents(lhs.shape());
    let a_data = a.data();
    let b_data = b.data();
    let n = lhs.data().len();
    let mut rev = reversed(lhs.take_data());
    let mut out: Vec<T> = Vec::with_capacity(n);
    let ghost mut indices: Seq<Vec<usize>> = Seq::empty();
    for i in 0..n
        invariant
            f == f0,
            shape@ == old(lhs)@.shape,
            a_data@ == a@.data,
            b_data@ == b@.data,
            a_data@.len() == n,
            b_data@.len() == n,
            before.len() == n,
            forall|idx: Vec<usize>, x: T, j: int|
                0 <= j < n && idx@ == unflat(j as nat, shape@) ==> #[trigger] f.requires(
                    (idx, x, &a_data@[j], &b_data@[j]),
                ),
            rev@.len() == n - i,
            forall|k: int| 0 <= k < n - i ==> #[trigger] rev@[k] == before[n - 1 - k],
            out@.len() == i,
            indices.len() == i,
            forall|j: int| 0 <= j < i ==> (#[trigger] indices[j])@ == unflat(j as nat, shape@),
            forall|j: int| 0 <= j < i ==> f.ensures(
                (indices[j], before[j], &a_data@[j], &b_data@[j]),
                #[trigger] out@[j],
            ),
    {
        let ghost remaining = rev@;
        let x = rev.pop().unwrap();
        assert(x == before[i as int]);
        assert forall|k: int| 0 <= k < n - (i + 1) implies #[trigger] rev@[k] == before[n - 1 - k] by {
            assert(rev@[k] == remaining[k]);
        }
        let index = index_from_flat(i, &shape);
        let ghost passed = index;
        out.push(f(index, x, &a_data[i], &b_data[i]));
        proof {
            indices = indices.push(passed);
        }
    }
    lhs.put_data(out);
    Ok(())
}

/// Maps the elements of `lhs` in place with the elements of `a` to `d` and
/// the row-major index, position by position in row-major order.
///
/// Fails, leaving `lhs` unchanged, with `ShapeMismatch { lhs: lhs shape,
/// rhs: a shape }` when the five shapes are not all equal.
pub fn indexed_zip4_mut_with<T, A, B, C, D, F>(lhs: &mut Tensor<T>, a: &Tensor<A>, b: &Tensor<B>, c: &Tensor<C>, d: &Tensor<D>, mut f: F) -> (r: Result<(), LetoError>) where
    F: FnMut(Vec<usize>, T, &A, &B, &C, &D) -> T,

    requires
        old(lhs)@.wf(),
        a@.wf(),
        b@.wf(),
        c@.wf(),
        d@.wf(),
        old(lhs)@.shape == a@.shape && old(lhs)@.shape == b@.shape && old(lhs)@.shape == c@.shape && old(lhs)@.shape == d@.shape ==> forall|idx: Vec<usize>, x: T, i: int|
            0 <= i < old(lhs)@.data.len() && idx@ == unflat(i as nat, old(lhs)@.shape) ==> #[trigger] f.requires(
                (idx, x, &a@.data[i], &b@.data[i], &c@.data[i], &d@.data[i]),
            ),
    ensures
        old(lhs)@.shape != a@.shape || old(lhs)@.shape != b@.shape || old(lhs)@.shape != c@.shape || old(lhs)@.shape != d@.shape ==> (r matches Err(LetoError::ShapeMismatch { lhs: l, rhs: m }) && l@
            == old(lhs)@.shape && m@ == a@.shape),
        old(lhs)@.shape != a@.shape || old(lhs)@.shape != b@.shape || old(lhs)@.shape != c@.shape || old(lhs)@.shape != d@.shape ==> final(lhs)@ == old(lhs)@,
        old(lhs)@.shape == a@.shape && old(lhs)@.shape == b@.shape && old(lhs)@.shape == c@.shape && old(lhs)@.shape == d@.shape ==> r is Ok && final(lhs)@.shape == old(lhs)@.shape
            && final(lhs)@.data.len() == old(lhs)@.data.len(),
        old(lhs)@.shape == a@.shape && old(lhs)@.shape == b@.shape && old(lhs)@.shape == c@.shape && old(lhs)@.shape == d@.shape ==> exists|indices: Seq<Vec<usize>>|
            {
                &&& indices.len() == old(lhs)@.data.len()
                &&& forall|i: int| 0 <= i < indices.len() ==> (#[trigger] indices[i])@ == unflat(i as nat, old(lhs)@.shape)
                &&& forall|i: int|
                    0 <= i < indices.len() ==> f.ensures(
                        (indices[i], old(lhs)@.data[i], &a@.data[i], &b@.data[i], &c@.data[i], &d@.data[i]),
                        #[trigger] final(lhs)@.data[i],
                    )
            },
{
    if !same_shape(lhs.shape(), a.shape()) || !same_shape(lhs.shape(), b.shape()) || !same_shape(lhs.shape(), c.shape()) || !same_shape(lhs.shape(), d.shape()) {
        return Err(LetoError::ShapeMismatch { lhs: copy_extents(lhs.shape()), rhs: copy_extents(a.shape()) });
    }
    let ghost f0 = f;
    let ghost before = lhs@.data;
    let shape = copy_extents(lhs.shape());
    let a_data = a.data();
    let b_data = b.data();
    let c_data = c.data();
    let d_data = d.data();
    let n = lhs.data().len();
    let mut rev = reversed(lhs.take_data());
    let mut out: Vec<T> = Vec::with_capacity(n);
    let ghost mut indices: Seq<Vec<usize>> = Seq::empty();
    for i in 0..n
        invariant
            f == f0,
            shape@ == old(lhs)@.shape,
            a_data@ == a@.data,
            b_data@ == b@.data,
            c_data@ == c@.data,
            d_data@ == d@.data,
            a_data@.len() == n,
            b_data@.len() == n,
            c_data@.len() == n,
            d_data@.len() == n,
            before.len() == n,
            forall|idx: Vec<usize>, x: T, j: int|
                0 <= j < n && idx@ == unflat(j as nat, shape@) ==> #[trigger] f.requires(
                    (idx, x, &a_data@[j], &b_data@[j], &c_data@[j], &d_data@[j]),
                ),
            rev@.len() == n - i,
            forall|k: int| 0 <= k < n - i ==> #[trigger] rev@[k] == before[n - 1 - k],
            out@.len() == i,
            indices.len() == i,
            forall|j: int| 0 <= j < i ==> (#[trigger] indices[j])@ == unflat(j as nat, shape@),
            forall|j: int| 0 <= j < i ==> f.ensures(
                (indices[j], before[j], &a_data@[j], &b_data@[j], &c_data@[j], &d_data@[j]),
                #[trigger] out@[j],
            ),
    {
        let ghost remaining = rev@;
        let x = rev.pop().unwrap();
        assert(x == before[i as int]);
        assert forall|k: int| 0 <= k < n - (i + 1) implies #[trigger] rev@[k] == before[n - 1 - k] by {
            assert(rev@[k] == remaining[k]);
        }
        let index = index_from_flat(i, &shape);
        let ghost passed = index;
        out.push(f(index, x, &a_data[i], &b_data[i], &c_data[i], &d_data[i]));
        proof {
            indices = indices.push(passed);
        }
    }
    lhs.put_data(out);
    Ok(())
}

/// Maps the elements of `view` in place with their row-major index: at every
/// position, in row-major order, `f` receives the index and the element, and
/// its result replaces the element.
pub fn indexed_map_inplace<T, F>(view: &mut Tensor<T>, mut f: F) -> (r: Result<(), LetoError>) where
    F: FnMut(Vec<usize>, T) -> T,

    requires
        old(view)@.wf(),
        forall|idx: Vec<usize>, x: T|
            (exists|i: nat| i < old(view)@.data.len() && idx@ == #[trigger] unflat(i, old(view)@.shape))
                ==> #[trigger] f.requires((idx, x)),
    ensures
        r is Ok,
        final(view)@.shape == old(view)@.shape,
        final(view)@.data.len() == old(view)@.data.len(),
        exists|indices: Seq<Vec<usize>>|
            {
                &&& indices.len() == old(view)@.data.len()
                &&& forall|i: int| 0 <= i < indices.len() ==> (#[trigger] indices[i])@ == unflat(i as nat, old(view)@.shape)
                &&& forall|i: int|
                    0 <= i < indices.len() ==> f.ensures((indices[i], old(view)@.data[i]), #[trigger] final(view)@.data[i])
            },
{
    let ghost f0 = f;
    let ghost before = view@.data;
    let shape = copy_extents(view.shape());
    let n = view.data().len();
    let mut rev = reversed(view.take_data());
    let mut out: Vec<T> = Vec::with_capacity(n);
    let ghost mut indices: Seq<Vec<usize>> = Seq::empty();
    for i in 0..n
        invariant
            f == f0,
            shape@ == old(view)@.shape,
            before == old(view)@.data,
            before.len() == n,
            forall|idx: Vec<usize>, x: T|
                (exists|j: nat| j < n && idx@ == #[trigger] unflat(j, shape@)) ==> #[trigger] f.requires(
                    (idx, x),
                ),
            rev@.len() == n - i,
            forall|k: int| 0 <= k < n - i ==> #[trigger] rev@[k] == before[n - 1 - k],
            out@.len() == i,
            indices.len() == i,
            forall|j: int| 0 <= j < i ==> (#[trigger] indices[j])@ == unflat(j as nat, shape@),
            forall|j: int| 0 <= j < i ==> f.ensures((indices[j], before[j]), #[trigger] out@[j]),
    {
        let ghost remaining = rev@;
        let x = rev.pop().unwrap();
        assert(x == before[i as int]);
        assert forall|k: int| 0 <= k < n - (i + 1) implies #[trigger] rev@[k] == before[n - 1 - k] by {
            assert(rev@[k] == remaining[k]);
        }
        let index = index_from_flat(i, &shape);
        let ghost passed = index;
        out.push(f(index, x));
        proof {
            indices = indices.push(passed);
        }
    }
    view.put_data(out);
    Ok(())
}

/// Maps four arrays of one shape in place with the row-major index: at
/// every position, in row-major order, `f` receives the index and the four
/// elements there, and the four parts of its result replace them.
///
/// Fails, leaving all four unchanged, with `ShapeMismatch { lhs: a shape,
/// rhs: b shape }` when the four shapes are not all equal.
pub fn indexed_map4_inplace<A, B, C, D, F>(
    a: &mut Tensor<A>,
    b: &mut Tensor<B>,
    c: &mut Tensor<C>,
    d: &mut Tensor<D>,
    mut f: F,
) -> (r: Result<(), LetoError>) where
    F: FnMut(Vec<usize>, A, B, C, D) -> (A, B, C, D),

    requires
        old(a)@.wf(),
        old(b)@.wf(),
        old(c)@.wf(),
        old(d)@.wf(),
        old(a)@.shape == old(b)@.shape && old(a)@.shape == old(c)@.shape && old(a)@.shape == old(d)@.shape
            ==> forall|idx: Vec<usize>, xa: A, xb: B, xc: C, xd: D|
            (exists|i: nat| i < old(a)@.data.len() && idx@ == #[trigger] unflat(i, old(a)@.shape))
                ==> #[trigger] f.requires((idx, xa, xb, xc, xd)),
    ensures
        old(a)@.shape != old(b)@.shape || old(a)@.shape != old(c)@.shape || old(a)@.shape != old(d)@.shape ==> (r matches Err(
            LetoError::ShapeMismatch { lhs: l, rhs: m },
        ) && l@ == old(a)@.shape && m@ == old(b)@.shape),
        old(a)@.shape != old(b)@.shape || old(a)@.shape != old(c)@.shape || old(a)@.shape != old(d)@.shape ==> final(a)@
            == old(a)@ && final(b)@ == old(b)@ && final(c)@ == old(c)@ && final(d)@ == old(d)@,
        old(a)@.shape == old(b)@.shape && old(a)@.shape == old(c)@.shape && old(a)@.shape == old(d)@.shape ==> r is Ok
            && final(a)@.shape == old(a)@.shape && final(b)@.shape == old(b)@.shape && final(c)@.shape == old(c)@.shape && final(d)@.shape == old(d)@.shape && final(a)@.data.len() == old(a)@.data.len() && final(b)@.data.len() == old(b)@.data.len() && final(c)@.data.len() == old(c)@.data.len() && final(d)@.data.len()
            == old(d)@.data.len(),
        old(a)@.shape == old(b)@.shape && old(a)@.shape == old(c)@.shape && old(a)@.shape == old(d)@.shape
            ==> exists|indices: Seq<Vec<usize>>|
            {
                &&& indices.len() == old(a)@.data.len()
                &&& forall|i: int| 0 <= i < indices.len() ==> (#[trigger] indices[i])@ == unflat(i as nat, old(a)@.shape)
                &&& forall|i: int|
                    0 <= i < indices.len() ==> f.ensures(
                        (indices[i], old(a)@.data[i], old(b)@.data[i], old(c)@.data[i], old(d)@.data[i]),
                        (#[trigger] final(a)@.data[i], final(b)@.data[i], final(c)@.data[i], final(d)@.data[i]),
                    )
            },
{
    if !same_shape(a.shape(), b.shape()) || !same_shape(a.shape(), c.shape()) || !same_shape(a.shape(), d.shape()) {
        return Err(LetoError::ShapeMismatch { lhs: copy_extents(a.shape()), rhs: copy_extents(b.shape()) });
    }
    let ghost f0 = f;
    let ghost (ba, bb, bc, bd) = (a@.data, b@.data, c@.data, d@.data);
    let shape = copy_extents(a.shape());
    let n = a.data().len();
    let mut ra = reversed(a.take_data());
    let mut rb = reversed(b.take_data());
    let mut rc = reversed(c.take_data());
    let mut rd = reversed(d.take_data());
    let mut oa: Vec<A> = Vec::with_capacity(n);
    let mut ob: Vec<B> = Vec::with_capacity(n);
    let mut oc: Vec<C> = Vec::with_capacity(n);
    let mut od: Vec<D> = Vec::with_capacity(n);
    let ghost mut indices: Seq<Vec<usize>> = Seq::empty();
    for i in 0..n
        invariant
            f == f0,
            shape@ == old(a)@.shape,
            ba == old(a)@.data,
            bb == old(b)@.data,
            bc == old(c)@.data,
            bd == old(d)@.data,
            ba.len() == n && bb.len() == n && bc.len() == n && bd.len() == n,
            forall|idx: Vec<usize>, xa: A, xb: B, xc: C, xd: D|
                (exists|j: nat| j < n && idx@ == #[trigger] unflat(j, shape@)) ==> #[trigger] f.requires(
                    (idx, xa, xb, xc, xd),
                ),
            ra@.len() == n - i && rb@.len() == n - i && rc@.len() == n - i && rd@.len() == n - i,
            forall|k: int| 0 <= k < n - i ==> #[trigger] ra@[k] == ba[n - 1 - k],
            forall|k: int| 0 <= k < n - i ==> #[trigger] rb@[k] == bb[n - 1 - k],
            forall|k: int| 0 <= k < n - i ==> #[trigger] rc@[k] == bc[n - 1 - k],
            forall|k: int| 0 <= k < n - i ==> #[trigger] rd@[k] == bd[n - 1 - k],
            oa@.len() == i && ob@.len() == i && oc@.len() == i && od@.len() == i,
            indices.len() == i,
            forall|j: int| 0 <= j < i ==> (#[trigger] indices[j])@ == unflat(j as nat, shape@),
            forall|j: int|
                0 <= j < i ==> f.ensures(
                    (indices[j], ba[j], bb[j], bc[j], bd[j]),
                    (#[trigger] oa@[j], ob@[j], oc@[j], od@[j]),
                ),
    {
        let ghost (qa, qb, qc, qd) = (ra@, rb@, rc@, rd@);
        let xa = ra.pop().unwrap();
        let xb = rb.pop().unwrap();
        let xc = rc.pop().unwrap();
        let xd = rd.pop().unwrap();
        assert(xa == ba[i as int] && xb == bb[i as int] && xc == bc[i as int] && xd == bd[i as int]);
        assert forall|k: int| 0 <= k < n - (i + 1) implies #[trigger] ra@[k] == ba[n - 1 - k] by {
            assert(ra@[k] == qa[k]);
        }
        assert forall|k: int| 0 <= k < n - (i + 1) implies #[trigger] rb@[k] == bb[n - 1 - k] by {
            assert(rb@[k] == qb[k]);
        }
        assert forall|k: int| 0 <= k < n - (i + 1) implies #[trigger] rc@[k] == bc[n - 1 - k] by {
            assert(rc@[k] == qc[k]);
        }
        assert forall|k: int| 0 <= k < n - (i + 1) implies #[trigger] rd@[k] == bd[n - 1 - k] by {
            assert(rd@[k] == qd[k]);
        }
        let index = index_from_flat(i, &shape);
        let ghost passed = index;
        let (na, nb, nc, nd) = f(index, xa, xb, xc, xd);
        oa.push(na);
        ob.push(nb);
        oc.push(nc);
        od.push(nd);
        proof {
            indices = indices.push(passed);
        }
    }
    a.put_data(oa);
    b.put_data(ob);
    c.put_data(oc);
    d.put_data(od);
    Ok(())
}

} // verus!
