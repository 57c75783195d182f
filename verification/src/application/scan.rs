//! Prefix and suffix scans along one axis of a dense array.
use vstd::prelude::*;
use crate::domain::error::{LetoError, StorageFault};
use crate::domain::scalar::Scalar;
use super::tensor::{
    copy_extents, flat_of, in_bounds, lane_of, lemma_flat_bound, lemma_flat_injective, lemma_unflat_inverse, offset_of, size,
    unflat, Tensor, TensorView,
};

verus! {

/// Direction of a prefix scan along an axis.
#[derive(Clone, Copy, Debug, PartialEq, Eq, Structural)]
pub enum ScanDirection {
    /// Accumulate from index 0 upward (prefix scan).
    Forward,
    /// Accumulate from the last index downward (suffix scan).
    Reverse,
}

/// Associative scan operation contract: an identity and a combine step.
pub trait ScanOp<T: Scalar>: Copy + Sized {
    /// The scan identity.
    spec fn identity_value() -> T;

    /// The accumulator after combining `x` into `acc`.
    spec fn combined(acc: T, x: T) -> T;

    /// Whether combining `x` into `acc` is representable.
    spec fn combine_ok(acc: T, x: T) -> bool;

    /// The scan identity (`0` for sum, `1` for product).
    fn identity() -> (r: T)
        ensures
            r == Self::identity_value(),
    ;

    /// Combine the running accumulator with the next element.
    fn combine(acc: T, x: T) -> (r: T)
        requires
            Self::combine_ok(acc, x),
        ensures
            r == Self::combined(acc, x),
    ;
}

/// Cumulative-sum scan marker.
#[derive(Clone, Copy, Debug, Default)]
pub struct CumSumOp;

/// Cumulative-product scan marker.
#[derive(Clone, Copy, Debug, Default)]
pub struct CumProdOp;

impl<T: Scalar> ScanOp<T> for CumSumOp {
    open spec fn identity_value() -> T {
        T::zero_value()
    }

    open spec fn combined(acc: T, x: T) -> T {
        acc.plus(x)
    }

    open spec fn combine_ok(acc: T, x: T) -> bool {
        acc.can_add(x)
    }

    fn identity() -> (r: T) {
        T::zero()
    }

    fn combine(acc: T, x: T) -> (r: T) {
        acc.add(x)
    }
}

impl<T: Scalar> ScanOp<T> for CumProdOp {
    open spec fn identity_value() -> T {
        T::one_value()
    }

    open spec fn combined(acc: T, x: T) -> T {
        acc.times(x)
    }

    open spec fn combine_ok(acc: T, x: T) -> bool {
        acc.can_mul(x)
    }

    fn identity() -> (r: T) {
        T::one()
    }

    fn combine(acc: T, x: T) -> (r: T) {
        acc.mul(x)
    }
}

/// `Op` folded over `s` from the identity, left to right.
pub open spec fn folded<T: Scalar, Op: ScanOp<T>>(s: Seq<T>) -> T
    decreases s.len(),
{
    if s.len() == 0 {
        Op::identity_value()
    } else {
        Op::combined(folded::<T, Op>(s.drop_last()), s.last())
    }
}

/// Every step of `folded::<T, Op>(s)` is representable.
pub open spec fn fold_ok<T: Scalar, Op: ScanOp<T>>(s: Seq<T>) -> bool
    decreases s.len(),
{
    s.len() == 0 || (fold_ok::<T, Op>(s.drop_last()) && Op::combine_ok(folded::<T, Op>(s.drop_last()), s.last()))
}

/// The lane in the order a scan in `direction` visits it.
pub open spec fn oriented<T>(lane: Seq<T>, direction: ScanDirection) -> Seq<T> {
    match direction {
        ScanDirection::Forward => lane,
        ScanDirection::Reverse => lane.reverse(),
    }
}

/// The scanned value at coordinate `k` of `lane`: the fold of the elements up
/// to `k` (forward) or from `k` on, last first (reverse).
pub open spec fn scanned<T: Scalar, Op: ScanOp<T>>(lane: Seq<T>, k: int, direction: ScanDirection) -> T {
    match direction {
        ScanDirection::Forward => folded::<T, Op>(lane.take(k + 1)),
        ScanDirection::Reverse => folded::<T, Op>(lane.skip(k).reverse()),
    }
}

/// Every lane of `input` along `axis` scans without overflow in `direction`.
pub open spec fn scannable<T: Scalar, Op: ScanOp<T>>(
    input: TensorView<T>,
    axis: int,
    direction: ScanDirection,
) -> bool {
    forall|index: Seq<usize>|
        in_bounds(index, input.shape) ==> #[trigger] fold_ok::<T, Op>(
            oriented(lane_of(input, index, axis), direction),
        )
}

/// What a scan of `input` along `axis` into `before` returns (`r`) and leaves
/// in the output (`after`).
pub open spec fn scan_outcome<T: Scalar, Op: ScanOp<T>>(
    input: TensorView<T>,
    axis: usize,
    direction: ScanDirection,
    before: TensorView<T>,
    after: TensorView<T>,
    r: Result<(), LetoError>,
) -> bool {
    &&& axis >= input.shape.len() ==> r == Err::<(), LetoError>(
        LetoError::StorageError { reason: StorageFault::AxisOutOfBounds },
    )
    &&& axis < input.shape.len() && before.shape != input.shape ==> (r matches Err(
        LetoError::ShapeMismatch { lhs, rhs },
    ) && lhs@ == input.shape && rhs@ == before.shape)
    &&& r is Err ==> after == before
    &&& r is Ok <==> axis < input.shape.len() && before.shape == input.shape
    &&& r is Ok ==> after.shape == before.shape && after.wf() && forall|index: Seq<usize>|
        in_bounds(index, after.shape) ==> #[trigger] after.at(index) == scanned::<T, Op>(
            lane_of(input, index, axis as int),
            index[axis as int] as int,
            direction,
        )
}

proof fn lemma_fold_prefix<T: Scalar, Op: ScanOp<T>>(s: Seq<T>, k: int)
    requires
        fold_ok::<T, Op>(s),
        0 <= k <= s.len(),
    ensures
        fold_ok::<T, Op>(s.take(k)),
    decreases s.len(),
{
    if k < s.len() {
        assert(s.drop_last().take(k) =~= s.take(k));
        lemma_fold_prefix::<T, Op>(s.drop_last(), k);
    } else {
        assert(s.take(k) =~= s);
    }
}

/// Number of non-`axis` axes below `i`.
spec fn kept_below(i: int, axis: int) -> int {
    if i <= axis {
        i
    } else {
        i - 1
    }
}

/// Sets the coordinates of every axis but `axis` in `index` to the row-major
/// decomposition of `outer_flat` over the remaining extents, from the last
/// axis to the first.
fn fill_outer_index(outer_flat: usize, shape: &[usize], axis: usize, index: &mut Vec<usize>)
    requires
        axis < shape@.len(),
        old(index)@.len() == shape@.len(),
        forall|d: int| 0 <= d < shape@.len() && d != axis ==> #[trigger] shape@[d] > 0,
    ensures
        final(index)@.len() == shape@.len(),
        final(index)@[axis as int] == old(index)@[axis as int],
        final(index)@.remove(axis as int) == unflat(outer_flat as nat, shape@.remove(axis as int)),
{
    let ghost rs = shape@.remove(axis as int);
    let n = shape.len();
    let mut rem = outer_flat;
    let mut i = n;
    proof {
        assert(rs.take(kept_below(n as int, axis as int)) =~= rs);
        assert(index@.remove(axis as int).skip(kept_below(n as int, axis as int)) =~= Seq::<usize>::empty());
    }
    while i > 0
        invariant
            axis < n,
            n == shape@.len(),
            index@.len() == n,
            i <= n,
            rs == shape@.remove(axis as int),
            index@[axis as int] == old(index)@[axis as int],
            forall|d: int| 0 <= d < shape@.len() && d != axis ==> #[trigger] shape@[d] > 0,
            unflat(outer_flat as nat, rs) == unflat(rem as nat, rs.take(kept_below(i as int, axis as int)))
                + index@.remove(axis as int).skip(kept_below(i as int, axis as int)),
        decreases i,
    {
        let d = i - 1;
        if d != axis {
            let ghost before = index@;
            let ghost r0 = rem;
            let ghost j = kept_below(i as int, axis as int);
            let ghost pre = rs.take(j);
            proof {
                assert(j >= 1);
                assert(pre.drop_last() =~= rs.take(j - 1));
                assert(pre.last() == shape@[d as int]);
                assert(kept_below(d as int, axis as int) == j - 1);
            }
            index.set(d, rem % shape[d]);
            rem = rem / shape[d];
            proof {
                let ri = index@.remove(axis as int);
                let rb = before.remove(axis as int);
                assert(ri[j - 1] == index@[d as int]);
                assert(ri.skip(j) =~= rb.skip(j));
                assert(ri.skip(j - 1) =~= seq![ri[j - 1]] + ri.skip(j));
                assert(unflat(r0 as nat, pre) == unflat(rem as nat, rs.take(j - 1)).push(ri[j - 1]));
                assert(unflat(rem as nat, rs.take(j - 1)) + ri.skip(j - 1) =~= unflat(r0 as nat, pre) + rb.skip(j));
            }
        } else {
            proof {
                assert(kept_below(d as int, axis as int) == kept_below(i as int, axis as int));
            }
        }
        i = d;
    }
    proof {
        assert(rs.take(0) =~= Seq::<usize>::empty());
        assert(index@.remove(axis as int).skip(0) =~= index@.remove(axis as int));
    }
}


proof fn lemma_remove_in_bounds(index: Seq<usize>, shape: Seq<usize>, axis: int)
    requires
        0 <= axis < shape.len(),
        index.len() == shape.len(),
    ensures
        in_bounds(index, shape) <==> (in_bounds(index.remove(axis), shape.remove(axis)) && index[axis]
            < shape[axis]),
{
    if in_bounds(index.remove(axis), shape.remove(axis)) && index[axis] < shape[axis] {
        assert forall|d: int| 0 <= d < shape.len() implies #[trigger] index[d] < shape[d] by {
            if d < axis {
                assert(index.remove(axis)[d] < shape.remove(axis)[d]);
            } else if d > axis {
                assert(index.remove(axis)[d - 1] < shape.remove(axis)[d - 1]);
            }
        }
    }
    if in_bounds(index, shape) {
        assert forall|d: int| 0 <= d < shape.remove(axis).len() implies #[trigger] index.remove(axis)[d]
            < shape.remove(axis)[d] by {
            if d < axis {
                assert(index[d] < shape[d]);
            } else {
                assert(index[d + 1] < shape[d + 1]);
            }
        }
    }
}

/// Two indices that agree off `axis` name the same lane.
proof fn lemma_same_lane(a: Seq<usize>, b: Seq<usize>, axis: int)
    requires
        0 <= axis < a.len(),
        a.len() == b.len(),
        a.remove(axis) == b.remove(axis),
    ensures
        forall|k: usize| #[trigger] a.update(axis, k) == b.update(axis, k),
        a == b.update(axis, a[axis]),
{
    assert forall|k: usize| #[trigger] a.update(axis, k) == b.update(axis, k) by {
        assert forall|d: int| 0 <= d < a.len() && d != axis implies a[d] == b[d] by {
            if d < axis {
                assert(a.remove(axis)[d] == a[d]);
                assert(b.remove(axis)[d] == b[d]);
            } else {
                assert(a.remove(axis)[d - 1] == a[d]);
                assert(b.remove(axis)[d - 1] == b[d]);
            }
        }
        assert(a.update(axis, k) =~= b.update(axis, k));
    }
    assert(a.update(axis, a[axis]) =~= a);
}

/// The element count splits into the extent of `axis` and that of the rest.
proof fn lemma_size_remove(shape: Seq<usize>, axis: int)
    requires
        0 <= axis < shape.len(),
    ensures
        size(shape) == size(shape.remove(axis)) * (shape[axis] as nat),
    decreases shape.len(),
{
    let last = shape.len() - 1;
    if axis == last {
        assert(shape.remove(axis) =~= shape.drop_last());
    } else {
        let d = shape.drop_last();
        lemma_size_remove(d, axis);
        assert(shape.remove(axis).drop_last() =~= d.remove(axis));
        assert(shape.remove(axis).last() == shape.last());
        let (a, b, c) = (size(d.remove(axis)), shape[axis] as nat, shape.last() as nat);
        assert(size(shape) == (a * b) * c);
        assert(size(shape.remove(axis)) == a * c);
        assert((a * b) * c == (a * c) * b) by (nonlinear_arith);
    }
}

/// Scans `input` along `axis` into caller-owned `output` of the same shape.
///
/// Fails, leaving `output` unchanged, with `AxisOutOfBounds` when `axis` is
/// not below the rank, then with `ShapeMismatch { lhs: input shape, rhs:
/// output shape }`. Otherwise the element at every index is the fold of its
/// lane up to it (forward) or from the lane's end down to it (reverse).
pub fn scan_axis_into<Op: ScanOp<T>, T: Scalar>(
    input: &Tensor<T>,
    axis: usize,
    direction: ScanDirection,
    output: &mut Tensor<T>,
) -> (r: Result<(), LetoError>)
    requires
        input@.wf(),
        old(output)@.wf(),
        axis < input@.shape.len() && old(output)@.shape == input@.shape ==> scannable::<T, Op>(
            input@,
            axis as int,
            direction,
        ),
    ensures
        scan_outcome::<T, Op>(input@, axis, direction, old(output)@, final(output)@, r),
{
    let shape = input.shape();
    let n = shape.len();
    if axis >= n {
        return Err(LetoError::StorageError { reason: StorageFault::AxisOutOfBounds });
    }
    let out_shape = output.shape();
    let mut same = n == out_shape.len();
    let mut d: usize = 0;
    while same && d < n
        invariant
            n == shape@.len(),
            same ==> n == out_shape@.len(),
            same ==> shape@.take(d as int) == out_shape@.take(d as int),
            !same ==> shape@ != out_shape@,
            d <= n,
        decreases n - d,
    {
        if shape[d] != out_shape[d] {
            same = false;
            assert(shape@[d as int] != out_shape@[d as int]);
        } else {
            assert(shape@.take(d + 1) =~= shape@.take(d as int).push(shape@[d as int]));
            assert(out_shape@.take(d + 1) =~= out_shape@.take(d as int).push(out_shape@[d as int]));
        }
        d = d + 1;
    }
    if !same {
        return Err(LetoError::ShapeMismatch { lhs: copy_extents(shape), rhs: copy_extents(out_shape) });
    }
    proof {
        assert(shape@.take(n as int) =~= shape@);
        assert(out_shape@.take(n as int) =~= out_shape@);
    }
    let len = shape[axis];
    let ghost inp = input@;
    let ghost sh = inp.shape;
    let ghost ax = axis as int;
    if len == 0 {
        proof {
            assert forall|index: Seq<usize>| in_bounds(index, output@.shape) implies #[trigger] output@.at(index)
                == scanned::<T, Op>(lane_of(inp, index, ax), index[ax] as int, direction) by {
                assert(index[ax] < sh[ax]);
            }
        }
        return Ok(());
    }
    // The extents of the other axes, and their element count.
    let mut rest: Vec<usize> = Vec::new();
    for q in 0..n
        invariant
            n == shape@.len(),
            axis < n,
            rest@.len() == kept_count(q as int, axis as int),
            forall|e: int| 0 <= e < rest@.len() ==> #[trigger] rest@[e] == shape@.remove(axis as int)[e],
    {
        if q != axis {
            rest.push(shape[q]);
        }
    }
    let ghost rs = sh.remove(ax);
    proof {
        assert(rest@ =~= rs);
        lemma_size_remove(sh, ax);
        assert(size(rs) <= size(sh)) by (nonlinear_arith)
            requires
                size(sh) == size(rs) * (len as nat),
                len >= 1,
        ;
        assert(size(sh) == inp.data.len());
    }
    let input_data = input.data();
    let in_len = input_data.len();
    proof {
        assert(size(rs) <= in_len);
    }
    let outer = match super::tensor::checked_size(&rest) {
        Some(count) => count,
        None => {
            proof {
                assert(false);
            }
            return Ok(());
        },
    };
    let mut index: Vec<usize> = Vec::new();
    for q in 0..n
        invariant
            index@.len() == q,
    {
        index.push(0);
    }
    proof {
        assert forall|idx: Seq<usize>| in_bounds(idx, sh) implies flat_of(idx.remove(ax), rs) >= 0 by {
            lemma_remove_in_bounds(idx, sh, ax);
            lemma_flat_bound(idx.remove(ax), rs);
        }
    }
    for outer_flat in 0..outer
        invariant
            inp == input@,
            inp.wf(),
            sh == inp.shape,
            shape@ == sh,
            n == sh.len(),
            ax == axis as int,
            axis < n,
            len == sh[ax],
            len > 0,
            rs == sh.remove(ax),
            rest@ == rs,
            outer == size(rs),
            input_data@ == inp.data,
            in_len == inp.data.len(),
            scannable::<T, Op>(inp, ax, direction),
            index@.len() == n,
            output@.shape == sh,
            output@.wf(),
            forall|idx: Seq<usize>|
                in_bounds(idx, sh) && flat_of(idx.remove(ax), rs) < outer_flat ==> #[trigger] output@.at(idx)
                    == scanned::<T, Op>(lane_of(inp, idx, ax), idx[ax] as int, direction),
    {
        proof {
            lemma_unflat_inverse(outer_flat as nat, rs);
            assert forall|e: int| 0 <= e < n && e != ax implies #[trigger] shape@[e] > 0 by {
                let ue = unflat(outer_flat as nat, rs);
                if e < ax {
                    assert(ue[e] < rs[e]);
                } else {
                    assert(ue[e - 1] < rs[e - 1]);
                }
            }
        }
        fill_outer_index(outer_flat, shape, axis, &mut index);
        let ghost oi = index@;
        let ghost lane = lane_of(inp, oi, ax);
        let ghost ord = oriented(lane, direction);
        proof {
            assert(oi.update(ax, 0usize).remove(ax) =~= oi.remove(ax));
            lemma_remove_in_bounds(oi.update(ax, 0usize), sh, ax);
            assert(fold_ok::<T, Op>(oriented(lane_of(inp, oi.update(ax, 0usize), ax), direction)));
            lemma_same_lane(oi.update(ax, 0usize), oi, ax);
            assert(lane_of(inp, oi.update(ax, 0usize), ax) =~= lane);
        }
        let mut acc = Op::identity();
        proof {
            assert(ord.take(0) =~= Seq::<T>::empty());
        }
        for step in 0..len
            invariant
                inp.wf(),
                sh == inp.shape,
                shape@ == sh,
                n == sh.len(),
                ax == axis as int,
                axis < n,
                len == sh[ax],
                rs == sh.remove(ax),
                outer_flat < size(rs),
                input_data@ == inp.data,
                in_len == inp.data.len(),
                index@.len() == n,
                index@.remove(ax) == unflat(outer_flat as nat, rs),
                oi.remove(ax) == unflat(outer_flat as nat, rs),
                oi.len() == n,
                lane == lane_of(inp, oi, ax),
                ord == oriented(lane, direction),
                fold_ok::<T, Op>(ord),
                acc == folded::<T, Op>(ord.take(step as int)),
                output@.shape == sh,
                output@.wf(),
                forall|idx: Seq<usize>|
                    in_bounds(idx, sh) && (flat_of(idx.remove(ax), rs) < outer_flat || (flat_of(
                        idx.remove(ax),
                        rs,
                    ) == outer_flat && match direction {
                        ScanDirection::Forward => idx[ax] < step,
                        ScanDirection::Reverse => idx[ax] >= len - step,
                    })) ==> #[trigger] output@.at(idx) == scanned::<T, Op>(
                        lane_of(inp, idx, ax),
                        idx[ax] as int,
                        direction,
                    ),
        {
            let k = match direction {
                ScanDirection::Forward => step,
                ScanDirection::Reverse => len - 1 - step,
            };
            let ghost before = index@;
            index.set(axis, k);
            let ghost cur = index@;
            proof {
                assert(cur.remove(ax) =~= before.remove(ax));
                lemma_remove_in_bounds(cur, sh, ax);
                lemma_unflat_inverse(outer_flat as nat, rs);
                lemma_flat_bound(cur, sh);
                lemma_same_lane(cur, oi, ax);
                assert(cur == oi.update(ax, k));
                assert(lane[k as int] == inp.at(cur));
                lemma_fold_prefix::<T, Op>(ord, step + 1);
                assert(ord.take(step + 1).drop_last() =~= ord.take(step as int));
                assert(ord[step as int] == lane[k as int]);
            }
            let off = offset_of(&index, shape);
            acc = Op::combine(acc, input_data[off]);
            let ghost out_before = output@;
            output.set_flat(off, acc);
            proof {
                assert(acc == folded::<T, Op>(ord.take(step + 1)));
                match direction {
                    ScanDirection::Forward => {
                        assert(ord.take(step + 1) =~= lane.take(k + 1));
                    },
                    ScanDirection::Reverse => {
                        assert(ord.take(step + 1) =~= lane.skip(k as int).reverse());
                    },
                }
                assert(lane_of(inp, cur, ax) == lane) by {
                    assert(lane_of(inp, cur, ax) =~= lane);
                }
                assert(flat_of(cur.remove(ax), rs) == outer_flat);
                assert forall|idx: Seq<usize>|
                    in_bounds(idx, sh) && (flat_of(idx.remove(ax), rs) < outer_flat || (flat_of(
                        idx.remove(ax),
                        rs,
                    ) == outer_flat && match direction {
                        ScanDirection::Forward => idx[ax] < step + 1,
                        ScanDirection::Reverse => idx[ax] >= len - (step + 1),
                    })) implies #[trigger] output@.at(idx) == scanned::<T, Op>(
                        lane_of(inp, idx, ax),
                        idx[ax] as int,
                        direction,
                    ) by {
                    if idx == cur {
                    } else {
                        lemma_flat_bound(idx, sh);
                        if flat_of(idx, sh) == off {
                            lemma_flat_injective(idx, cur, sh);
                        }
                        assert(output@.at(idx) == out_before.at(idx));
                        if flat_of(idx.remove(ax), rs) == outer_flat {
                            lemma_remove_in_bounds(idx, sh, ax);
                            crate::application::tensor::lemma_unflat_of_flat(idx.remove(ax), rs);
                            if idx[ax] == k {
                                lemma_same_lane(idx, cur, ax);
                            }
                        }
                    }
                }
            }
        }
    }
    proof {
        assert forall|idx: Seq<usize>| in_bounds(idx, output@.shape) implies #[trigger] output@.at(idx)
            == scanned::<T, Op>(lane_of(inp, idx, ax), idx[ax] as int, direction) by {
            lemma_remove_in_bounds(idx, sh, ax);
            lemma_flat_bound(idx.remove(ax), rs);
        }
    }
    Ok(())
}

/// Number of non-`axis` axes below `q`, counting `q` itself when past `axis`.
spec fn kept_count(q: int, axis: int) -> int {
    if q <= axis {
        q
    } else {
        q - 1
    }
}


/// Scans `input` along `axis`, allocating a row-major output of equal shape.
///
/// Fails with `AxisOutOfBounds` when `axis` is not below the rank.
pub fn scan_axis<Op: ScanOp<T>, T: Scalar>(input: &Tensor<T>, axis: usize, direction: ScanDirection) -> (r:
    Result<Tensor<T>, LetoError>)
    requires
        input@.wf(),
        axis < input@.shape.len() ==> scannable::<T, Op>(input@, axis as int, direction),
    ensures
        axis >= input@.shape.len() ==> r == Err::<Tensor<T>, LetoError>(
            LetoError::StorageError { reason: StorageFault::AxisOutOfBounds },
        ),
        axis < input@.shape.len() ==> r is Ok && r->Ok_0@.shape == input@.shape && r->Ok_0@.wf() && forall|
            index: Seq<usize>,
        |
            in_bounds(index, input@.shape) ==> #[trigger] r->Ok_0@.at(index) == scanned::<T, Op>(
                lane_of(input@, index, axis as int),
                index[axis as int] as int,
                direction,
            ),
{
    if axis >= input.shape().len() {
        return Err(LetoError::StorageError { reason: StorageFault::AxisOutOfBounds });
    }
    let count = input.data().len();
    proof {
        assert(size(input@.shape) == count);
    }
    let mut output = match Tensor::from_elem(copy_extents(input.shape()), T::zero()) {
        Ok(t) => t,
        Err(e) => {
            return Err(e);
        },
    };
    match scan_axis_into::<Op, T>(input, axis, direction, &mut output) {
        Ok(()) => Ok(output),
        Err(e) => Err(e),
    }
}

/// Forward cumulative sum along `axis`, allocating a row-major output.
pub fn cumsum<T: Scalar>(input: &Tensor<T>, axis: usize) -> (r: Result<Tensor<T>, LetoError>)
    requires
        input@.wf(),
        axis < input@.shape.len() ==> scannable::<T, CumSumOp>(input@, axis as int, ScanDirection::Forward),
    ensures
        axis >= input@.shape.len() ==> r == Err::<Tensor<T>, LetoError>(
            LetoError::StorageError { reason: StorageFault::AxisOutOfBounds },
        ),
        axis < input@.shape.len() ==> r is Ok && r->Ok_0@.shape == input@.shape && r->Ok_0@.wf() && forall|
            index: Seq<usize>,
        |
            in_bounds(index, input@.shape) ==> #[trigger] r->Ok_0@.at(index) == scanned::<T, CumSumOp>(
                lane_of(input@, index, axis as int),
                index[axis as int] as int,
                ScanDirection::Forward,
            ),
{
    scan_axis::<CumSumOp, T>(input, axis, ScanDirection::Forward)
}

/// Forward cumulative sum along `axis` into caller-owned `output`.
pub fn cumsum_into<T: Scalar>(input: &Tensor<T>, axis: usize, output: &mut Tensor<T>) -> (r: Result<(), LetoError>)
    requires
        input@.wf(),
        old(output)@.wf(),
        axis < input@.shape.len() && old(output)@.shape == input@.shape ==> scannable::<T, CumSumOp>(
            input@,
            axis as int,
            ScanDirection::Forward,
        ),
    ensures
        scan_outcome::<T, CumSumOp>(input@, axis, ScanDirection::Forward, old(output)@, final(output)@, r),
{
    scan_axis_into::<CumSumOp, T>(input, axis, ScanDirection::Forward, output)
}

} // verus!
