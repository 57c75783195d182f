//! Keep-dim reductions along one axis of a dense array.
//!
//! Every output element is the reduction of one lane: the input elements that
//! agree with it on every axis but the reduced one, visited by increasing
//! coordinate along that axis.
use vstd::prelude::*;
use crate::domain::error::{LetoError, StorageFault};
use crate::domain::scalar::Scalar;
use crate::domain::fallback::int_sum;
use super::sealed::Sealed;
use super::tensor::{
    copy_extents, flat_of, in_bounds, index_from_flat, kept_shape, lane_of, lemma_flat_bound, lemma_unflat_inverse,
    lemma_unflat_of_flat, offset_of, size, unflat, Tensor, TensorView,
};

verus! {

/// Zero-sized axis-reduction contract: a first element starts the
/// accumulator, every further element folds into it, and the finished
/// accumulator is finalized with the axis length.
pub trait AxisReduction<T: Scalar>: Sealed + Copy + Sized {
    /// The accumulator started from the first element.
    spec fn start(first: T) -> T;

    /// The accumulator after folding `value` into `acc`.
    spec fn step(acc: T, value: T) -> T;

    /// Whether folding `value` into `acc` is representable.
    spec fn step_ok(acc: T, value: T) -> bool;

    /// The result finalized from `acc` after `axis_len` elements.
    spec fn finish(acc: T, axis_len: usize) -> T;

    /// Whether finalizing `acc` is defined.
    spec fn finish_ok(acc: T, axis_len: usize) -> bool;

    /// Whether an empty reduction has a defined value.
    spec fn allows_empty() -> bool;

    /// The value of an empty reduction, when allowed.
    spec fn empty_value() -> T;

    /// Initial accumulator for non-empty reductions.
    fn initial(first: T) -> (r: T)
        ensures
            r == Self::start(first),
    ;

    /// Fold one value into the accumulator.
    fn fold(acc: T, value: T) -> (r: T)
        requires
            Self::step_ok(acc, value),
        ensures
            r == Self::step(acc, value),
    ;

    /// Finalize the accumulator after `axis_len` elements.
    fn finalize(acc: T, axis_len: usize) -> (r: T)
        requires
            Self::finish_ok(acc, axis_len),
        ensures
            r == Self::finish(acc, axis_len),
    ;

    /// Whether an empty reduction has a defined value.
    fn allow_empty() -> (r: bool)
        ensures
            r == Self::allows_empty(),
    ;

    /// Empty reduction value when empty reductions are allowed.
    fn empty() -> (r: T)
        ensures
            r == Self::empty_value(),
    ;
}

/// Sum axis-reduction marker.
#[derive(Clone, Copy, Debug, Default)]
pub struct SumAxis;

/// Mean axis-reduction marker.
#[derive(Clone, Copy, Debug, Default)]
pub struct MeanAxis;

/// Minimum axis-reduction marker.
#[derive(Clone, Copy, Debug, Default)]
pub struct MinAxis;

/// Maximum axis-reduction marker.
#[derive(Clone, Copy, Debug, Default)]
pub struct MaxAxis;

impl Sealed for SumAxis {
}

impl Sealed for MeanAxis {
}

impl Sealed for MinAxis {
}

impl Sealed for MaxAxis {
}

impl<T: Scalar> AxisReduction<T> for SumAxis {
    open spec fn start(first: T) -> T {
        first
    }

    open spec fn step(acc: T, value: T) -> T {
        acc.plus(value)
    }

    open spec fn step_ok(acc: T, value: T) -> bool {
        acc.can_add(value)
    }

    open spec fn finish(acc: T, axis_len: usize) -> T {
        acc
    }

    open spec fn finish_ok(acc: T, axis_len: usize) -> bool {
        true
    }

    open spec fn allows_empty() -> bool {
        true
    }

    open spec fn empty_value() -> T {
        T::zero_value()
    }

    fn initial(first: T) -> (r: T) {
        first
    }

    fn fold(acc: T, value: T) -> (r: T) {
        acc.add(value)
    }

    fn finalize(acc: T, axis_len: usize) -> (r: T) {
        acc
    }

    fn allow_empty() -> (r: bool) {
        true
    }

    fn empty() -> (r: T) {
        T::zero()
    }
}

impl<T: Scalar> AxisReduction<T> for MeanAxis {
    open spec fn start(first: T) -> T {
        first
    }

    open spec fn step(acc: T, value: T) -> T {
        acc.plus(value)
    }

    open spec fn step_ok(acc: T, value: T) -> bool {
        acc.can_add(value)
    }

    open spec fn finish(acc: T, axis_len: usize) -> T {
        acc.quotient(T::from_index(axis_len))
    }

    open spec fn finish_ok(acc: T, axis_len: usize) -> bool {
        acc.can_div(T::from_index(axis_len))
    }

    open spec fn allows_empty() -> bool {
        false
    }

    open spec fn empty_value() -> T {
        T::zero_value()
    }

    fn initial(first: T) -> (r: T) {
        first
    }

    fn fold(acc: T, value: T) -> (r: T) {
        acc.add(value)
    }

    fn finalize(acc: T, axis_len: usize) -> (r: T) {
        acc.div(T::from_usize(axis_len))
    }

    fn allow_empty() -> (r: bool) {
        false
    }

    fn empty() -> (r: T) {
        T::zero()
    }
}

impl<T: Scalar> AxisReduction<T> for MinAxis {
    open spec fn start(first: T) -> T {
        first
    }

    open spec fn step(acc: T, value: T) -> T {
        if !acc.at_most(value) {
            value
        } else {
            acc
        }
    }

    open spec fn step_ok(acc: T, value: T) -> bool {
        true
    }

    open spec fn finish(acc: T, axis_len: usize) -> T {
        acc
    }

    open spec fn finish_ok(acc: T, axis_len: usize) -> bool {
        true
    }

    open spec fn allows_empty() -> bool {
        false
    }

    open spec fn empty_value() -> T {
        T::zero_value()
    }

    fn initial(first: T) -> (r: T) {
        first
    }

    fn fold(acc: T, value: T) -> (r: T) {
        if !acc.le(value) {
            value
        } else {
            acc
        }
    }

    fn finalize(acc: T, axis_len: usize) -> (r: T) {
        acc
    }

    fn allow_empty() -> (r: bool) {
        false
    }

    fn empty() -> (r: T) {
        T::zero()
    }
}

impl<T: Scalar> AxisReduction<T> for MaxAxis {
    open spec fn start(first: T) -> T {
        first
    }

    open spec fn step(acc: T, value: T) -> T {
        if !value.at_most(acc) {
            value
        } else {
            acc
        }
    }

    open spec fn step_ok(acc: T, value: T) -> bool {
        true
    }

    open spec fn finish(acc: T, axis_len: usize) -> T {
        acc
    }

    open spec fn finish_ok(acc: T, axis_len: usize) -> bool {
        true
    }

    open spec fn allows_empty() -> bool {
        false
    }

    open spec fn empty_value() -> T {
        T::zero_value()
    }

    fn initial(first: T) -> (r: T) {
        first
    }

    fn fold(acc: T, value: T) -> (r: T) {
        if !value.le(acc) {
            value
        } else {
            acc
        }
    }

    fn finalize(acc: T, axis_len: usize) -> (r: T) {
        acc
    }

    fn allow_empty() -> (r: bool) {
        false
    }

    fn empty() -> (r: T) {
        T::zero()
    }
}

/// The accumulator of `Op` over a non-empty sequence, left to right.
pub open spec fn accumulated<T: Scalar, Op: AxisReduction<T>>(s: Seq<T>) -> T
    decreases s.len(),
{
    if s.len() <= 1 {
        Op::start(s[0])
    } else {
        Op::step(accumulated::<T, Op>(s.drop_last()), s.last())
    }
}

/// Every fold step of `accumulated::<T, Op>(s)` is representable.
pub open spec fn accumulation_ok<T: Scalar, Op: AxisReduction<T>>(s: Seq<T>) -> bool
    decreases s.len(),
{
    s.len() <= 1 || (accumulation_ok::<T, Op>(s.drop_last()) && Op::step_ok(
        accumulated::<T, Op>(s.drop_last()),
        s.last(),
    ))
}

/// The reduced value of one lane: the finalized accumulator, or the empty
/// value for a lane of length zero.
pub open spec fn reduced<T: Scalar, Op: AxisReduction<T>>(lane: Seq<T>) -> T {
    if lane.len() == 0 {
        Op::empty_value()
    } else {
        Op::finish(accumulated::<T, Op>(lane), lane.len() as usize)
    }
}

/// Reducing `lane` stays representable.
pub open spec fn reduction_ok<T: Scalar, Op: AxisReduction<T>>(lane: Seq<T>) -> bool {
    lane.len() > 0 ==> accumulation_ok::<T, Op>(lane) && Op::finish_ok(
        accumulated::<T, Op>(lane),
        lane.len() as usize,
    )
}

/// The sum of a non-empty lane, computed without overflow, is the sum of the
/// integers its elements stand for.
pub proof fn lemma_sum_reduction_exact<T: Scalar>(lane: Seq<T>)
    requires
        lane.len() > 0,
        accumulation_ok::<T, SumAxis>(lane),
    ensures
        reduced::<T, SumAxis>(lane).as_int() == int_sum(lane),
    decreases lane.len(),
{
    T::lemma_zero_int();
    let d = lane.drop_last();
    if lane.len() == 1 {
        assert(int_sum(d) == 0);
    } else {
        lemma_sum_reduction_exact(d);
        T::lemma_plus_exact(accumulated::<T, SumAxis>(d), lane.last());
    }
}

/// The maximum of a non-empty lane is one of its elements, and every element
/// of the lane is at most it.
pub proof fn lemma_max_reduction_is_greatest<T: Scalar>(lane: Seq<T>)
    requires
        lane.len() > 0,
    ensures
        exists|k: int| 0 <= k < lane.len() && lane[k] == reduced::<T, MaxAxis>(lane),
        forall|k: int| 0 <= k < lane.len() ==> (#[trigger] lane[k]).at_most(reduced::<T, MaxAxis>(lane)),
    decreases lane.len(),
{
    let m = reduced::<T, MaxAxis>(lane);
    let last = lane.len() - 1;
    assert(m == accumulated::<T, MaxAxis>(lane));
    if lane.len() == 1 {
        T::lemma_at_most_exact(lane[0], m);
        assert(lane[0] == m);
    } else {
        let d = lane.drop_last();
        lemma_max_reduction_is_greatest(d);
        let acc = reduced::<T, MaxAxis>(d);
        assert(acc == accumulated::<T, MaxAxis>(d));
        T::lemma_at_most_exact(lane[last], acc);
        T::lemma_at_most_exact(lane[last], m);
        let w = choose|k: int| 0 <= k < d.len() && d[k] == acc;
        if !lane[last].at_most(acc) {
            assert(lane[last] == m);
        } else {
            assert(lane[w] == m);
        }
        assert forall|k: int| 0 <= k < lane.len() implies (#[trigger] lane[k]).at_most(m) by {
            T::lemma_at_most_exact(lane[k], m);
            if k < last {
                assert(d[k] == lane[k]);
                assert(d[k].at_most(acc));
                T::lemma_at_most_exact(d[k], acc);
                T::lemma_at_most_exact(acc, m);
            }
        }
    }
}

/// The minimum of a non-empty lane is one of its elements, and it is at most
/// every element of the lane.
pub proof fn lemma_min_reduction_is_least<T: Scalar>(lane: Seq<T>)
    requires
        lane.len() > 0,
    ensures
        exists|k: int| 0 <= k < lane.len() && lane[k] == reduced::<T, MinAxis>(lane),
        forall|k: int| 0 <= k < lane.len() ==> reduced::<T, MinAxis>(lane).at_most(#[trigger] lane[k]),
    decreases lane.len(),
{
    let m = reduced::<T, MinAxis>(lane);
    let last = lane.len() - 1;
    assert(m == accumulated::<T, MinAxis>(lane));
    if lane.len() == 1 {
        T::lemma_at_most_exact(m, lane[0]);
        assert(lane[0] == m);
    } else {
        let d = lane.drop_last();
        lemma_min_reduction_is_least(d);
        let acc = reduced::<T, MinAxis>(d);
        assert(acc == accumulated::<T, MinAxis>(d));
        T::lemma_at_most_exact(acc, lane[last]);
        T::lemma_at_most_exact(m, lane[last]);
        let w = choose|k: int| 0 <= k < d.len() && d[k] == acc;
        if !acc.at_most(lane[last]) {
            assert(lane[last] == m);
        } else {
            assert(lane[w] == m);
        }
        assert forall|k: int| 0 <= k < lane.len() implies m.at_most(#[trigger] lane[k]) by {
            T::lemma_at_most_exact(m, lane[k]);
            if k < last {
                assert(d[k] == lane[k]);
                assert(acc.at_most(d[k]));
                T::lemma_at_most_exact(acc, d[k]);
                T::lemma_at_most_exact(m, acc);
            }
        }
    }
}

/// Every lane of `input` along `axis` reduces without overflow.
pub open spec fn reducible<T: Scalar, Op: AxisReduction<T>>(input: TensorView<T>, axis: int) -> bool {
    forall|index: Seq<usize>|
        in_bounds(index, kept_shape(input.shape, axis)) ==> #[trigger] reduction_ok::<T, Op>(
            lane_of(input, index, axis),
        )
}

proof fn lemma_accumulation_prefix<T: Scalar, Op: AxisReduction<T>>(s: Seq<T>, k: int)
    requires
        accumulation_ok::<T, Op>(s),
        1 <= k <= s.len(),
    ensures
        accumulation_ok::<T, Op>(s.take(k)),
    decreases s.len(),
{
    if k < s.len() {
        assert(s.drop_last().take(k) =~= s.take(k));
        lemma_accumulation_prefix::<T, Op>(s.drop_last(), k);
    } else {
        assert(s.take(k) =~= s);
    }
}

/// The keep-dim output shape, or `AxisOutOfBounds` when `axis` is not below
/// the rank.
fn output_shape(input_shape: &[usize], axis: usize) -> (r: Result<Vec<usize>, LetoError>)
    ensures
        axis < input_shape@.len() ==> r is Ok && r->Ok_0@ == kept_shape(input_shape@, axis as int),
        axis >= input_shape@.len() ==> r == Err::<Vec<usize>, LetoError>(
            LetoError::StorageError { reason: StorageFault::AxisOutOfBounds },
        ),
{
    if axis >= input_shape.len() {
        return Err(LetoError::StorageError { reason: StorageFault::AxisOutOfBounds });
    }
    let mut shape: Vec<usize> = Vec::new();
    for d in 0..input_shape.len()
        invariant
            axis < input_shape@.len(),
            shape@.len() == d,
            forall|e: int| 0 <= e < d ==> #[trigger] shape@[e] == if e == axis {
                1
            } else {
                input_shape@[e]
            },
    {
        if d == axis {
            shape.push(1);
        } else {
            shape.push(input_shape[d]);
        }
    }
    assert(shape@ =~= kept_shape(input_shape@, axis as int));
    Ok(shape)
}

/// What a keep-dim reduction of `input` along `axis` into `before` returns
/// (`r`) and leaves in the output (`after`).
pub open spec fn reduce_outcome<T: Scalar, Op: AxisReduction<T>>(
    input: TensorView<T>,
    axis: usize,
    before: TensorView<T>,
    after: TensorView<T>,
    r: Result<(), LetoError>,
) -> bool {
    let expected = kept_shape(input.shape, axis as int);
    &&& axis >= input.shape.len() ==> r == Err::<(), LetoError>(
        LetoError::StorageError { reason: StorageFault::AxisOutOfBounds },
    )
    &&& axis < input.shape.len() && before.shape != expected ==> (r matches Err(
        LetoError::ShapeMismatch { lhs, rhs },
    ) && lhs@ == expected && rhs@ == before.shape)
    &&& axis < input.shape.len() && before.shape == expected && input.shape[axis as int] == 0
        && !Op::allows_empty() ==> r == Err::<(), LetoError>(
        LetoError::StorageError { reason: StorageFault::EmptyAxis },
    )
    &&& r is Err ==> after == before
    &&& r is Ok <==> axis < input.shape.len() && before.shape == expected && (input.shape[axis as int] > 0
        || Op::allows_empty())
    &&& r is Ok ==> after.shape == before.shape && after.wf() && forall|index: Seq<usize>|
        in_bounds(index, after.shape) ==> #[trigger] after.at(index) == reduced::<T, Op>(
            lane_of(input, index, axis as int),
        )
}

/// Applies a keep-dim axis reduction into caller-owned `output`.
///
/// Fails, leaving `output` unchanged, with `AxisOutOfBounds` when `axis` is
/// not below the rank, then with `ShapeMismatch { lhs: expected, rhs: output
/// shape }` when `output` does not have the input's shape with extent one at
/// `axis`, then with `EmptyAxis` when the axis has length zero and `Op` has
/// no empty value. Otherwise every output element is the reduction of its
/// lane.
pub fn reduce_axis_into<Op: AxisReduction<T>, T: Scalar>(
    input: &Tensor<T>,
    axis: usize,
    output: &mut Tensor<T>,
) -> (r: Result<(), LetoError>)
    requires
        input@.wf(),
        old(output)@.wf(),
        axis < input@.shape.len() && old(output)@.shape == kept_shape(input@.shape, axis as int) ==> reducible::<T, Op>(
            input@,
            axis as int,
        ),
    ensures
        reduce_outcome::<T, Op>(input@, axis, old(output)@, final(output)@, r),
{
    let expected = output_shape(input.shape(), axis)?;
    let out_shape = output.shape();
    let mut same = expected.len() == out_shape.len();
    let mut d: usize = 0;
    while same && d < expected.len()
        invariant
            same ==> expected@.len() == out_shape@.len(),
            same ==> expected@.take(d as int) == out_shape@.take(d as int),
            !same ==> expected@ != out_shape@,
            d <= expected@.len(),
        decreases expected@.len() - d,
    {
        if expected[d] != out_shape[d] {
            same = false;
            assert(expected@[d as int] != out_shape@[d as int]);
        } else {
            assert(expected@.take(d + 1) =~= expected@.take(d as int).push(expected@[d as int]));
            assert(out_shape@.take(d + 1) =~= out_shape@.take(d as int).push(out_shape@[d as int]));
        }
        d = d + 1;
    }
    if !same {
        return Err(LetoError::ShapeMismatch { lhs: expected, rhs: copy_extents(out_shape) });
    }
    proof {
        assert(expected@.take(expected@.len() as int) =~= expected@);
        assert(out_shape@.take(out_shape@.len() as int) =~= out_shape@);
    }
    let in_shape = input.shape();
    let axis_len = in_shape[axis];
    if axis_len == 0 && !Op::allow_empty() {
        return Err(LetoError::StorageError { reason: StorageFault::EmptyAxis });
    }
    let out_size = output.data().len();
    let input_data = input.data();
    let in_len = input_data.len();
    let ghost inp = input@;
    let ghost out0 = output@;
    let ghost oshape = output@.shape;
    proof {
        assert(oshape == kept_shape(inp.shape, axis as int));
    }
    for flat in 0..out_size
        invariant
            inp == input@,
            inp.wf(),
            in_shape@ == inp.shape,
            input_data@ == inp.data,
            in_len == inp.data.len(),
            axis < inp.shape.len(),
            axis_len == inp.shape[axis as int],
            oshape == kept_shape(inp.shape, axis as int),
            reducible::<T, Op>(inp, axis as int),
            axis_len > 0 || Op::allows_empty(),
            output@.shape == oshape,
            output@.data.len() == out_size,
            out_size == size(oshape),
            forall|f: int| 0 <= f < flat ==> #[trigger] output@.data[f] == reduced::<T, Op>(
                lane_of(inp, unflat(f as nat, oshape), axis as int),
            ),
    {
        let mut index = index_from_flat(flat, output.shape());
        let ghost oi = index@;
        proof {
            lemma_unflat_inverse(flat as nat, oshape);
            assert(reduction_ok::<T, Op>(lane_of(inp, oi, axis as int)));
        }
        let ghost lane = lane_of(inp, oi, axis as int);
        let value = if axis_len == 0 {
            Op::empty()
        } else {
            index.set(axis, 0);
            proof {
                assert(index@ == oi.update(axis as int, 0usize));
                assert(in_bounds(index@, inp.shape));
                lemma_flat_bound(index@, inp.shape);
            }
            let first = input_data[offset_of(&index, in_shape)];
            let mut acc = Op::initial(first);
            proof {
                assert(lane.take(1) =~= seq![lane[0]]);
            }
            for k in 1..axis_len
                invariant
                    inp.wf(),
                    in_shape@ == inp.shape,
                    input_data@ == inp.data,
                    in_len == inp.data.len(),
                    axis < inp.shape.len(),
                    axis_len == inp.shape[axis as int],
                    oshape == kept_shape(inp.shape, axis as int),
                    in_bounds(oi, oshape),
                    lane == lane_of(inp, oi, axis as int),
                    accumulation_ok::<T, Op>(lane),
                    index@.len() == oi.len(),
                    index@ == oi.update(axis as int, index@[axis as int]),
                    acc == accumulated::<T, Op>(lane.take(k as int)),
            {
                index.set(axis, k);
                proof {
                    assert(index@ == oi.update(axis as int, k));
                    assert(in_bounds(index@, inp.shape));
                    lemma_flat_bound(index@, inp.shape);
                    lemma_accumulation_prefix::<T, Op>(lane, k + 1);
                    assert(lane.take(k + 1).drop_last() =~= lane.take(k as int));
                }
                let v = input_data[offset_of(&index, in_shape)];
                acc = Op::fold(acc, v);
            }
            proof {
                assert(lane.take(axis_len as int) =~= lane);
            }
            Op::finalize(acc, axis_len)
        };
        output.set_flat(flat, value);
        proof {
            let out = output@;
            assert forall|f: int| 0 <= f < flat + 1 implies #[trigger] out.data[f] == reduced::<T, Op>(
                lane_of(inp, unflat(f as nat, oshape), axis as int),
            ) by {
                if f == flat {
                    assert(unflat(f as nat, oshape) == oi);
                }
            }
        }
    }
    proof {
        let out = output@;
        assert forall|index: Seq<usize>| in_bounds(index, out.shape) implies #[trigger] out.at(index)
            == reduced::<T, Op>(lane_of(inp, index, axis as int)) by {
            lemma_flat_bound(index, oshape);
            lemma_unflat_of_flat(index, oshape);
            let f = flat_of(index, oshape);
            assert(out.data[f] == reduced::<T, Op>(lane_of(inp, unflat(f as nat, oshape), axis as int)));
        }
    }
    Ok(())
}


/// Sum `input` along `axis` into `output`, keeping the axis as length one.
pub fn sum_axis_into<T: Scalar>(input: &Tensor<T>, axis: usize, output: &mut Tensor<T>) -> (r: Result<(), LetoError>)
    requires
        input@.wf(),
        old(output)@.wf(),
        axis < input@.shape.len() && old(output)@.shape == kept_shape(input@.shape, axis as int) ==> reducible::<T, SumAxis>(
            input@,
            axis as int,
        ),
    ensures
        reduce_outcome::<T, SumAxis>(input@, axis, old(output)@, final(output)@, r),
{
    reduce_axis_into::<SumAxis, T>(input, axis, output)
}

/// Mean-reduce `input` along `axis` into `output`, keeping the axis as length one.
pub fn mean_axis_into<T: Scalar>(input: &Tensor<T>, axis: usize, output: &mut Tensor<T>) -> (r: Result<(), LetoError>)
    requires
        input@.wf(),
        old(output)@.wf(),
        axis < input@.shape.len() && old(output)@.shape == kept_shape(input@.shape, axis as int) ==> reducible::<T, MeanAxis>(
            input@,
            axis as int,
        ),
    ensures
        reduce_outcome::<T, MeanAxis>(input@, axis, old(output)@, final(output)@, r),
{
    reduce_axis_into::<MeanAxis, T>(input, axis, output)
}

/// Min-reduce `input` along `axis` into `output`, keeping the axis as length one.
pub fn min_axis_into<T: Scalar>(input: &Tensor<T>, axis: usize, output: &mut Tensor<T>) -> (r: Result<(), LetoError>)
    requires
        input@.wf(),
        old(output)@.wf(),
        axis < input@.shape.len() && old(output)@.shape == kept_shape(input@.shape, axis as int) ==> reducible::<T, MinAxis>(
            input@,
            axis as int,
        ),
    ensures
        reduce_outcome::<T, MinAxis>(input@, axis, old(output)@, final(output)@, r),
{
    reduce_axis_into::<MinAxis, T>(input, axis, output)
}

/// Max-reduce `input` along `axis` into `output`, keeping the axis as length one.
pub fn max_axis_into<T: Scalar>(input: &Tensor<T>, axis: usize, output: &mut Tensor<T>) -> (r: Result<(), LetoError>)
    requires
        input@.wf(),
        old(output)@.wf(),
        axis < input@.shape.len() && old(output)@.shape == kept_shape(input@.shape, axis as int) ==> reducible::<T, MaxAxis>(
            input@,
            axis as int,
        ),
    ensures
        reduce_outcome::<T, MaxAxis>(input@, axis, old(output)@, final(output)@, r),
{
    reduce_axis_into::<MaxAxis, T>(input, axis, output)
}

} // verus!
