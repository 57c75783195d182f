//! Spatial pooling over `[batch, channel, spatial...]` arrays.
//!
//! Every output element pools the input elements that the kernel taps of its
//! window read, visited in row-major kernel order; taps in the padding read
//! nothing. Padding contributes no value to an average, and a window that
//! reads nothing pools to zero.
use vstd::prelude::*;
use crate::domain::error::{InputFault, LetoError};
use crate::domain::scalar::Scalar;
use super::tensor::{
    copy_extents, flat_of, in_bounds, index_from_flat, lemma_flat_bound, lemma_unflat_inverse, lemma_unflat_of_flat,
    offset_of, same_shape, size, unflat, Tensor, TensorView,
};
use super::window::{
    geometry_fault, geometry_from_shape, lemma_source_in_bounds, pooled_extents, pooled_shape, spatial_part, tap_source, window_source,
    WindowGeometry, WindowParameters, WindowShape,
};

verus! {

/// Pooling reduction applied to each spatial window.
#[derive(Clone, Copy, Debug, PartialEq, Eq, Structural)]
pub enum PoolingMode {
    /// Select the greatest value the window reads.
    Maximum,
    /// Average the values the window reads.
    Average,
}

/// The first greatest value among the first `k` taps of the window of output
/// index `oi`, with the input index it was read at: a later value replaces
/// the one kept only when it is strictly greater.
pub open spec fn window_argmax<T: Scalar>(input: TensorView<T>, w: WindowShape, oi: Seq<usize>, k: nat) -> Option<
    (T, Seq<usize>),
>
    decreases k,
{
    if k == 0 {
        None
    } else {
        let prev = window_argmax(input, w, oi, (k - 1) as nat);
        match window_source(input.shape, w, oi, (k - 1) as nat) {
            None => prev,
            Some(ii) => {
                let v = input.at(ii);
                match prev {
                    None => Some((v, ii)),
                    Some(best) => if !v.at_most(best.0) {
                        Some((v, ii))
                    } else {
                        prev
                    },
                }
            },
        }
    }
}

/// The first greatest value among the first `k` taps of the window of `oi`.
pub open spec fn window_max<T: Scalar>(input: TensorView<T>, w: WindowShape, oi: Seq<usize>, k: nat) -> Option<T> {
    match window_argmax(input, w, oi, k) {
        Some(best) => Some(best.0),
        None => None,
    }
}

/// How many of the first `k` taps of the window of `oi` read an element of an
/// array of `shape`.
pub open spec fn window_count(shape: Seq<usize>, w: WindowShape, oi: Seq<usize>, k: nat) -> nat
    decreases k,
{
    if k == 0 {
        0
    } else {
        window_count(shape, w, oi, (k - 1) as nat) + if window_source(shape, w, oi, (k - 1) as nat) is Some {
            1nat
        } else {
            0nat
        }
    }
}

/// The sum, from zero and in tap order, of the values the first `k` taps of
/// the window of `oi` read.
pub open spec fn window_sum<T: Scalar>(input: TensorView<T>, w: WindowShape, oi: Seq<usize>, k: nat) -> T
    decreases k,
{
    if k == 0 {
        T::zero_value()
    } else {
        let prev = window_sum(input, w, oi, (k - 1) as nat);
        match window_source(input.shape, w, oi, (k - 1) as nat) {
            Some(ii) => prev.plus(input.at(ii)),
            None => prev,
        }
    }
}

/// Every addition of `window_sum(input, w, oi, k)` is representable.
pub open spec fn window_sum_ok<T: Scalar>(input: TensorView<T>, w: WindowShape, oi: Seq<usize>, k: nat) -> bool
    decreases k,
{
    k == 0 || (window_sum_ok(input, w, oi, (k - 1) as nat) && match window_source(
        input.shape,
        w,
        oi,
        (k - 1) as nat,
    ) {
        Some(ii) => window_sum(input, w, oi, (k - 1) as nat).can_add(input.at(ii)),
        None => true,
    })
}

/// The pooled value of output index `oi`: the first greatest value its
/// window reads, or the sum of those values divided by their count; zero
/// when the window reads nothing.
pub open spec fn pooled<T: Scalar>(input: TensorView<T>, w: WindowShape, mode: PoolingMode, oi: Seq<usize>) -> T {
    let taps = size(w.kernel);
    match mode {
        PoolingMode::Maximum => match window_max(input, w, oi, taps) {
            Some(v) => v,
            None => T::zero_value(),
        },
        PoolingMode::Average => {
            let n = window_count(input.shape, w, oi, taps);
            if n == 0 {
                T::zero_value()
            } else {
                window_sum(input, w, oi, taps).quotient(T::from_index(n as usize))
            }
        },
    }
}

/// Pooling the window of `oi` stays representable.
pub open spec fn pool_ok<T: Scalar>(input: TensorView<T>, w: WindowShape, mode: PoolingMode, oi: Seq<usize>) -> bool {
    let taps = size(w.kernel);
    let n = window_count(input.shape, w, oi, taps);
    mode == PoolingMode::Average ==> window_sum_ok(input, w, oi, taps) && (n > 0 ==> window_sum(
        input,
        w,
        oi,
        taps,
    ).can_div(T::from_index(n as usize)))
}

/// Every window of `input` pools without overflow.
pub open spec fn poolable<T: Scalar>(input: TensorView<T>, w: WindowShape, mode: PoolingMode) -> bool {
    forall|oi: Seq<usize>| in_bounds(oi, pooled_shape(input.shape, w)) ==> #[trigger] pool_ok(input, w, mode, oi)
}

proof fn lemma_sum_ok_prefix<T: Scalar>(input: TensorView<T>, w: WindowShape, oi: Seq<usize>, k: nat, n: nat)
    requires
        k <= n,
        window_sum_ok(input, w, oi, n),
    ensures
        window_sum_ok(input, w, oi, k),
    decreases n - k,
{
    if k < n {
        lemma_sum_ok_prefix(input, w, oi, k, (n - 1) as nat);
    }
}

proof fn lemma_count_bound(shape: Seq<usize>, w: WindowShape, oi: Seq<usize>, k: nat)
    ensures
        window_count(shape, w, oi, k) <= k,
    decreases k,
{
    if k > 0 {
        lemma_count_bound(shape, w, oi, (k - 1) as nat);
    }
}

/// The element the first maximum names is one the window reads, and holds
/// the value kept.
proof fn lemma_argmax_read<T: Scalar>(input: TensorView<T>, w: WindowShape, oi: Seq<usize>, k: nat)
    requires
        window_argmax(input, w, oi, k) is Some,
    ensures
        input.at(window_argmax(input, w, oi, k)->Some_0.1) == window_argmax(input, w, oi, k)->Some_0.0,
        exists|j: nat| j < k && #[trigger] window_source(input.shape, w, oi, j) == Some(
            window_argmax(input, w, oi, k)->Some_0.1,
        ),
    decreases k,
{
    let prev = window_argmax(input, w, oi, (k - 1) as nat);
    let best = window_argmax(input, w, oi, k)->Some_0;
    if prev is Some && best == prev->Some_0 {
        lemma_argmax_read(input, w, oi, (k - 1) as nat);
        let j = choose|j: nat| j < (k - 1) as nat && #[trigger] window_source(input.shape, w, oi, j) == Some(
            prev->Some_0.1,
        );
        assert(j < k && window_source(input.shape, w, oi, j) == Some(best.1));
    } else {
        assert(window_source(input.shape, w, oi, (k - 1) as nat) == Some(best.1));
    }
}

/// The maximum backward pass routes the gradient of an output element to an
/// element its window reads, and that element holds the value the forward
/// pass pooled for the output element.
pub proof fn lemma_gradient_goes_to_pooled_maximum<T: Scalar>(input: TensorView<T>, w: WindowShape, oi: Seq<usize>)
    requires
        window_argmax(input, w, oi, size(w.kernel)) is Some,
    ensures
        input.at(window_argmax(input, w, oi, size(w.kernel))->Some_0.1) == pooled(
            input,
            w,
            PoolingMode::Maximum,
            oi,
        ),
        exists|j: nat| j < size(w.kernel) && #[trigger] window_source(input.shape, w, oi, j) == Some(
            window_argmax(input, w, oi, size(w.kernel))->Some_0.1,
        ),
{
    lemma_argmax_read(input, w, oi, size(w.kernel));
}

/// What a window operation on an array of `shape` may assume of the geometry
/// and of an output index `oi`.
pub open spec fn window_ready(shape: Seq<usize>, w: WindowShape, geometry: WindowGeometry, oi: Seq<usize>) -> bool {
    &&& w.wf()
    &&& geometry_fault(shape, w) is None
    &&& geometry.describes(shape, w)
    &&& size(shape) <= usize::MAX
    &&& in_bounds(oi, pooled_shape(shape, w))
}

/// The first greatest value the window of `oi` reads, with its input index.
fn first_maximum<T: Scalar>(
    input: &Tensor<T>,
    parameters: &WindowParameters,
    geometry: &WindowGeometry,
    oi: &[usize],
) -> (r: Option<(T, Vec<usize>)>)
    requires
        input@.wf(),
        window_ready(input@.shape, parameters@, *geometry, oi@),
    ensures
        r is None ==> window_argmax(input@, parameters@, oi@, size(parameters@.kernel)) is None,
        r matches Some(best) ==> window_argmax(input@, parameters@, oi@, size(parameters@.kernel)) == Some(
            (best.0, best.1@),
        ) && in_bounds(best.1@, input@.shape),
{
    let ghost w = parameters@;
    let ghost inp = input@;
    let shape = input.shape();
    let data = input.data();
    let os = spatial_part(oi);
    let mut best: Option<(T, Vec<usize>)> = None;
    for kf in 0..geometry.kernel_volume
        invariant
            w == parameters@,
            inp == input@,
            inp.wf(),
            shape@ == inp.shape,
            data@ == inp.data,
            window_ready(inp.shape, w, *geometry, oi@),
            os@ == oi@.skip(2),
            best is None ==> window_argmax(inp, w, oi@, kf as nat) is None,
            best matches Some(b) ==> window_argmax(inp, w, oi@, kf as nat) == Some((b.0, b.1@)) && in_bounds(
                b.1@,
                inp.shape,
            ),
    {
        match tap_source(shape, parameters, geometry, oi, &os, kf) {
            None => {},
            Some(ii) => {
                proof {
                    lemma_flat_bound(ii@, inp.shape);
                }
                let v = data[offset_of(&ii, shape)];
                best = match best {
                    None => Some((v, ii)),
                    Some(b) => if !v.le(b.0) {
                        Some((v, ii))
                    } else {
                        Some(b)
                    },
                };
            },
        }
    }
    best
}

/// The sum of the values the window of `oi` reads, with their count.
fn window_total<T: Scalar>(
    input: &Tensor<T>,
    parameters: &WindowParameters,
    geometry: &WindowGeometry,
    oi: &[usize],
) -> (r: (T, usize))
    requires
        input@.wf(),
        window_ready(input@.shape, parameters@, *geometry, oi@),
        window_sum_ok(input@, parameters@, oi@, size(parameters@.kernel)),
    ensures
        r.0 == window_sum(input@, parameters@, oi@, size(parameters@.kernel)),
        r.1 == window_count(input@.shape, parameters@, oi@, size(parameters@.kernel)),
{
    let ghost w = parameters@;
    let ghost inp = input@;
    let shape = input.shape();
    let data = input.data();
    let os = spatial_part(oi);
    let taps = geometry.kernel_volume;
    let mut sum = T::zero();
    let mut count: usize = 0;
    for kf in 0..taps
        invariant
            w == parameters@,
            inp == input@,
            inp.wf(),
            shape@ == inp.shape,
            data@ == inp.data,
            window_ready(inp.shape, w, *geometry, oi@),
            taps == size(w.kernel),
            window_sum_ok(inp, w, oi@, taps as nat),
            os@ == oi@.skip(2),
            sum == window_sum(inp, w, oi@, kf as nat),
            count == window_count(inp.shape, w, oi@, kf as nat),
    {
        proof {
            lemma_sum_ok_prefix(inp, w, oi@, (kf + 1) as nat, taps as nat);
            lemma_count_bound(inp.shape, w, oi@, kf as nat);
        }
        match tap_source(shape, parameters, geometry, oi, &os, kf) {
            None => {},
            Some(ii) => {
                proof {
                    lemma_flat_bound(ii@, inp.shape);
                }
                let v = data[offset_of(&ii, shape)];
                sum = sum.add(v);
                count = count + 1;
            },
        }
    }
    (sum, count)
}

/// How many taps of the window of `oi` read an element of an array of
/// `shape`.
fn window_taps(shape: &[usize], parameters: &WindowParameters, geometry: &WindowGeometry, oi: &[usize]) -> (r: usize)
    requires
        window_ready(shape@, parameters@, *geometry, oi@),
    ensures
        r == window_count(shape@, parameters@, oi@, size(parameters@.kernel)),
{
    let ghost w = parameters@;
    let os = spatial_part(oi);
    let mut count: usize = 0;
    for kf in 0..geometry.kernel_volume
        invariant
            w == parameters@,
            window_ready(shape@, w, *geometry, oi@),
            os@ == oi@.skip(2),
            count == window_count(shape@, w, oi@, kf as nat),
    {
        proof {
            lemma_count_bound(shape@, w, oi@, kf as nat);
        }
        match tap_source(shape, parameters, geometry, oi, &os, kf) {
            None => {},
            Some(_) => {
                count = count + 1;
            },
        }
    }
    count
}

/// The pooled value of output index `oi`.
fn pool_window<T: Scalar>(
    input: &Tensor<T>,
    parameters: &WindowParameters,
    geometry: &WindowGeometry,
    mode: PoolingMode,
    oi: &[usize],
) -> (r: T)
    requires
        input@.wf(),
        window_ready(input@.shape, parameters@, *geometry, oi@),
        pool_ok(input@, parameters@, mode, oi@),
    ensures
        r == pooled(input@, parameters@, mode, oi@),
{
    match mode {
        PoolingMode::Maximum => match first_maximum(input, parameters, geometry, oi) {
            Some(best) => best.0,
            None => T::zero(),
        },
        PoolingMode::Average => {
            let (sum, count) = window_total(input, parameters, geometry, oi);
            if count == 0 {
                T::zero()
            } else {
                sum.div(T::from_usize(count))
            }
        },
    }
}

/// What pooling `input` into `before` returns (`r`) and leaves in the
/// output (`after`).
pub open spec fn pool_forward_outcome<T: Scalar>(
    input: TensorView<T>,
    w: WindowShape,
    mode: PoolingMode,
    before: TensorView<T>,
    after: TensorView<T>,
    r: Result<(), LetoError>,
) -> bool {
    let fault = geometry_fault(input.shape, w);
    let expected = pooled_shape(input.shape, w);
    &&& fault matches Some(e) ==> r == Err::<(), LetoError>(e)
    &&& fault is None && before.shape != expected ==> (r matches Err(LetoError::ShapeMismatch { lhs, rhs })
        && lhs@ == before.shape && rhs@ == expected)
    &&& r is Ok <==> fault is None && before.shape == expected
    &&& r is Err ==> after == before
    &&& r is Ok ==> after.shape == before.shape && after.wf() && forall|oi: Seq<usize>|
        in_bounds(oi, after.shape) ==> #[trigger] after.at(oi) == pooled(input, w, mode, oi)
}

/// Computes a spatial pooling operation into caller-owned storage.
///
/// The input has shape `[batch, channel, spatial...]`; the output keeps the
/// batch and channel extents and has the window's output extents in place of
/// the spatial ones. Fails, leaving `output` unchanged, with the geometry
/// fault of the input shape (see [`geometry_fault`]), then with
/// `ShapeMismatch { lhs: output shape, rhs: expected }`. Otherwise every
/// output element is the pooled value of its window.
pub fn pooling_forward_into<T: Scalar>(
    input: &Tensor<T>,
    parameters: WindowParameters,
    mode: PoolingMode,
    output: &mut Tensor<T>,
) -> (r: Result<(), LetoError>)
    requires
        input@.wf(),
        old(output)@.wf(),
        parameters@.wf(),
        geometry_fault(input@.shape, parameters@) is None && old(output)@.shape == pooled_shape(
            input@.shape,
            parameters@,
        ) ==> poolable(input@, parameters@, mode),
    ensures
        pool_forward_outcome(input@, parameters@, mode, old(output)@, final(output)@, r),
{
    let ghost w = parameters@;
    let ghost inp = input@;
    let in_shape = input.shape();
    let geometry = geometry_from_shape(in_shape, &parameters)?;
    let expected = pooled_extents(in_shape, &geometry);
    if !same_shape(output.shape(), &expected) {
        return Err(LetoError::ShapeMismatch { lhs: copy_extents(output.shape()), rhs: expected });
    }
    let ghost oshape = output@.shape;
    let n_out = output.data().len();
    let n_in = input.data().len();
    assert(size(inp.shape) == n_in);
    for flat in 0..n_out
        invariant
            w == parameters@,
            inp == input@,
            inp.wf(),
            size(inp.shape) <= usize::MAX,
            w.wf(),
            geometry_fault(inp.shape, w) is None,
            geometry.describes(inp.shape, w),
            oshape == pooled_shape(inp.shape, w),
            poolable(inp, w, mode),
            output@.shape == oshape,
            output@.data.len() == n_out,
            n_out == size(oshape),
            forall|f: int| 0 <= f < flat ==> #[trigger] output@.data[f] == pooled(
                inp,
                w,
                mode,
                unflat(f as nat, oshape),
            ),
    {
        let oi = index_from_flat(flat, output.shape());
        proof {
            lemma_unflat_inverse(flat as nat, oshape);
            assert(pool_ok(inp, w, mode, oi@));
        }
        let value = pool_window(input, &parameters, &geometry, mode, &oi);
        output.set_flat(flat, value);
        proof {
            let out = output@;
            assert forall|f: int| 0 <= f < flat + 1 implies #[trigger] out.data[f] == pooled(
                inp,
                w,
                mode,
                unflat(f as nat, oshape),
            ) by {
                if f == flat {
                    assert(unflat(f as nat, oshape) == oi@);
                }
            }
        }
    }
    proof {
        let out = output@;
        assert forall|oi: Seq<usize>| in_bounds(oi, out.shape) implies #[trigger] out.at(oi) == pooled(
            inp,
            w,
            mode,
            oi,
        ) by {
            lemma_flat_bound(oi, oshape);
            lemma_unflat_of_flat(oi, oshape);
            let f = flat_of(oi, oshape);
            assert(out.data[f] == pooled(inp, w, mode, unflat(f as nat, oshape)));
        }
    }
    Ok(())
}

/// `gi` after adding `share` at every element that the first `k` taps of
/// the window of `oi` read, in tap order.
pub open spec fn share_scatter<T: Scalar>(
    shape: Seq<usize>,
    w: WindowShape,
    oi: Seq<usize>,
    share: T,
    gi: Seq<T>,
    k: nat,
) -> Seq<T>
    decreases k,
{
    if k == 0 {
        gi
    } else {
        let prev = share_scatter(shape, w, oi, share, gi, (k - 1) as nat);
        match window_source(shape, w, oi, (k - 1) as nat) {
            Some(ii) => {
                let p = flat_of(ii, shape);
                prev.update(p, prev[p].plus(share))
            },
            None => prev,
        }
    }
}

/// Every addition of `share_scatter(shape, w, oi, share, gi, k)` is
/// representable.
pub open spec fn share_scatter_ok<T: Scalar>(
    shape: Seq<usize>,
    w: WindowShape,
    oi: Seq<usize>,
    share: T,
    gi: Seq<T>,
    k: nat,
) -> bool
    decreases k,
{
    k == 0 || (share_scatter_ok(shape, w, oi, share, gi, (k - 1) as nat) && match window_source(
        shape,
        w,
        oi,
        (k - 1) as nat,
    ) {
        Some(ii) => share_scatter(shape, w, oi, share, gi, (k - 1) as nat)[flat_of(ii, shape)].can_add(share),
        None => true,
    })
}

/// `gi` after accumulating the gradient of output element `f`: for maximum
/// pooling, the gradient added at the first greatest element of its window;
/// for average pooling, the gradient divided by the number of elements the
/// window reads, added at each of them.
pub open spec fn scatter_one<T: Scalar>(
    src: TensorView<T>,
    grad: TensorView<T>,
    w: WindowShape,
    mode: PoolingMode,
    gi: Seq<T>,
    f: nat,
) -> Seq<T> {
    let oi = unflat(f, grad.shape);
    let g = grad.data[f as int];
    let taps = size(w.kernel);
    match mode {
        PoolingMode::Maximum => match window_argmax(src, w, oi, taps) {
            Some(best) => {
                let p = flat_of(best.1, src.shape);
                gi.update(p, gi[p].plus(g))
            },
            None => gi,
        },
        PoolingMode::Average => {
            let n = window_count(src.shape, w, oi, taps);
            if n == 0 {
                gi
            } else {
                share_scatter(src.shape, w, oi, g.quotient(T::from_index(n as usize)), gi, taps)
            }
        },
    }
}

/// Accumulating the gradient of output element `f` into `gi` stays
/// representable.
pub open spec fn scatter_one_ok<T: Scalar>(
    src: TensorView<T>,
    grad: TensorView<T>,
    w: WindowShape,
    mode: PoolingMode,
    gi: Seq<T>,
    f: nat,
) -> bool {
    let oi = unflat(f, grad.shape);
    let g = grad.data[f as int];
    let taps = size(w.kernel);
    match mode {
        PoolingMode::Maximum => match window_argmax(src, w, oi, taps) {
            Some(best) => gi[flat_of(best.1, src.shape)].can_add(g),
            None => true,
        },
        PoolingMode::Average => {
            let n = window_count(src.shape, w, oi, taps);
            n > 0 ==> g.can_div(T::from_index(n as usize)) && share_scatter_ok(
                src.shape,
                w,
                oi,
                g.quotient(T::from_index(n as usize)),
                gi,
                taps,
            )
        },
    }
}

/// The gradient data after accumulating the first `f` output gradients, in
/// row-major output order, into `gi`.
pub open spec fn backward_state<T: Scalar>(
    src: TensorView<T>,
    grad: TensorView<T>,
    w: WindowShape,
    mode: PoolingMode,
    gi: Seq<T>,
    f: nat,
) -> Seq<T>
    decreases f,
{
    if f == 0 {
        gi
    } else {
        scatter_one(src, grad, w, mode, backward_state(src, grad, w, mode, gi, (f - 1) as nat), (f - 1) as nat)
    }
}

/// Every accumulation of `backward_state(src, grad, w, mode, gi, f)` is
/// representable.
pub open spec fn backward_ok<T: Scalar>(
    src: TensorView<T>,
    grad: TensorView<T>,
    w: WindowShape,
    mode: PoolingMode,
    gi: Seq<T>,
    f: nat,
) -> bool
    decreases f,
{
    f == 0 || (backward_ok(src, grad, w, mode, gi, (f - 1) as nat) && scatter_one_ok(
        src,
        grad,
        w,
        mode,
        backward_state(src, grad, w, mode, gi, (f - 1) as nat),
        (f - 1) as nat,
    ))
}

proof fn lemma_backward_ok_prefix<T: Scalar>(
    src: TensorView<T>,
    grad: TensorView<T>,
    w: WindowShape,
    mode: PoolingMode,
    gi: Seq<T>,
    f: nat,
    n: nat,
)
    requires
        f <= n,
        backward_ok(src, grad, w, mode, gi, n),
    ensures
        backward_ok(src, grad, w, mode, gi, f),
    decreases n - f,
{
    if f < n {
        lemma_backward_ok_prefix(src, grad, w, mode, gi, f, (n - 1) as nat);
    }
}

proof fn lemma_scatter_ok_prefix<T: Scalar>(
    shape: Seq<usize>,
    w: WindowShape,
    oi: Seq<usize>,
    share: T,
    gi: Seq<T>,
    k: nat,
    n: nat,
)
    requires
        k <= n,
        share_scatter_ok(shape, w, oi, share, gi, n),
    ensures
        share_scatter_ok(shape, w, oi, share, gi, k),
    decreases n - k,
{
    if k < n {
        lemma_scatter_ok_prefix(shape, w, oi, share, gi, k, (n - 1) as nat);
    }
}

proof fn lemma_scatter_len<T: Scalar>(shape: Seq<usize>, w: WindowShape, oi: Seq<usize>, share: T, gi: Seq<T>, k: nat)
    requires
        w.wf(),
        shape.len() == w.rank() + 2,
        in_bounds(oi, pooled_shape(shape, w)),
        gi.len() == size(shape),
    ensures
        share_scatter(shape, w, oi, share, gi, k).len() == gi.len(),
    decreases k,
{
    if k > 0 {
        lemma_scatter_len(shape, w, oi, share, gi, (k - 1) as nat);
        if window_source(shape, w, oi, (k - 1) as nat) is Some {
            let ii = window_source(shape, w, oi, (k - 1) as nat)->Some_0;
            lemma_source_in_bounds(shape, w, oi, (k - 1) as nat);
            lemma_flat_bound(ii, shape);
        }
    }
}

/// Adds `share` at every element that a tap of the window of `oi` reads.
fn scatter_share<T: Scalar>(
    shape: &[usize],
    parameters: &WindowParameters,
    geometry: &WindowGeometry,
    oi: &[usize],
    share: T,
    grad_input: &mut Tensor<T>,
)
    requires
        window_ready(shape@, parameters@, *geometry, oi@),
        old(grad_input)@.wf(),
        old(grad_input)@.shape == shape@,
        share_scatter_ok(shape@, parameters@, oi@, share, old(grad_input)@.data, size(parameters@.kernel)),
    ensures
        final(grad_input)@.shape == shape@,
        final(grad_input)@.wf(),
        final(grad_input)@.data == share_scatter(
            shape@,
            parameters@,
            oi@,
            share,
            old(grad_input)@.data,
            size(parameters@.kernel),
        ),
{
    let ghost w = parameters@;
    let ghost gi0 = grad_input@.data;
    let os = spatial_part(oi);
    let taps = geometry.kernel_volume;
    for kf in 0..taps
        invariant
            w == parameters@,
            window_ready(shape@, w, *geometry, oi@),
            taps == size(w.kernel),
            os@ == oi@.skip(2),
            gi0.len() == size(shape@),
            share_scatter_ok(shape@, w, oi@, share, gi0, taps as nat),
            grad_input@.shape == shape@,
            grad_input@.wf(),
            grad_input@.data == share_scatter(shape@, w, oi@, share, gi0, kf as nat),
    {
        proof {
            lemma_scatter_ok_prefix(shape@, w, oi@, share, gi0, (kf + 1) as nat, taps as nat);
            lemma_scatter_len(shape@, w, oi@, share, gi0, kf as nat);
        }
        match tap_source(shape, parameters, geometry, oi, &os, kf) {
            None => {},
            Some(ii) => {
                proof {
                    lemma_flat_bound(ii@, shape@);
                }
                let p = offset_of(&ii, shape);
                let cur = grad_input.data()[p];
                grad_input.set_flat(p, cur.add(share));
            },
        }
    }
}

/// The views of an optional array.
pub open spec fn viewed<T>(input: Option<&Tensor<T>>) -> Option<TensorView<T>> {
    match input {
        Some(x) => Some(x@),
        None => None,
    }
}

/// The array whose windows a backward pass walks: the forward input when it
/// is given, else the gradient array itself.
pub open spec fn source_of<T>(input: Option<TensorView<T>>, grad_input: TensorView<T>) -> TensorView<T> {
    match input {
        Some(x) => x,
        None => grad_input,
    }
}

/// What rejects a backward pass before any shape is compared: maximum
/// pooling without the forward input, else the geometry fault of the array
/// whose windows are walked.
pub open spec fn backward_fault<T>(
    input: Option<TensorView<T>>,
    w: WindowShape,
    mode: PoolingMode,
    grad_input: TensorView<T>,
) -> Option<LetoError> {
    if input is None && mode == PoolingMode::Maximum {
        Some(LetoError::InvalidInput { reason: InputFault::MissingForwardInput })
    } else {
        geometry_fault(source_of(input, grad_input).shape, w)
    }
}

/// What accumulating the pooling gradient `grad` into `before` returns (`r`)
/// and leaves in the gradient array (`after`).
pub open spec fn pool_backward_outcome<T: Scalar>(
    grad: TensorView<T>,
    input: Option<TensorView<T>>,
    w: WindowShape,
    mode: PoolingMode,
    before: TensorView<T>,
    after: TensorView<T>,
    r: Result<(), LetoError>,
) -> bool {
    let src = source_of(input, before);
    let fault = backward_fault(input, w, mode, before);
    let expected = pooled_shape(src.shape, w);
    &&& fault matches Some(e) ==> r == Err::<(), LetoError>(e)
    &&& fault is None && grad.shape != expected ==> (r matches Err(LetoError::ShapeMismatch { lhs, rhs })
        && lhs@ == grad.shape && rhs@ == expected)
    &&& fault is None && grad.shape == expected && before.shape != src.shape ==> (r matches Err(
        LetoError::ShapeMismatch { lhs, rhs },
    ) && lhs@ == before.shape && rhs@ == src.shape)
    &&& r is Ok <==> fault is None && grad.shape == expected && before.shape == src.shape
    &&& r is Err ==> after == before
    &&& r is Ok ==> after.shape == before.shape && after.data == backward_state(
        src,
        grad,
        w,
        mode,
        before.data,
        grad.data.len(),
    )
}

/// Accumulates the gradient of a spatial pooling operation into
/// `grad_input`.
///
/// Maximum pooling adds each output gradient at the first greatest element
/// of its window and needs the forward `input`; average pooling divides each
/// output gradient by the number of elements its window reads and adds the
/// share at each of them, and takes its geometry from `grad_input` when
/// `input` is `None`. Outputs are visited in row-major order. Fails, leaving
/// `grad_input` unchanged, with `InvalidInput { reason: MissingForwardInput }`
/// for maximum pooling without `input`, then with the geometry fault of the
/// walked array, then with `ShapeMismatch` when `grad_output` does not have
/// the pooled shape (`lhs` its shape, `rhs` the expected one), then when
/// `grad_input` does not have the walked array's shape.
pub fn pooling_backward_accumulate<T: Scalar>(
    grad_output: &Tensor<T>,
    input: Option<&Tensor<T>>,
    parameters: WindowParameters,
    mode: PoolingMode,
    grad_input: &mut Tensor<T>,
) -> (r: Result<(), LetoError>)
    requires
        grad_output@.wf(),
        old(grad_input)@.wf(),
        parameters@.wf(),
        input matches Some(x) ==> x@.wf(),
        backward_fault(viewed(input), parameters@, mode, old(grad_input)@) is None && grad_output@.shape
            == pooled_shape(source_of(viewed(input), old(grad_input)@).shape, parameters@) && old(grad_input)@.shape
            == source_of(viewed(input), old(grad_input)@).shape ==> backward_ok(
            source_of(viewed(input), old(grad_input)@),
            grad_output@,
            parameters@,
            mode,
            old(grad_input)@.data,
            grad_output@.data.len(),
        ),
    ensures
        pool_backward_outcome(grad_output@, viewed(input), parameters@, mode, old(grad_input)@, final(grad_input)@, r),
{
    let ghost w = parameters@;
    let ghost gv = grad_output@;
    let ghost gi0 = grad_input@.data;
    let ghost src = source_of(viewed(input), grad_input@);
    let in_shape: Vec<usize> = match input {
        Some(x) => copy_extents(x.shape()),
        None => match mode {
            PoolingMode::Average => copy_extents(grad_input.shape()),
            PoolingMode::Maximum => {
                return Err(LetoError::InvalidInput { reason: InputFault::MissingForwardInput });
            },
        },
    };
    let geometry = geometry_from_shape(&in_shape, &parameters)?;
    let expected = pooled_extents(&in_shape, &geometry);
    if !same_shape(grad_output.shape(), &expected) {
        return Err(LetoError::ShapeMismatch { lhs: copy_extents(grad_output.shape()), rhs: expected });
    }
    if !same_shape(grad_input.shape(), &in_shape) {
        return Err(LetoError::ShapeMismatch { lhs: copy_extents(grad_input.shape()), rhs: in_shape });
    }
    let gshape = grad_output.shape();
    let gdata = grad_output.data();
    let n_out = gdata.len();
    let n_in = grad_input.data().len();
    assert(size(in_shape@) == n_in);
    for f in 0..n_out
        invariant
            w == parameters@,
            gv == grad_output@,
            gv.wf(),
            gshape@ == gv.shape,
            gdata@ == gv.data,
            n_out == gv.data.len(),
            input matches Some(x) ==> x@ == src && x@.wf(),
            mode == PoolingMode::Maximum ==> input is Some,
            in_shape@ == src.shape,
            w.wf(),
            geometry_fault(src.shape, w) is None,
            geometry.describes(src.shape, w),
            size(src.shape) <= usize::MAX,
            gv.shape == pooled_shape(src.shape, w),
            gi0.len() == size(src.shape),
            backward_ok(src, gv, w, mode, gi0, n_out as nat),
            grad_input@.shape == src.shape,
            grad_input@.wf(),
            grad_input@.data == backward_state(src, gv, w, mode, gi0, f as nat),
    {
        proof {
            lemma_backward_ok_prefix(src, gv, w, mode, gi0, (f + 1) as nat, n_out as nat);
            lemma_unflat_inverse(f as nat, gv.shape);
        }
        let oi = index_from_flat(f, gshape);
        let g = gdata[f];
        match mode {
            PoolingMode::Maximum => {
                match input {
                    Some(x) => {
                        match first_maximum(x, &parameters, &geometry, &oi) {
                            Some(best) => {
                                proof {
                                    lemma_flat_bound(best.1@, src.shape);
                                }
                                let p = offset_of(&best.1, &in_shape);
                                let cur = grad_input.data()[p];
                                grad_input.set_flat(p, cur.add(g));
                            },
                            None => {},
                        }
                    },
                    None => {},
                }
            },
            PoolingMode::Average => {
                let n = window_taps(&in_shape, &parameters, &geometry, &oi);
                if n > 0 {
                    let share = g.div(T::from_usize(n));
                    scatter_share(&in_shape, &parameters, &geometry, &oi, share, grad_input);
                }
            },
        }
    }
    Ok(())
}

} // verus!
