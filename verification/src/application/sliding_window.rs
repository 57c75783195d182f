//! Unfold and fold: spatial windows as channel-major columns and back.
//!
//! An array of shape `[N, C, spatial...]` unfolds into `[N, C*K, L]`, where
//! `K` is the number of kernel taps and `L` the number of window positions.
//! Column element `[b, c*K + kf, l]` holds what tap `kf` of the window at
//! position `l` (row-major over the output extents) reads from channel `c`
//! of batch `b`, or zero when that tap lies in the padding. Fold adds every
//! column element back at the element it was read from.
use vstd::prelude::*;
use crate::domain::error::{LetoError, OverflowFault};
use crate::domain::scalar::Scalar;
use super::tensor::{
    copy_extents, flat_of, in_bounds, index_from_flat, lemma_flat_bound, lemma_unflat_inverse, lemma_unflat_of_flat,
    offset_of, same_shape, size, unflat, Tensor, TensorView,
};
use super::window::{
    geometry_fault, geometry_from_shape, joined, lemma_source_in_bounds, pooled_shape, tap_source, tensor_index,
    window_source,
    WindowGeometry, WindowParameters, WindowShape,
};

verus! {

/// The shape `[N, C*K, L]` of the columns of an array of `shape`.
pub open spec fn unfold_shape(shape: Seq<usize>, w: WindowShape) -> Seq<usize> {
    seq![shape[0], (shape[1] * size(w.kernel)) as usize, size(w.output_spatial(shape.skip(2))) as usize]
}

/// The element of an array of `shape` that column index `ui = [b, c*K + kf,
/// l]` is read from, or `None` when that tap lies in the padding.
pub open spec fn column_source(shape: Seq<usize>, w: WindowShape, ui: Seq<usize>) -> Option<Seq<usize>> {
    let k = size(w.kernel);
    let ck = ui[1] as nat;
    let oi = joined(ui[0], (ck / k) as usize, unflat(ui[2] as nat, w.output_spatial(shape.skip(2))));
    window_source(shape, w, oi, ck % k)
}

/// The column element of `input` at column index `ui`.
pub open spec fn unfolded<T: Scalar>(input: TensorView<T>, w: WindowShape, ui: Seq<usize>) -> T {
    match column_source(input.shape, w, ui) {
        Some(ii) => input.at(ii),
        None => T::zero_value(),
    }
}

/// What rejects columns for an array of `shape`: its geometry fault, then a
/// column count `C*K` past `usize::MAX`.
pub open spec fn column_fault(shape: Seq<usize>, w: WindowShape) -> Option<LetoError> {
    if geometry_fault(shape, w) is Some {
        geometry_fault(shape, w)
    } else if shape[1] * size(w.kernel) > usize::MAX {
        Some(LetoError::Overflow { reason: OverflowFault::ChannelKernel })
    } else {
        None
    }
}

/// The window position and tap of an in-bounds column index read an element
/// inside the array, when they read one.
pub proof fn lemma_column_source_in_bounds(shape: Seq<usize>, w: WindowShape, ui: Seq<usize>)
    requires
        w.wf(),
        geometry_fault(shape, w) is None,
        shape[1] * size(w.kernel) <= usize::MAX,
        in_bounds(ui, unfold_shape(shape, w)),
        column_source(shape, w, ui) is Some,
    ensures
        in_bounds(column_source(shape, w, ui)->Some_0, shape),
{
    let k = size(w.kernel);
    assert(k > 0) by {
        assert forall|a: int| 0 <= a < w.kernel.len() implies #[trigger] w.kernel[a] > 0 by {}
        crate::application::tensor::lemma_size_positive(w.kernel);
    }
    let ck = ui[1] as int;
    let cs = shape[1] as int;
    let ki = k as int;
    assert(ck < cs * ki);
    assert(ck / ki < cs) by (nonlinear_arith)
        requires
            ck < cs * ki,
            ki > 0,
            ck >= 0,
    ;
    let osp = w.output_spatial(shape.skip(2));
    lemma_unflat_inverse(ui[2] as nat, osp);
    let os = unflat(ui[2] as nat, osp);
    let oi = joined(ui[0], (ck / ki) as usize, os);
    let ps = pooled_shape(shape, w);
    assert(in_bounds(oi, ps)) by {
        assert forall|d: int| 0 <= d < ps.len() implies #[trigger] oi[d] < ps[d] by {
            if d >= 2 {
                assert(os[d - 2] < osp[d - 2]);
            }
        }
    }
    lemma_source_in_bounds(shape, w, oi, (ck % ki) as nat);
}

/// What unfolding `input` into `before` returns (`r`) and leaves in the
/// output (`after`).
pub open spec fn unfold_outcome<T: Scalar>(
    input: TensorView<T>,
    w: WindowShape,
    before: TensorView<T>,
    after: TensorView<T>,
    r: Result<(), LetoError>,
) -> bool {
    let fault = column_fault(input.shape, w);
    let expected = unfold_shape(input.shape, w);
    &&& fault matches Some(e) ==> r == Err::<(), LetoError>(e)
    &&& fault is None && before.shape != expected ==> (r matches Err(LetoError::ShapeMismatch { lhs, rhs })
        && lhs@ == before.shape && rhs@ == expected)
    &&& r is Ok <==> fault is None && before.shape == expected
    &&& r is Err ==> after == before
    &&& r is Ok ==> after.shape == before.shape && after.wf() && forall|ui: Seq<usize>|
        in_bounds(ui, after.shape) ==> #[trigger] after.at(ui) == unfolded(input, w, ui)
}

/// The shape `[N, C*K, L]` of the columns under a geometry that describes
/// an array of `shape`.
fn column_extents(shape: &[usize], geometry: &WindowGeometry, channels: usize) -> (r: Vec<usize>)
    requires
        shape@.len() >= 2,
    ensures
        r@ == seq![shape@[0], channels, geometry.output_locations],
{
    let mut r: Vec<usize> = Vec::new();
    r.push(shape[0]);
    r.push(channels);
    r.push(geometry.output_locations);
    r
}

/// The window position and tap of column index `ui` of the columns of an
/// array of `shape`: the element it reads, if any.
fn column_tap(shape: &[usize], parameters: &WindowParameters, geometry: &WindowGeometry, ui: &[usize]) -> (r: Option<
    Vec<usize>,
>)
    requires
        parameters@.wf(),
        geometry_fault(shape@, parameters@) is None,
        geometry.describes(shape@, parameters@),
        shape@[1] * size(parameters@.kernel) <= usize::MAX,
        in_bounds(ui@, unfold_shape(shape@, parameters@)),
    ensures
        r matches Some(ii) ==> column_source(shape@, parameters@, ui@) == Some(ii@) && in_bounds(ii@, shape@),
        r is None ==> column_source(shape@, parameters@, ui@) is None,
{
    let ghost w = parameters@;
    let taps = geometry.kernel_volume;
    let batch = ui[0];
    let ck = ui[1];
    let location = ui[2];
    proof {
        assert(taps > 0) by {
            assert forall|a: int| 0 <= a < w.kernel.len() implies #[trigger] w.kernel[a] > 0 by {}
            crate::application::tensor::lemma_size_positive(w.kernel);
        }
    }
    let channel = ck / taps;
    let kf = ck % taps;
    proof {
        let k = taps as int;
        let cs = shape@[1] as int;
        let q = ck as int;
        assert(q / k < cs) by (nonlinear_arith)
            requires
                q < cs * k,
                k > 0,
                q >= 0,
        ;
        lemma_unflat_inverse(location as nat, geometry.output_spatial@);
    }
    let os = index_from_flat(location, &geometry.output_spatial);
    let oi = tensor_index(batch, channel, &os);
    proof {
        assert(oi@.skip(2) =~= os@);
        let ps = pooled_shape(shape@, w);
        assert(in_bounds(oi@, ps)) by {
            assert forall|d: int| 0 <= d < ps.len() implies #[trigger] oi@[d] < ps[d] by {
                if d >= 2 {
                    assert(os@[d - 2] < geometry.output_spatial@[d - 2]);
                }
            }
        }
    }
    tap_source(shape, parameters, geometry, &oi, &os, kf)
}

/// Extracts spatial windows into channel-major columns.
///
/// An input of shape `[N, C, spatial...]` becomes `[N, C*K, L]` (see the
/// module documentation); taps in the padding are written as zero. Fails,
/// leaving `output` unchanged, with the geometry fault of the input shape,
/// then with `Overflow { reason: ChannelKernel }` when `C*K` exceeds
/// `usize::MAX`, then with `ShapeMismatch { lhs: output shape, rhs:
/// expected }`.
pub fn unfold_into<T: Scalar>(input: &Tensor<T>, parameters: WindowParameters, output: &mut Tensor<T>) -> (r: Result<
    (),
    LetoError,
>)
    requires
        input@.wf(),
        old(output)@.wf(),
        parameters@.wf(),
    ensures
        unfold_outcome(input@, parameters@, old(output)@, final(output)@, r),
{
    let ghost w = parameters@;
    let ghost inp = input@;
    let in_shape = input.shape();
    let data = input.data();
    let geometry = geometry_from_shape(in_shape, &parameters)?;
    let channels = match in_shape[1].checked_mul(geometry.kernel_volume) {
        Some(v) => v,
        None => {
            return Err(LetoError::Overflow { reason: OverflowFault::ChannelKernel });
        },
    };
    let expected = column_extents(in_shape, &geometry, channels);
    if !same_shape(output.shape(), &expected) {
        return Err(LetoError::ShapeMismatch { lhs: copy_extents(output.shape()), rhs: expected });
    }
    let ghost oshape = output@.shape;
    let n_out = output.data().len();
    let n_in = data.len();
    assert(size(inp.shape) == n_in);
    for flat in 0..n_out
        invariant
            w == parameters@,
            inp == input@,
            inp.wf(),
            in_shape@ == inp.shape,
            data@ == inp.data,
            size(inp.shape) <= usize::MAX,
            w.wf(),
            geometry_fault(inp.shape, w) is None,
            geometry.describes(inp.shape, w),
            inp.shape[1] * size(w.kernel) <= usize::MAX,
            oshape == unfold_shape(inp.shape, w),
            output@.shape == oshape,
            output@.data.len() == n_out,
            n_out == size(oshape),
            forall|f: int| 0 <= f < flat ==> #[trigger] output@.data[f] == unfolded(inp, w, unflat(f as nat, oshape)),
    {
        let ui = index_from_flat(flat, output.shape());
        proof {
            lemma_unflat_inverse(flat as nat, oshape);
        }
        let value = match column_tap(in_shape, &parameters, &geometry, &ui) {
            Some(ii) => {
                proof {
                    lemma_flat_bound(ii@, inp.shape);
                }
                data[offset_of(&ii, in_shape)]
            },
            None => T::zero(),
        };
        output.set_flat(flat, value);
        proof {
            let out = output@;
            assert forall|f: int| 0 <= f < flat + 1 implies #[trigger] out.data[f] == unfolded(
                inp,
                w,
                unflat(f as nat, oshape),
            ) by {
                if f == flat {
                    assert(unflat(f as nat, oshape) == ui@);
                }
            }
        }
    }
    proof {
        let out = output@;
        assert forall|ui: Seq<usize>| in_bounds(ui, out.shape) implies #[trigger] out.at(ui) == unfolded(inp, w, ui) by {
            lemma_flat_bound(ui, oshape);
            lemma_unflat_of_flat(ui, oshape);
            let f = flat_of(ui, oshape);
            assert(out.data[f] == unfolded(inp, w, unflat(f as nat, oshape)));
        }
    }
    Ok(())
}

/// The elements of an array of `shape` after zeroing it and adding the first
/// `f` column elements of `input`, in row-major column order, at the
/// elements they are read from.
pub open spec fn fold_state<T: Scalar>(input: TensorView<T>, shape: Seq<usize>, w: WindowShape, f: nat) -> Seq<T>
    decreases f,
{
    if f == 0 {
        Seq::new(size(shape), |p: int| T::zero_value())
    } else {
        let prev = fold_state(input, shape, w, (f - 1) as nat);
        match column_source(shape, w, unflat((f - 1) as nat, input.shape)) {
            Some(ti) => {
                let p = flat_of(ti, shape);
                prev.update(p, prev[p].plus(input.data[f - 1]))
            },
            None => prev,
        }
    }
}

/// Every addition of `fold_state(input, shape, w, f)` is representable.
pub open spec fn fold_ok<T: Scalar>(input: TensorView<T>, shape: Seq<usize>, w: WindowShape, f: nat) -> bool
    decreases f,
{
    f == 0 || (fold_ok(input, shape, w, (f - 1) as nat) && match column_source(
        shape,
        w,
        unflat((f - 1) as nat, input.shape),
    ) {
        Some(ti) => fold_state(input, shape, w, (f - 1) as nat)[flat_of(ti, shape)].can_add(input.data[f - 1]),
        None => true,
    })
}

/// Folding columns of shape `input` into an array of `shape` whose spatial
/// extents are given as `spatial` is accepted: `shape` has no geometry
/// fault, its spatial extents are `spatial`, the column count `C*K` fits in
/// `usize`, and the columns have shape `[N, C*K, L]`.
pub open spec fn fold_accepts(input: Seq<usize>, spatial: Seq<usize>, shape: Seq<usize>, w: WindowShape) -> bool {
    &&& geometry_fault(shape, w) is None
    &&& shape.skip(2) == spatial
    &&& shape[1] * size(w.kernel) <= usize::MAX
    &&& input == unfold_shape(shape, w)
}

/// What folding `input` into `before` with spatial extents `spatial`
/// returns (`r`) and leaves in the output (`after`).
pub open spec fn fold_outcome<T: Scalar>(
    input: TensorView<T>,
    spatial: Seq<usize>,
    w: WindowShape,
    before: TensorView<T>,
    after: TensorView<T>,
    r: Result<(), LetoError>,
) -> bool {
    let gf = geometry_fault(before.shape, w);
    let expected = unfold_shape(before.shape, w);
    &&& gf matches Some(e) ==> r == Err::<(), LetoError>(e)
    &&& gf is None && before.shape.skip(2) != spatial ==> (r matches Err(LetoError::ShapeMismatch { lhs, rhs })
        && lhs@ == spatial && rhs@ == before.shape.skip(2))
    &&& gf is None && before.shape.skip(2) == spatial && before.shape[1] * size(w.kernel) > usize::MAX ==> r
        == Err::<(), LetoError>(LetoError::Overflow { reason: OverflowFault::ChannelKernel })
    &&& gf is None && before.shape.skip(2) == spatial && before.shape[1] * size(w.kernel) <= usize::MAX
        && input.shape != expected ==> (r matches Err(LetoError::ShapeMismatch { lhs, rhs }) && lhs@
        == input.shape && rhs@ == expected)
    &&& r is Ok <==> fold_accepts(input.shape, spatial, before.shape, w)
    &&& r is Err ==> after == before
    &&& r is Ok ==> after.shape == before.shape && after.data == fold_state(
        input,
        before.shape,
        w,
        input.data.len(),
    )
}

proof fn lemma_fold_ok_prefix<T: Scalar>(input: TensorView<T>, shape: Seq<usize>, w: WindowShape, f: nat, n: nat)
    requires
        f <= n,
        fold_ok(input, shape, w, n),
    ensures
        fold_ok(input, shape, w, f),
    decreases n - f,
{
    if f < n {
        lemma_fold_ok_prefix(input, shape, w, f, (n - 1) as nat);
    }
}

/// Accumulates channel-major columns into a spatial output.
///
/// The output is zeroed first; then every column element, in row-major
/// order, is added at the element it was read from (see the module
/// documentation), so overlapping windows accumulate. Fails, leaving
/// `output` unchanged, with the geometry fault of the output shape, then
/// with `ShapeMismatch { lhs: output_spatial_shape, rhs: output spatial
/// extents }`, then with `Overflow { reason: ChannelKernel }`, then with
/// `ShapeMismatch { lhs: input shape, rhs: [N, C*K, L] }`.
pub fn fold_into<T: Scalar>(
    input: &Tensor<T>,
    output_spatial_shape: &[usize],
    parameters: WindowParameters,
    output: &mut Tensor<T>,
) -> (r: Result<(), LetoError>)
    requires
        input@.wf(),
        old(output)@.wf(),
        parameters@.wf(),
        fold_accepts(input@.shape, output_spatial_shape@, old(output)@.shape, parameters@) ==> fold_ok(
            input@,
            old(output)@.shape,
            parameters@,
            input@.data.len(),
        ),
    ensures
        fold_outcome(input@, output_spatial_shape@, parameters@, old(output)@, final(output)@, r),
{
    let ghost w = parameters@;
    let ghost inp = input@;
    let out_shape = copy_extents(output.shape());
    let geometry = geometry_from_shape(&out_shape, &parameters)?;
    if !same_shape(&geometry.input_spatial, output_spatial_shape) {
        return Err(
            LetoError::ShapeMismatch {
                lhs: copy_extents(output_spatial_shape),
                rhs: copy_extents(&geometry.input_spatial),
            },
        );
    }
    let channels = match out_shape[1].checked_mul(geometry.kernel_volume) {
        Some(v) => v,
        None => {
            return Err(LetoError::Overflow { reason: OverflowFault::ChannelKernel });
        },
    };
    let expected = column_extents(&out_shape, &geometry, channels);
    if !same_shape(input.shape(), &expected) {
        return Err(LetoError::ShapeMismatch { lhs: copy_extents(input.shape()), rhs: expected });
    }
    let ghost oshape = out_shape@;
    let n_out = output.data().len();
    for p in 0..n_out
        invariant
            output@.shape == oshape,
            output@.data.len() == n_out,
            n_out == size(oshape),
            forall|q: int| 0 <= q < p ==> #[trigger] output@.data[q] == T::zero_value(),
    {
        output.set_flat(p, T::zero());
    }
    assert(output@.data =~= fold_state(inp, oshape, w, 0));
    let in_shape = input.shape();
    let data = input.data();
    let n_in = data.len();
    for f in 0..n_in
        invariant
            w == parameters@,
            inp == input@,
            inp.wf(),
            in_shape@ == inp.shape,
            data@ == inp.data,
            n_in == inp.data.len(),
            out_shape@ == oshape,
            w.wf(),
            geometry_fault(oshape, w) is None,
            geometry.describes(oshape, w),
            oshape[1] * size(w.kernel) <= usize::MAX,
            inp.shape == unfold_shape(oshape, w),
            fold_ok(inp, oshape, w, n_in as nat),
            output@.shape == oshape,
            output@.data.len() == n_out,
            n_out == size(oshape),
            output@.data == fold_state(inp, oshape, w, f as nat),
    {
        proof {
            lemma_fold_ok_prefix(inp, oshape, w, (f + 1) as nat, n_in as nat);
            lemma_unflat_inverse(f as nat, inp.shape);
        }
        let ui = index_from_flat(f, in_shape);
        match column_tap(&out_shape, &parameters, &geometry, &ui) {
            Some(ti) => {
                proof {
                    lemma_flat_bound(ti@, oshape);
                }
                let p = offset_of(&ti, &out_shape);
                let cur = output.data()[p];
                output.set_flat(p, cur.add(data[f]));
            },
            None => {},
        }
    }
    Ok(())
}

/// `v` added to zero `n` times, left to right.
pub open spec fn repeated<T: Scalar>(v: T, n: nat) -> T
    decreases n,
{
    if n == 0 {
        T::zero_value()
    } else {
        repeated(v, (n - 1) as nat).plus(v)
    }
}

/// How many of the first `f` column indices, in row-major order over the
/// column shape `cshape`, read the element at row-major position `p` of an
/// array of `shape`.
pub open spec fn cover_count(shape: Seq<usize>, w: WindowShape, cshape: Seq<usize>, p: int, f: nat) -> nat
    decreases f,
{
    if f == 0 {
        0
    } else {
        cover_count(shape, w, cshape, p, (f - 1) as nat) + match column_source(
            shape,
            w,
            unflat((f - 1) as nat, cshape),
        ) {
            Some(ti) => if flat_of(ti, shape) == p {
                1nat
            } else {
                0nat
            },
            None => 0nat,
        }
    }
}

/// Folding the columns that unfolding `x` produced gives back, at every
/// element, that element added once for each window tap that reads it: the
/// overlap count of the element.
pub proof fn lemma_fold_of_unfold<T: Scalar>(x: TensorView<T>, columns: TensorView<T>, w: WindowShape, f: nat)
    requires
        x.wf(),
        columns.wf(),
        w.wf(),
        geometry_fault(x.shape, w) is None,
        x.shape[1] * size(w.kernel) <= usize::MAX,
        columns.shape == unfold_shape(x.shape, w),
        forall|ui: Seq<usize>| in_bounds(ui, columns.shape) ==> #[trigger] columns.at(ui) == unfolded(x, w, ui),
        f <= columns.data.len(),
    ensures
        fold_state(columns, x.shape, w, f).len() == x.data.len(),
        forall|p: int|
            0 <= p < x.data.len() ==> #[trigger] fold_state(columns, x.shape, w, f)[p] == repeated(
                x.data[p],
                cover_count(x.shape, w, columns.shape, p, f),
            ),
    decreases f,
{
    if f > 0 {
        lemma_fold_of_unfold(x, columns, w, (f - 1) as nat);
        let prev = fold_state(columns, x.shape, w, (f - 1) as nat);
        let ui = unflat((f - 1) as nat, columns.shape);
        lemma_unflat_inverse((f - 1) as nat, columns.shape);
        match column_source(x.shape, w, ui) {
            Some(ti) => {
                lemma_column_source_in_bounds(x.shape, w, ui);
                lemma_flat_bound(ti, x.shape);
                let p0 = flat_of(ti, x.shape);
                assert(columns.at(ui) == columns.data[f - 1]);
                assert(columns.at(ui) == unfolded(x, w, ui));
                assert(columns.data[f - 1] == x.data[p0]);
                let cur = fold_state(columns, x.shape, w, f);
                assert forall|p: int| 0 <= p < x.data.len() implies #[trigger] cur[p] == repeated(
                    x.data[p],
                    cover_count(x.shape, w, columns.shape, p, f),
                ) by {
                    if p == p0 {
                        assert(cover_count(x.shape, w, columns.shape, p, f) == cover_count(
                            x.shape,
                            w,
                            columns.shape,
                            p,
                            (f - 1) as nat,
                        ) + 1);
                    } else {
                        assert(cover_count(x.shape, w, columns.shape, p, f) == cover_count(
                            x.shape,
                            w,
                            columns.shape,
                            p,
                            (f - 1) as nat,
                        ));
                    }
                }
            },
            None => {
                assert forall|p: int| 0 <= p < x.data.len() implies #[trigger] fold_state(columns, x.shape, w, f)[p]
                    == repeated(x.data[p], cover_count(x.shape, w, columns.shape, p, f)) by {
                    assert(cover_count(x.shape, w, columns.shape, p, f) == cover_count(
                        x.shape,
                        w,
                        columns.shape,
                        p,
                        (f - 1) as nat,
                    ));
                }
            },
        }
    }
}

/// `Σ a[i] · b[i]` over the positions of `a`, as mathematical integers.
pub open spec fn int_dot<T: Scalar>(a: Seq<T>, b: Seq<T>) -> int
    decreases a.len(),
{
    if a.len() == 0 {
        0
    } else {
        int_dot(a.drop_last(), b) + a.last().as_int() * b[a.len() - 1].as_int()
    }
}

/// The columns that unfolding `x` produces, in row-major order over the
/// column shape `cshape`.
pub open spec fn unfolded_columns<T: Scalar>(x: TensorView<T>, w: WindowShape, cshape: Seq<usize>) -> Seq<T> {
    Seq::new(size(cshape), |f: int| unfolded(x, w, unflat(f as nat, cshape)))
}

/// Changing one element of `g` changes the integer dot product with `a` by
/// that element's factor times the change.
proof fn lemma_int_dot_update<T: Scalar>(a: Seq<T>, g: Seq<T>, p: int, v: T)
    requires
        0 <= p < a.len(),
        a.len() <= g.len(),
    ensures
        int_dot(a, g.update(p, v)) == int_dot(a, g) + a[p].as_int() * (v.as_int() - g[p].as_int()),
    decreases a.len(),
{
    let n = a.len();
    let h = g.update(p, v);
    if p < n - 1 {
        lemma_int_dot_update(a.drop_last(), g, p, v);
        assert(h[n - 1] == g[n - 1]);
    } else {
        lemma_int_dot_unchanged(a.drop_last(), g, h);
        let (x, gv, vv) = (a.last().as_int(), g[p].as_int(), v.as_int());
        assert(x * vv == x * gv + x * (vv - gv)) by (nonlinear_arith);
    }
}

/// The integer dot product reads only the first `a.len()` elements of `b`.
proof fn lemma_int_dot_unchanged<T: Scalar>(a: Seq<T>, g: Seq<T>, h: Seq<T>)
    requires
        a.len() <= g.len(),
        a.len() <= h.len(),
        forall|i: int| 0 <= i < a.len() ==> g[i] == h[i],
    ensures
        int_dot(a, g) == int_dot(a, h),
    decreases a.len(),
{
    if a.len() > 0 {
        lemma_int_dot_unchanged(a.drop_last(), g, h);
    }
}

/// An integer dot product with a zero factor sequence is zero.
proof fn lemma_int_dot_zero<T: Scalar>(a: Seq<T>, g: Seq<T>)
    requires
        a.len() <= g.len(),
        forall|i: int| 0 <= i < a.len() ==> #[trigger] g[i] == T::zero_value(),
    ensures
        int_dot(a, g) == 0,
    decreases a.len(),
{
    if a.len() > 0 {
        lemma_int_dot_zero(a.drop_last(), g);
        T::lemma_zero_int();
        assert(g[a.len() - 1] == T::zero_value());
    }
}

/// Fold is the adjoint of unfold: for an array `x` and columns `y` of the
/// unfolded shape, the integer dot product of the unfolded columns of `x`
/// with `y` equals the integer dot product of `x` with the fold of `y`,
/// whenever the fold stays representable.
pub proof fn lemma_fold_is_adjoint_of_unfold<T: Scalar>(x: TensorView<T>, y: TensorView<T>, w: WindowShape)
    requires
        x.wf(),
        y.wf(),
        w.wf(),
        geometry_fault(x.shape, w) is None,
        x.shape[1] * size(w.kernel) <= usize::MAX,
        y.shape == unfold_shape(x.shape, w),
        fold_ok(y, x.shape, w, y.data.len()),
    ensures
        int_dot(unfolded_columns(x, w, y.shape), y.data) == int_dot(
            x.data,
            fold_state(y, x.shape, w, y.data.len()),
        ),
{
    lemma_adjoint_prefix(x, y, w, y.data.len());
    assert(unfolded_columns(x, w, y.shape).take(y.data.len() as int) =~= unfolded_columns(x, w, y.shape));
}

/// The adjoint identity over the first `m` column elements, with the fold
/// state after them keeping one element per input element.
proof fn lemma_adjoint_prefix<T: Scalar>(x: TensorView<T>, y: TensorView<T>, w: WindowShape, m: nat)
    requires
        x.wf(),
        y.wf(),
        w.wf(),
        geometry_fault(x.shape, w) is None,
        x.shape[1] * size(w.kernel) <= usize::MAX,
        y.shape == unfold_shape(x.shape, w),
        fold_ok(y, x.shape, w, y.data.len()),
        m <= y.data.len(),
    ensures
        fold_state(y, x.shape, w, m).len() == x.data.len(),
        int_dot(unfolded_columns(x, w, y.shape).take(m as int), y.data) == int_dot(
            x.data,
            fold_state(y, x.shape, w, m),
        ),
    decreases m,
{
    let cols = unfolded_columns(x, w, y.shape);
    if m == 0 {
        assert(cols.take(0) =~= Seq::<T>::empty());
        let z = fold_state(y, x.shape, w, 0);
        assert forall|i: int| 0 <= i < x.data.len() implies #[trigger] z[i] == T::zero_value() by {}
        lemma_int_dot_zero(x.data, z);
    } else {
        let k = (m - 1) as nat;
        lemma_adjoint_prefix(x, y, w, k);
        lemma_fold_ok_prefix(y, x.shape, w, m, y.data.len());
        let prev = fold_state(y, x.shape, w, k);
        let ui = unflat(k, y.shape);
        lemma_unflat_inverse(k, y.shape);
        assert(cols.take(m as int).drop_last() =~= cols.take(k as int));
        assert(cols[k as int] == unfolded(x, w, ui));
        assert(y.at(ui) == y.data[k as int]);
        match column_source(x.shape, w, ui) {
            Some(ti) => {
                lemma_column_source_in_bounds(x.shape, w, ui);
                lemma_flat_bound(ti, x.shape);
                let p = flat_of(ti, x.shape);
                assert(prev[p].can_add(y.data[k as int]));
                T::lemma_plus_exact(prev[p], y.data[k as int]);
                lemma_int_dot_update(x.data, prev, p, prev[p].plus(y.data[k as int]));
                assert(cols[k as int] == x.data[p]);
            },
            None => {
                T::lemma_zero_int();
                assert(cols[k as int] == T::zero_value());
                assert(cols[k as int].as_int() * y.data[k as int].as_int() == 0) by (nonlinear_arith)
                    requires
                        cols[k as int].as_int() == 0,
                ;
            },
        }
    }
}

} // verus!
