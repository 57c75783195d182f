//! Elementwise maps over dense arrays.
//!
//! Every element is mapped exactly once, in row-major order; the output
//! element at a position is what the map returned for the input element at
//! that position.
use vstd::prelude::*;
use crate::domain::error::LetoError;
use super::tensor::{copy_extents, same_shape, Tensor};

verus! {

/// `f` accepts every element of `input`.
pub open spec fn accepts_all<T, U, F: Fn(T) -> U>(input: Seq<T>, f: F) -> bool {
    forall|i: int| 0 <= i < input.len() ==> f.requires((#[trigger] input[i],))
}

/// `output` holds, position by position, a value that `f` returns for the
/// element of `input` at the same position.
pub open spec fn maps_through<T, U, F: Fn(T) -> U>(input: Seq<T>, output: Seq<U>, f: F) -> bool {
    &&& output.len() == input.len()
    &&& forall|i: int| 0 <= i < input.len() ==> f.ensures((input[i],), #[trigger] output[i])
}

/// [`map_into`] with the flag that, in a multi-threaded build, tells whether
/// the per-element work is heavy enough to run in parallel; this kernel runs
/// serially and does not read it.
pub(crate) fn map_into_gated<T, U, F>(input: &Tensor<T>, output: &mut Tensor<U>, f: F, compute_bound: bool) -> (r:
    Result<(), LetoError>) where
    T: Copy + Send + Sync + 'static,
    U: Copy + Send + Sync + 'static,
    F: Fn(T) -> U + Copy + Send + Sync + 'static,

    requires
        input@.wf(),
        old(output)@.wf(),
        input@.shape == old(output)@.shape ==> accepts_all(input@.data, f),
    ensures
        input@.shape != old(output)@.shape ==> (r matches Err(LetoError::ShapeMismatch { lhs, rhs }) && lhs@
            == input@.shape && rhs@ == old(output)@.shape),
        input@.shape != old(output)@.shape ==> final(output)@ == old(output)@,
        input@.shape == old(output)@.shape ==> r is Ok && final(output)@.shape == old(output)@.shape && maps_through(
            input@.data,
            final(output)@.data,
            f,
        ),
{
    if !same_shape(input.shape(), output.shape()) {
        return Err(LetoError::ShapeMismatch { lhs: copy_extents(input.shape()), rhs: copy_extents(output.shape()) });
    }
    let ghost shape = output@.shape;
    let data = input.data();
    let n = data.len();
    for i in 0..n
        invariant
            data@ == input@.data,
            n == data@.len(),
            input@.wf(),
            input@.shape == shape,
            accepts_all(input@.data, f),
            output@.shape == shape,
            output@.data.len() == n,
            forall|j: int| 0 <= j < i ==> f.ensures((data@[j],), #[trigger] output@.data[j]),
    {
        let v = f(data[i]);
        output.set_flat(i, v);
    }
    Ok(())
}

/// Maps every element of `input` into caller-owned `output`.
///
/// Fails, leaving `output` unchanged, with `ShapeMismatch { lhs: input
/// shape, rhs: output shape }` when the shapes differ. Otherwise every output
/// element is what `f` returns for the input element at its position.
pub fn map_into<T, U, F>(input: &Tensor<T>, output: &mut Tensor<U>, f: F) -> (r: Result<(), LetoError>) where
    T: Copy + Send + Sync + 'static,
    U: Copy + Send + Sync + 'static,
    F: Fn(T) -> U + Copy + Send + Sync + 'static,

    requires
        input@.wf(),
        old(output)@.wf(),
        input@.shape == old(output)@.shape ==> accepts_all(input@.data, f),
    ensures
        input@.shape != old(output)@.shape ==> (r matches Err(LetoError::ShapeMismatch { lhs, rhs }) && lhs@
            == input@.shape && rhs@ == old(output)@.shape),
        input@.shape != old(output)@.shape ==> final(output)@ == old(output)@,
        input@.shape == old(output)@.shape ==> r is Ok && final(output)@.shape == old(output)@.shape && maps_through(
            input@.data,
            final(output)@.data,
            f,
        ),
{
    map_into_gated(input, output, f, true)
}

/// A new array of `input`'s shape whose elements are what `f` returns for
/// the input elements at the same positions.
pub fn mapv<T, U, F>(input: &Tensor<T>, f: F) -> (r: Result<Tensor<U>, LetoError>) where
    T: Copy + Send + Sync + 'static,
    U: Copy + Send + Sync + 'static,
    F: Fn(T) -> U + Copy + Send + Sync + 'static,

    requires
        input@.wf(),
        accepts_all(input@.data, f),
    ensures
        r is Ok,
        r matches Ok(out) ==> out@.shape == input@.shape && out@.wf() && maps_through(input@.data, out@.data, f),
{
    let data = input.data();
    let n = data.len();
    let mut values: Vec<U> = Vec::with_capacity(n);
    for i in 0..n
        invariant
            data@ == input@.data,
            n == data@.len(),
            accepts_all(input@.data, f),
            values@.len() == i,
            forall|j: int| 0 <= j < i ==> f.ensures((data@[j],), #[trigger] values@[j]),
    {
        values.push(f(data[i]));
    }
    let shape = copy_extents(input.shape());
    Ok(Tensor::from_valid(shape, values))
}

/// The same as [`mapv`], under the name of the borrowed-value map.
pub fn map<T, U, F>(input: &Tensor<T>, f: F) -> (r: Result<Tensor<U>, LetoError>) where
    T: Copy + Send + Sync + 'static,
    U: Copy + Send + Sync + 'static,
    F: Fn(T) -> U + Copy + Send + Sync + 'static,

    requires
        input@.wf(),
        accepts_all(input@.data, f),
    ensures
        r is Ok,
        r matches Ok(out) ==> out@.shape == input@.shape && out@.wf() && maps_through(input@.data, out@.data, f),
{
    mapv(input, f)
}

/// Replaces every element of `view` by what `f` returns for it.
pub fn map_inplace<T, F>(view: &mut Tensor<T>, f: F) -> (r: Result<(), LetoError>) where
    T: Copy + Send + Sync + 'static,
    F: Fn(T) -> T + Copy + Send + Sync + 'static,

    requires
        old(view)@.wf(),
        accepts_all(old(view)@.data, f),
    ensures
        r is Ok,
        final(view)@.shape == old(view)@.shape,
        maps_through(old(view)@.data, final(view)@.data, f),
{
    let ghost before = view@.data;
    let n = view.data().len();
    for i in 0..n
        invariant
            view@.shape == old(view)@.shape,
            before == old(view)@.data,
            view@.data.len() == n,
            n == before.len(),
            accepts_all(before, f),
            forall|j: int| i <= j < n ==> #[trigger] view@.data[j] == before[j],
            forall|j: int| 0 <= j < i ==> f.ensures((before[j],), #[trigger] view@.data[j]),
    {
        let v = view.data()[i];
        view.set_flat(i, f(v));
    }
    Ok(())
}

} // verus!
