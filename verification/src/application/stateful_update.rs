//! Shape checks that a stateful parameter update makes before it changes
//! anything: the parameter and every state array must have the shape of the
//! gradient.
use vstd::prelude::*;
use crate::domain::error::LetoError;
use super::tensor::{copy_extents, same_shape, Tensor};

verus! {

/// Checks that `output` has `expected_shape`.
///
/// Fails with `ShapeMismatch { lhs: expected_shape, rhs: output shape }`
/// when it does not.
pub fn validate_output<T>(output: &Tensor<T>, expected_shape: &[usize]) -> (r: Result<(), LetoError>)
    ensures
        output@.shape == expected_shape@ ==> r is Ok,
        output@.shape != expected_shape@ ==> (r matches Err(LetoError::ShapeMismatch { lhs, rhs }) && lhs@
            == expected_shape@ && rhs@ == output@.shape),
{
    if !same_shape(output.shape(), expected_shape) {
        return Err(LetoError::ShapeMismatch { lhs: copy_extents(expected_shape), rhs: copy_extents(output.shape()) });
    }
    Ok(())
}

/// Checks an update with one state array: the parameter, then the state,
/// must have the shape of the gradient.
///
/// Fails with `ShapeMismatch { lhs: gradient shape, rhs: shape found }` at
/// the first of the two that differs.
pub fn validate_one<T>(parameter: &Tensor<T>, gradient: &Tensor<T>, state: &Tensor<T>) -> (r: Result<(), LetoError>)
    ensures
        parameter@.shape == gradient@.shape && state@.shape == gradient@.shape ==> r is Ok,
        parameter@.shape != gradient@.shape ==> (r matches Err(LetoError::ShapeMismatch { lhs, rhs }) && lhs@
            == gradient@.shape && rhs@ == parameter@.shape),
        parameter@.shape == gradient@.shape && state@.shape != gradient@.shape ==> (r matches Err(
            LetoError::ShapeMismatch { lhs, rhs },
        ) && lhs@ == gradient@.shape && rhs@ == state@.shape),
{
    let shape = gradient.shape();
    match validate_output(parameter, shape) {
        Ok(()) => {},
        Err(e) => {
            return Err(e);
        },
    }
    validate_output(state, shape)
}

/// Checks an update with two state arrays: the parameter, the first state
/// and the second state, in this order, must have the shape of the gradient.
///
/// Fails with `ShapeMismatch { lhs: gradient shape, rhs: shape found }` at
/// the first of the three that differs.
pub fn validate_two<T>(parameter: &Tensor<T>, gradient: &Tensor<T>, first: &Tensor<T>, second: &Tensor<T>) -> (r: Result<
    (),
    LetoError,
>)
    ensures
        parameter@.shape == gradient@.shape && first@.shape == gradient@.shape && second@.shape == gradient@.shape
            ==> r is Ok,
        parameter@.shape != gradient@.shape ==> (r matches Err(LetoError::ShapeMismatch { lhs, rhs }) && lhs@
            == gradient@.shape && rhs@ == parameter@.shape),
        parameter@.shape == gradient@.shape && first@.shape != gradient@.shape ==> (r matches Err(
            LetoError::ShapeMismatch { lhs, rhs },
        ) && lhs@ == gradient@.shape && rhs@ == first@.shape),
        parameter@.shape == gradient@.shape && first@.shape == gradient@.shape && second@.shape != gradient@.shape
            ==> (r matches Err(LetoError::ShapeMismatch { lhs, rhs }) && lhs@ == gradient@.shape && rhs@
            == second@.shape),
{
    match validate_one(parameter, gradient, first) {
        Ok(()) => {},
        Err(e) => {
            return Err(e);
        },
    }
    validate_output(second, gradient.shape())
}

} // verus!
