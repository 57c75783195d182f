//! Elementwise slice arithmetic.
//!
//! The element types of this library have no vector kernels, so every
//! operation runs the scalar reference kernel of its slice hook.
use vstd::prelude::*;
use crate::domain::fallback::{add_slice, div_slice, mul_slice, sub_slice};
use crate::domain::scalar::Scalar;

verus! {

/// Elementwise slice addition: `out[i] = a[i] + b[i]`.
pub fn simd_add<T: Scalar>(a: &[T], b: &[T], out: &mut [T])
    requires
        a@.len() == b@.len(),
        a@.len() == old(out)@.len(),
        forall|i: int| 0 <= i < a@.len() ==> #[trigger] a@[i].can_add(b@[i]),
    ensures
        final(out)@.len() == a@.len(),
        forall|i: int| 0 <= i < a@.len() ==> #[trigger] final(out)@[i] == a@[i].plus(b@[i]),
{
    add_slice(a, b, out);
}

/// Elementwise slice subtraction: `out[i] = a[i] - b[i]`.
pub fn simd_sub<T: Scalar>(a: &[T], b: &[T], out: &mut [T])
    requires
        a@.len() == b@.len(),
        a@.len() == old(out)@.len(),
        forall|i: int| 0 <= i < a@.len() ==> #[trigger] a@[i].can_sub(b@[i]),
    ensures
        final(out)@.len() == a@.len(),
        forall|i: int| 0 <= i < a@.len() ==> #[trigger] final(out)@[i] == a@[i].minus(b@[i]),
{
    sub_slice(a, b, out);
}

/// Elementwise slice multiplication: `out[i] = a[i] * b[i]`.
pub fn simd_mul<T: Scalar>(a: &[T], b: &[T], out: &mut [T])
    requires
        a@.len() == b@.len(),
        a@.len() == old(out)@.len(),
        forall|i: int| 0 <= i < a@.len() ==> #[trigger] a@[i].can_mul(b@[i]),
    ensures
        final(out)@.len() == a@.len(),
        forall|i: int| 0 <= i < a@.len() ==> #[trigger] final(out)@[i] == a@[i].times(b@[i]),
{
    mul_slice(a, b, out);
}

/// Elementwise slice division: `out[i] = a[i] / b[i]`.
pub fn simd_div<T: Scalar>(a: &[T], b: &[T], out: &mut [T])
    requires
        a@.len() == b@.len(),
        a@.len() == old(out)@.len(),
        forall|i: int| 0 <= i < a@.len() ==> #[trigger] a@[i].can_div(b@[i]),
    ensures
        final(out)@.len() == a@.len(),
        forall|i: int| 0 <= i < a@.len() ==> #[trigger] final(out)@[i] == a@[i].quotient(b@[i]),
{
    div_slice(a, b, out);
}

} // verus!
