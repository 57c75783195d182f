//! The seal that keeps the operation-marker traits closed to this crate.
use vstd::prelude::*;

verus! {

/// Implemented only by the crate's own operation markers.
pub trait Sealed {
}

} // verus!
