//! Execution-strategy markers.
use vstd::prelude::*;

verus! {

/// Marker trait for operation execution strategies.
pub trait ExecutionStrategy: Send + Sync + 'static {
}

/// Zero-sized type marker routing operations through scalar execution loops.
pub struct ScalarStrategy;

impl ExecutionStrategy for ScalarStrategy {
}

/// Zero-sized type marker routing operations through vectorized execution
/// paths.
pub struct SimdStrategy;

impl ExecutionStrategy for SimdStrategy {
}

/// Zero-sized type marker routing operations through multi-threaded
/// schedules.
pub struct ParallelStrategy;

impl ExecutionStrategy for ParallelStrategy {
}

} // verus!
