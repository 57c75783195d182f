//! Sparse storage, ordering and layout kernels with machine-checked contracts.
pub mod application;
pub mod domain;
pub mod infrastructure;

pub use domain::error::{InputFault, LetoError, OverflowFault, StorageFault};
pub use domain::rng::Xorshift64;
pub use domain::scalar::Scalar;
pub use infrastructure::cache::{cache_geometry, CacheGeometry};
