//! Scalar, error, generator and execution-strategy contracts.
pub mod error;
pub mod fallback;
pub mod layout;
pub mod rng;
pub mod scalar;
pub mod strategy;
