//! Hardware-facing policy and elementwise slice kernels.
pub mod cache;
pub mod simd;
