//! Operation entry points.
pub mod coordinate;
pub mod pooling;
pub mod reduction;
pub mod scan;
mod sealed;
pub mod sliding_window;
pub mod sparse;
pub mod stateful_update;
pub mod tensor;
pub mod unary;
pub mod vector;
pub mod window;
pub mod zip;
