//! Fixed-length arrays, row-major matrices, and direct-solver building blocks.
pub mod array;
pub mod matrix;
pub mod methods;
