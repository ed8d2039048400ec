//! Dense linear algebra over a caller-chosen element type: fixed-length
//! arrays, row-major matrices, and a direct solver (Gaussian elimination
//! with partial pivoting), with their shape, indexing and algorithmic
//! behaviour stated in contracts; and small combinatorial functions.
pub mod linalg;
pub mod statistics;

pub use linalg::array::Array;
pub use linalg::matrix::Matrix;
