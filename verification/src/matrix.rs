//! The matrix type at the crate root, shared with `util::matrix`.
pub use crate::util::matrix::Matrix;
