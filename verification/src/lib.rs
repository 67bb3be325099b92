//! A dense numerical matrix core: a flat-buffer matrix with two
//! interchangeable memory layouts (row-major and column-major),
//! element-wise arithmetic, matrix multiplication, complete-pivoting LU
//! factorization, determinant, and recursive block inversion.
//!
//! Every scalar is an IEEE-754 binary64 value carried as its `u64` bit
//! pattern, so that the index and bookkeeping logic around the arithmetic
//! is fully verified; the four rounding operations themselves are done by
//! the `rustc_apfloat` soft-float library behind trusted wrappers.

pub mod block;
pub mod fp;
pub mod linalg;
pub mod matrix;
pub mod options;
pub mod util;

pub use fp::nearly_eq;
pub use matrix::Matrix;
pub use matrix::Shape;
pub use matrix::matrix;
pub use block::combine;
pub use linalg::PQLU;
pub use linalg::Perms;
pub use linalg::inv_l;
pub use linalg::inv_u;
pub use matrix::diag;
pub use util::tab;
pub use util::quot_rem;
pub use util::choose_shorter_string;
pub use util::choose_shorter_vec;
pub use util::choose_longer_vec;
