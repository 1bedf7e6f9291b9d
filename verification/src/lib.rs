//! Verified index arithmetic for Poisson solvers on the unit square.

pub mod col_major;
pub mod coo;
pub mod grid;
pub mod jacobi;
pub mod layout;
pub mod sparse;
pub mod stencil;
