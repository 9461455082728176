//! Building blocks shared by the solvers.

pub mod base2d;
pub mod grid;
pub mod read;
pub mod utils;
