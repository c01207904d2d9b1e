//! The grid representations.

pub mod block;
pub mod block_grid;
pub mod naive;
