//! Enumeration of polyominoes up to rotation.
//!
//! Shapes are grown one square at a time, brought to a canonical rotation and
//! collected, size class by size class, in a deduplicating database. The grids
//! that hold the squares come in several interchangeable representations, all
//! of which are specified over the same mathematical model: a finite set of
//! cells with non-negative integer coordinates.

pub mod bits;
pub mod board;
pub mod cells;
pub mod database;
pub mod enumeration;
pub mod grid;
pub mod grids;
pub mod polyomino;
pub mod rotation;
pub mod shape;
