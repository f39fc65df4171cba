//! Grid field of typed cells and a randomized depth-first maze carver.
pub mod carving;
pub mod coord;
pub mod field;
pub mod maze;
