//! The bit-field maze: each cell is a byte whose bits record the walls carved out of it.
pub mod direction;
pub mod maze;
pub mod binary_tree;
pub mod recursive_backtracking;
