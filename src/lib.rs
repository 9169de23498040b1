//! Rectangular mazes: a grid of cells with a table of carved passages, a family of
//! passage-carving generators, a braider that turns dead ends into loops, and a weighted
//! shortest-distance solver.
use vstd::prelude::*;

pub mod position;
pub mod counting;
pub mod links;
pub mod braid;
pub mod paths;
pub mod perfect;
pub mod distances;
pub mod error;
pub mod grid_maze;
pub mod solver;
pub mod generator;
pub mod grid_node;
pub mod grid_cell;
pub mod grid;
pub mod node;
pub mod weighted;
pub mod graph;
pub mod bitfield;
mod random;
