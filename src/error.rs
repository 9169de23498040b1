//! The ways a maze operation can fail.
use vstd::prelude::*;

verus! {

/// Failures of maze construction and path reconstruction.
#[derive(Debug, Clone, Copy, PartialEq, Eq, Structural)]
pub enum MazeError {
    /// A grid needs at least one row and one column, and its cell count must fit in `usize`.
    InvalidDimensions,
    /// A cell outside the grid was named.
    OutOfBounds,
    /// No path of links leads from the start cell to the goal cell.
    Unreachable,
}

} // verus!
