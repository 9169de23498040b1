//! The four compass directions, each with its bit in a cell of a bit-field `Maze`.
use vstd::prelude::*;

verus! {

/// North, south, east or west.
#[derive(Debug, Clone, Copy, PartialEq, Eq, Structural)]
pub enum Direction {
    N,
    S,
    E,
    W,
}

impl Direction {
    /// The bit that records a wall carved in this direction: 1, 2, 4 and 8 for north, south,
    /// east and west.
    pub open spec fn bits_spec(&self) -> u8 {
        match self {
            Direction::N => 1,
            Direction::S => 2,
            Direction::E => 4,
            Direction::W => 8,
        }
    }

    /// The opposite direction.
    pub open spec fn opposite_spec(&self) -> Direction {
        match self {
            Direction::N => Direction::S,
            Direction::S => Direction::N,
            Direction::E => Direction::W,
            Direction::W => Direction::E,
        }
    }

    /// The bit that records a wall carved in this direction.
    pub fn bits(&self) -> (b: u8)
        ensures
            b == self.bits_spec(),
    {
        match self {
            Direction::N => 1,
            Direction::S => 2,
            Direction::E => 4,
            Direction::W => 8,
        }
    }

    /// The step along the x axis (east is +1).
    pub fn dx(&self) -> (d: i8)
        ensures
            d == (match self {
                Direction::E => 1i8,
                Direction::W => -1i8,
                _ => 0i8,
            }),
    {
        match self {
            Direction::E => 1,
            Direction::W => -1,
            _ => 0,
        }
    }

    /// The step along the y axis (south is +1).
    pub fn dy(&self) -> (d: i8)
        ensures
            d == (match self {
                Direction::N => -1i8,
                Direction::S => 1i8,
                _ => 0i8,
            }),
    {
        match self {
            Direction::N => -1,
            Direction::S => 1,
            _ => 0,
        }
    }

    /// The opposite direction.
    pub fn opposite(&self) -> (o: Self)
        ensures
            o == self.opposite_spec(),
    {
        match self {
            Direction::N => Direction::S,
            Direction::S => Direction::N,
            Direction::E => Direction::W,
            Direction::W => Direction::E,
        }
    }
}

} // verus!
