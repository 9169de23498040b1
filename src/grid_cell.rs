//! The cells of a `Grid`: a position, the positions of its structural neighbours, a weight.
use vstd::prelude::*;
use crate::position::Pos;

verus! {

/// A cell of a grid: its position, the positions of the cells north, south, east and west
/// of it (where there are such cells), and its weight. Two cells are equal when their
/// positions are equal.
#[derive(Debug, Clone, Copy)]
pub struct GridCell {
    pos: Pos,
    north: Option<Pos>,
    south: Option<Pos>,
    east: Option<Pos>,
    west: Option<Pos>,
    weight: i32,
}

impl GridCell {
    pub closed spec fn pos_spec(&self) -> Pos {
        self.pos
    }

    pub closed spec fn north_spec(&self) -> Option<Pos> {
        self.north
    }

    pub closed spec fn south_spec(&self) -> Option<Pos> {
        self.south
    }

    pub closed spec fn east_spec(&self) -> Option<Pos> {
        self.east
    }

    pub closed spec fn west_spec(&self) -> Option<Pos> {
        self.west
    }

    pub closed spec fn weight_spec(&self) -> i32 {
        self.weight
    }

    /// A cell at `pos` with the given neighbours and weight.
    pub fn new(
        pos: Pos,
        north: Option<Pos>,
        south: Option<Pos>,
        east: Option<Pos>,
        west: Option<Pos>,
        weight: i32,
    ) -> (g: Self)
        ensures
            g.pos_spec() == pos,
            g.north_spec() == north,
            g.south_spec() == south,
            g.east_spec() == east,
            g.west_spec() == west,
            g.weight_spec() == weight,
    {
        GridCell { pos, north, south, east, west, weight }
    }

    /// A cell at `pos` with no neighbours and weight 1.
    pub fn empty(pos: Pos) -> (g: Self)
        ensures
            g.pos_spec() == pos,
            g.north_spec() is None,
            g.south_spec() is None,
            g.east_spec() is None,
            g.west_spec() is None,
            g.weight_spec() == 1,
    {
        GridCell { pos, north: None, south: None, east: None, west: None, weight: 1 }
    }

    /// The cell's position.
    pub fn pos(&self) -> (p: Pos)
        ensures
            p == self.pos_spec(),
    {
        self.pos
    }

    /// The position of the cell to the north, if there is one.
    pub fn north(&self) -> (p: Option<Pos>)
        ensures
            p == self.north_spec(),
    {
        self.north
    }

    /// The position of the cell to the south, if there is one.
    pub fn south(&self) -> (p: Option<Pos>)
        ensures
            p == self.south_spec(),
    {
        self.south
    }

    /// The position of the cell to the east, if there is one.
    pub fn east(&self) -> (p: Option<Pos>)
        ensures
            p == self.east_spec(),
    {
        self.east
    }

    /// The position of the cell to the west, if there is one.
    pub fn west(&self) -> (p: Option<Pos>)
        ensures
            p == self.west_spec(),
    {
        self.west
    }

    /// The positions of the neighbours, in the order north, south, east, west.
    pub fn neighbors(&self) -> (v: Vec<Pos>)
        ensures
            v@ == opt_seq(self.north_spec()) + opt_seq(self.south_spec()) + opt_seq(self.east_spec())
                + opt_seq(self.west_spec()),
    {
        let mut v: Vec<Pos> = Vec::with_capacity(4);
        if let Some(p) = self.north {
            v.push(p);
        }
        assert(v@ =~= opt_seq(self.north_spec()));
        if let Some(p) = self.south {
            v.push(p);
        }
        assert(v@ =~= opt_seq(self.north_spec()) + opt_seq(self.south_spec()));
        if let Some(p) = self.east {
            v.push(p);
        }
        assert(v@ =~= opt_seq(self.north_spec()) + opt_seq(self.south_spec()) + opt_seq(self.east_spec()));
        if let Some(p) = self.west {
            v.push(p);
        }
        assert(v@ =~= opt_seq(self.north_spec()) + opt_seq(self.south_spec()) + opt_seq(self.east_spec())
            + opt_seq(self.west_spec()));
        v
    }

    /// The cell's weight.
    pub fn weight(&self) -> (w: i32)
        ensures
            w == self.weight_spec(),
    {
        self.weight
    }

    /// Gives the cell the weight `weight`.
    pub fn set_weight(&mut self, weight: i32)
        ensures
            final(self).weight_spec() == weight,
            final(self).pos_spec() == old(self).pos_spec(),
            final(self).north_spec() == old(self).north_spec(),
            final(self).south_spec() == old(self).south_spec(),
            final(self).east_spec() == old(self).east_spec(),
            final(self).west_spec() == old(self).west_spec(),
    {
        self.weight = weight;
    }
}

/// The position that `o` holds, as a sequence of zero or one positions.
pub open spec fn opt_seq(o: Option<Pos>) -> Seq<Pos> {
    match o {
        Some(p) => seq![p],
        None => Seq::empty(),
    }
}

impl PartialEq for GridCell {
    fn eq(&self, other: &Self) -> (r: bool) {
        self.pos == other.pos
    }
}

impl vstd::std_specs::cmp::PartialEqSpecImpl for GridCell {
    open spec fn obeys_eq_spec() -> bool {
        true
    }

    open spec fn eq_spec(&self, other: &GridCell) -> bool {
        self.pos_spec() == other.pos_spec()
    }
}

impl Eq for GridCell {
}

impl std::hash::Hash for GridCell {
    fn hash<H: std::hash::Hasher>(&self, state: &mut H) {
        self.pos.r.hash(state);
        self.pos.c.hash(state);
    }
}

} // verus!
