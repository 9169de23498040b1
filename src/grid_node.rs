//! The cells of a `GridMaze`.
use vstd::prelude::*;

verus! {

/// A cell of a maze: its row-major index (`pos`) and its traversal cost (`weight`).
/// Two nodes are equal when their positions are equal, whatever their weights.
#[derive(Debug, Clone, Copy)]
pub struct GridNode {
    pos: usize,
    weight: isize,
}

impl GridNode {
    pub closed spec fn pos_spec(&self) -> usize {
        self.pos
    }

    pub closed spec fn weight_spec(&self) -> isize {
        self.weight
    }

    /// A node at `pos` with the given `weight`.
    pub fn new(pos: usize, weight: isize) -> (n: Self)
        ensures
            n.pos_spec() == pos,
            n.weight_spec() == weight,
    {
        GridNode { pos, weight }
    }

    /// The node's row-major index.
    pub fn pos(&self) -> (p: usize)
        ensures
            p == self.pos_spec(),
    {
        self.pos
    }

    /// The node's weight.
    pub fn weight(&self) -> (w: isize)
        ensures
            w == self.weight_spec(),
    {
        self.weight
    }

    /// Moves the node to `new_pos`.
    pub fn set_pos(&mut self, new_pos: usize)
        ensures
            final(self).pos_spec() == new_pos,
            final(self).weight_spec() == old(self).weight_spec(),
    {
        self.pos = new_pos;
    }

    /// Gives the node the weight `new_weight`.
    pub fn set_weight(&mut self, new_weight: isize)
        ensures
            final(self).pos_spec() == old(self).pos_spec(),
            final(self).weight_spec() == new_weight,
    {
        self.weight = new_weight;
    }
}

impl PartialEq for GridNode {
    fn eq(&self, other: &Self) -> (r: bool) {
        self.pos == other.pos
    }
}

impl vstd::std_specs::cmp::PartialEqSpecImpl for GridNode {
    open spec fn obeys_eq_spec() -> bool {
        true
    }

    open spec fn eq_spec(&self, other: &GridNode) -> bool {
        self.pos_spec() == other.pos_spec()
    }
}

impl Eq for GridNode {
}

/// Relies on std's `Hash` for `usize`, which feeds the integer to the hasher; nothing is
/// claimed of the state it leaves.
pub assume_specification<H: std::hash::Hasher>[ <usize as std::hash::Hash>::hash::<H> ](
    data: &usize,
    state: &mut H,
);

impl std::hash::Hash for GridNode {
    fn hash<H: std::hash::Hasher>(&self, state: &mut H) {
        self.pos.hash(state);
    }
}

} // verus!
