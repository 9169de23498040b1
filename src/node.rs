//! The nodes of a `Graph`: a value and a weight.
use vstd::prelude::*;

verus! {

/// A node of a graph: its value (for a maze graph, its row-major index) and its weight. Two
/// nodes are equal when their values are equal, whatever their weights.
#[derive(Debug, Clone, Copy)]
pub struct Node {
    value: usize,
    weight: isize,
}

impl Node {
    pub closed spec fn value_spec(&self) -> usize {
        self.value
    }

    pub closed spec fn weight_spec(&self) -> isize {
        self.weight
    }

    /// A node with the given value and weight.
    pub fn new(value: usize, weight: isize) -> (n: Self)
        ensures
            n.value_spec() == value,
            n.weight_spec() == weight,
    {
        Node { value, weight }
    }

    /// The node's value.
    pub fn value(&self) -> (v: &usize)
        ensures
            *v == self.value_spec(),
    {
        &self.value
    }

    /// The node's weight.
    pub fn weight(&self) -> (w: isize)
        ensures
            w == self.weight_spec(),
    {
        self.weight
    }

    /// Gives the node the value `new_value`.
    pub fn set_value(&mut self, new_value: usize)
        ensures
            final(self).value_spec() == new_value,
            final(self).weight_spec() == old(self).weight_spec(),
    {
        self.value = new_value;
    }

    /// Gives the node the weight `new_weight`.
    pub fn set_weight(&mut self, new_weight: isize)
        ensures
            final(self).value_spec() == old(self).value_spec(),
            final(self).weight_spec() == new_weight,
    {
        self.weight = new_weight;
    }
}

impl PartialEq for Node {
    fn eq(&self, other: &Self) -> (r: bool) {
        self.value == other.value
    }
}

impl vstd::std_specs::cmp::PartialEqSpecImpl for Node {
    open spec fn obeys_eq_spec() -> bool {
        true
    }

    open spec fn eq_spec(&self, other: &Node) -> bool {
        self.value_spec() == other.value_spec()
    }
}

impl Eq for Node {
}

impl std::hash::Hash for Node {
    fn hash<H: std::hash::Hasher>(&self, state: &mut H) {
        self.value.hash(state);
    }
}

} // verus!
