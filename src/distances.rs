//! Distances from a root cell to other cells of a maze.
use vstd::prelude::*;
use crate::grid_node::GridNode;

verus! {

/// How far cells are from a `root` cell. A cell without a recorded distance is absent.
pub struct Distances {
    root: GridNode,
    dist: Vec<Option<i32>>,
}

impl Distances {
    /// The distance recorded for the cell at index `i`, if any.
    pub closed spec fn dist_of(&self, i: int) -> Option<i32> {
        if 0 <= i < self.dist@.len() {
            self.dist@[i]
        } else {
            None
        }
    }

    /// The root the distances are measured from.
    pub closed spec fn root_spec(&self) -> GridNode {
        self.root
    }

    /// Distances that record only `root`, at distance 0.
    pub fn new(root: GridNode) -> (d: Self)
        requires
            root.pos_spec() < usize::MAX,
        ensures
            d.root_spec() == root,
            d.dist_of(root.pos_spec() as int) == Some(0i32),
            forall|i: int| i != root.pos_spec() ==> d.dist_of(i) is None,
    {
        let p = root.pos();
        let mut dist: Vec<Option<i32>> = Vec::new();
        while dist.len() < p
            invariant
                dist@.len() <= p,
                forall|i: int| 0 <= i < dist@.len() ==> dist@[i] is None,
            decreases p - dist@.len(),
        {
            dist.push(None);
        }
        dist.push(Some(0));
        Distances { root, dist }
    }

    /// Distances over the cell indices `0..dist.len()`.
    pub(crate) fn from_vec(root: GridNode, dist: Vec<Option<i32>>) -> (d: Self)
        ensures
            d.root_spec() == root,
            forall|i: int| 0 <= i < dist@.len() ==> d.dist_of(i) == dist@[i],
            forall|i: int| !(0 <= i < dist@.len()) ==> d.dist_of(i) is None,
    {
        Distances { root, dist }
    }

    /// The root the distances are measured from.
    pub fn root(&self) -> (r: GridNode)
        ensures
            r == self.root_spec(),
    {
        self.root
    }

    /// The distance recorded for `node`, or `None` where none is.
    pub fn get(&self, node: &GridNode) -> (r: Option<&i32>)
        ensures
            r matches Some(d) ==> self.dist_of(node.pos_spec() as int) == Some(*d),
            r is None ==> self.dist_of(node.pos_spec() as int) is None,
    {
        let p = node.pos();
        if p < self.dist.len() {
            match &self.dist[p] {
                Some(d) => Some(d),
                None => None,
            }
        } else {
            None
        }
    }

    /// Records `distance` for `node`, replacing what was recorded for it.
    pub fn insert(&mut self, node: GridNode, distance: i32)
        requires
            node.pos_spec() < usize::MAX,
        ensures
            final(self).root_spec() == old(self).root_spec(),
            final(self).dist_of(node.pos_spec() as int) == Some(distance),
            forall|i: int| i != node.pos_spec() ==> final(self).dist_of(i) == old(self).dist_of(i),
    {
        let p = node.pos();
        let ghost before = self.dist@;
        while self.dist.len() <= p
            invariant
                self.root == old(self).root,
                before == old(self).dist@,
                before.len() <= self.dist@.len(),
                forall|i: int| 0 <= i < before.len() ==> self.dist@[i] == before[i],
                forall|i: int| before.len() <= i < self.dist@.len() ==> self.dist@[i] is None,
            decreases p + 1 - self.dist@.len(),
        {
            self.dist.push(None);
        }
        self.dist.set(p, Some(distance));
    }
}

} // verus!
