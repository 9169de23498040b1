//! A rectangular maze graph of `Node`s whose values are their row-major indices.
use vstd::prelude::*;
use crate::node::Node;
use crate::links::{linked, fresh_link, compass, LinkTable, north_of, south_of, east_of, west_of, adjacent};

verus! {

/// The node `r` has value `o`, or there is neither node nor cell.
pub open spec fn same_value(r: Option<Node>, o: Option<int>) -> bool {
    match r {
        Some(nd) => o == Some(nd.value_spec() as int),
        None => o is None,
    }
}

/// A `rows` by `cols` graph: its nodes in row order, each of value its index, and the
/// passages between them.
#[derive(Debug)]
pub struct Graph {
    nodes: Vec<Node>,
    rows: usize,
    cols: usize,
    links: LinkTable,
}

impl Graph {
    pub closed spec fn wf(&self) -> bool {
        &&& self.links.wf()
        &&& self.links.rows() == self.rows
        &&& self.links.cols() == self.cols
        &&& self.nodes@.len() == self.links.n()
        &&& forall|i: int| 0 <= i < self.nodes@.len() ==> (#[trigger] self.nodes@[i]).value_spec() == i
    }

    pub closed spec fn n(&self) -> int {
        self.links.n()
    }

    pub closed spec fn ncols(&self) -> int {
        self.cols as int
    }

    pub closed spec fn nrows(&self) -> int {
        self.rows as int
    }

    /// For each node value, the values it links to, in the order the links were made.
    pub closed spec fn adj(&self) -> Seq<Seq<usize>> {
        self.links@
    }

    /// The node at index `i`.
    pub closed spec fn node_spec(&self, i: int) -> Node {
        self.nodes@[i]
    }

    /// What well-formedness says of the dimensions.
    pub proof fn lemma_wf(&self)
        requires
            self.wf(),
        ensures
            self.n() == self.nrows() * self.ncols(),
            self.n() <= usize::MAX,
            self.nrows() >= 1,
            self.ncols() >= 1,
            forall|i: int| 0 <= i < self.n() ==> (#[trigger] self.node_spec(i)).value_spec() == i,
    {
        self.links.lemma_wf();
    }

    /// A graph of `rows` by `cols` nodes, each of weight 1, with no link.
    pub fn new(rows: usize, cols: usize) -> (g: Self)
        requires
            rows >= 1,
            cols >= 1,
            rows * cols <= usize::MAX,
        ensures
            g.wf(),
            g.nrows() == rows,
            g.ncols() == cols,
            forall|i: int| 0 <= i < g.n() ==> (#[trigger] g.adj()[i]).len() == 0 && g.node_spec(i).weight_spec() == 1,
    {
        let n = rows * cols;
        let mut nodes: Vec<Node> = Vec::with_capacity(n);
        let mut i: usize = 0;
        while i < n
            invariant
                i <= n,
                nodes@.len() == i,
                forall|k: int| 0 <= k < i ==> (#[trigger] nodes@[k]).value_spec() == k && nodes@[k].weight_spec() == 1,
            decreases n - i,
        {
            nodes.push(Node::new(i, 1));
            i = i + 1;
        }
        Graph { nodes, rows, cols, links: LinkTable::new(rows, cols) }
    }

    /// The graph's dimensions, as (rows, cols).
    pub fn dimensions(&self) -> (d: (usize, usize))
        ensures
            d.0 == self.nrows(),
            d.1 == self.ncols(),
    {
        (self.rows, self.cols)
    }

    /// The row-major index of `row`, `col` in a graph of `col_dim` columns.
    fn idx1d(row: usize, col: usize, col_dim: usize) -> (i: usize)
        requires
            row * col_dim + col <= usize::MAX,
        ensures
            i == row * col_dim + col,
    {
        assert(0 <= row * col_dim) by (nonlinear_arith);
        row * col_dim + col
    }

    /// The node at `r`, `c`.
    pub fn get(&self, r: usize, c: usize) -> (nd: &Node)
        requires
            self.wf(),
            r < self.nrows(),
            c < self.ncols(),
        ensures
            nd.value_spec() == r * self.ncols() + c,
            *nd == self.node_spec(r * self.ncols() + c),
    {
        proof {
            self.lemma_wf();
            assert(r * self.ncols() + c < self.nrows() * self.ncols()) by (nonlinear_arith)
                requires
                    r < self.nrows(),
                    c < self.ncols(),
            ;
        }
        let index = Graph::idx1d(r, c, self.cols);
        &self.nodes[index]
    }

    /// The node with value `idx`.
    pub fn node(&self, idx: usize) -> (nd: &Node)
        requires
            self.wf(),
            idx < self.n(),
        ensures
            nd.value_spec() == idx,
            *nd == self.node_spec(idx as int),
    {
        &self.nodes[idx]
    }

    /// Links `node1` to `node2`, and `node2` to `node1` as well when `bi_link` holds.
    pub fn link(&mut self, node1: &Node, node2: &Node, bi_link: bool)
        requires
            old(self).wf(),
            node1.value_spec() < old(self).n(),
            node2.value_spec() < old(self).n(),
        ensures
            final(self).wf(),
            final(self).n() == old(self).n(),
            final(self).nrows() == old(self).nrows(),
            final(self).ncols() == old(self).ncols(),
            forall|i: int| 0 <= i < old(self).n() ==> #[trigger] final(self).node_spec(i) == old(self).node_spec(i),
            ({
                let f = node1.value_spec() as int;
                let t = node2.value_spec() as int;
                let a1 = old(self).adj().update(f, old(self).adj()[f].push(t as usize));
                &&& final(self).adj() == linked(old(self).adj(), f, t, bi_link)
                &&& fresh_link(old(self).adj(), f, t, bi_link) && !bi_link ==> final(self).adj() == a1
                &&& fresh_link(old(self).adj(), f, t, bi_link) && bi_link ==> final(self).adj() == a1.update(t, a1[t].push(f as usize))
            }),
    {
        self.links.link(*node1.value(), *node2.value(), bi_link);
    }

    /// The nodes that `node` links to, in the order the links were made, or `None` where it
    /// links to none.
    pub fn links(&self, node: &Node) -> (r: Option<Vec<Node>>)
        requires
            self.wf(),
            node.value_spec() < self.n(),
        ensures
            r is None <==> self.adj()[node.value_spec() as int].len() == 0,
            r matches Some(v) ==> v@.len() == self.adj()[node.value_spec() as int].len() && forall|k: int|
                0 <= k < v@.len() ==> #[trigger] v@[k] == self.node_spec(self.adj()[node.value_spec() as int][k] as int),
            r matches Some(v) ==> forall|k: int, l: int| 0 <= k < l < v@.len() ==> (#[trigger] v@[k]).value_spec() != (#[trigger] v@[l]).value_spec(),
    {
        let ls = self.links.links_of(*node.value());
        if ls.len() == 0 {
            return None;
        }
        proof {
            self.links.lemma_wf();
        }
        let mut v: Vec<Node> = Vec::with_capacity(ls.len());
        let mut j: usize = 0;
        while j < ls.len()
            invariant
                self.wf(),
                ls@ == self.adj()[node.value_spec() as int],
                node.value_spec() < self.n(),
                j <= ls@.len(),
                v@.len() == j,
                forall|k: int| 0 <= k < j ==> #[trigger] v@[k] == self.node_spec(ls@[k] as int),
            decreases ls@.len() - j,
        {
            proof {
                self.links.lemma_wf();
            }
            v.push(self.nodes[ls[j]]);
            j = j + 1;
        }
        proof {
            self.links.lemma_wf();
            self.lemma_wf();
            assert forall|a: int, b: int| 0 <= a < b < v@.len() implies (#[trigger] v@[a]).value_spec() != (#[trigger] v@[b]).value_spec() by {
                assert(ls@[a] != ls@[b]);
            }
        }
        Some(v)
    }

    /// Whether `node1` links to `node2`.
    pub fn has_link(&self, node1: &Node, node2: &Node) -> (b: bool)
        requires
            self.wf(),
            node1.value_spec() < self.n(),
        ensures
            b == self.adj()[node1.value_spec() as int].contains(node2.value_spec()),
    {
        self.links.contains(*node1.value(), *node2.value())
    }

    /// The node north of `node`, if there is one.
    pub fn north(&self, node: &Node) -> (r: Option<Node>)
        requires
            self.wf(),
            node.value_spec() < self.n(),
        ensures
            same_value(r, north_of(self.ncols(), node.value_spec() as int)),
    {
        match self.links.north(*node.value()) {
            Some(j) => Some(self.nodes[j]),
            None => None,
        }
    }

    /// The node south of `node`, if there is one.
    pub fn south(&self, node: &Node) -> (r: Option<Node>)
        requires
            self.wf(),
            node.value_spec() < self.n(),
        ensures
            same_value(r, south_of(self.n(), self.ncols(), node.value_spec() as int)),
    {
        match self.links.south(*node.value()) {
            Some(j) => Some(self.nodes[j]),
            None => None,
        }
    }

    /// The node east of `node`, if there is one.
    pub fn east(&self, node: &Node) -> (r: Option<Node>)
        requires
            self.wf(),
            node.value_spec() < self.n(),
        ensures
            same_value(r, east_of(self.n(), self.ncols(), node.value_spec() as int)),
    {
        match self.links.east(*node.value()) {
            Some(j) => Some(self.nodes[j]),
            None => None,
        }
    }

    /// The node west of `node`, if there is one.
    pub fn west(&self, node: &Node) -> (r: Option<Node>)
        requires
            self.wf(),
            node.value_spec() < self.n(),
        ensures
            same_value(r, west_of(self.ncols(), node.value_spec() as int)),
    {
        match self.links.west(*node.value()) {
            Some(j) => Some(self.nodes[j]),
            None => None,
        }
    }

    /// The structural neighbours of `node`, in the order north, east, south, west.
    pub fn neighbors(&self, node: &Node) -> (v: Vec<Node>)
        requires
            self.wf(),
            node.value_spec() < self.n(),
        ensures
            forall|k: int| 0 <= k < v@.len() ==> adjacent(self.n(), self.ncols(), node.value_spec() as int, (#[trigger] v@[k]).value_spec() as int),
            forall|j: int| adjacent(self.n(), self.ncols(), node.value_spec() as int, j) ==> exists|k: int| 0 <= k < v@.len() && (#[trigger] v@[k]).value_spec() == j,
            v@.len() == compass(self.n(), self.ncols(), node.value_spec() as int).len(),
            forall|k: int| 0 <= k < v@.len() ==> (#[trigger] v@[k]).value_spec() == compass(self.n(), self.ncols(), node.value_spec() as int)[k],
    {
        let idx = self.links.neighbors(*node.value());
        let mut v: Vec<Node> = Vec::with_capacity(idx.len());
        let mut j: usize = 0;
        while j < idx.len()
            invariant
                self.wf(),
                j <= idx@.len(),
                v@.len() == j,
                forall|k: int| 0 <= k < idx@.len() ==> #[trigger] idx@[k] < self.n(),
                forall|k: int| 0 <= k < j ==> (#[trigger] v@[k]).value_spec() == idx@[k],
            decreases idx@.len() - j,
        {
            v.push(self.nodes[idx[j]]);
            j = j + 1;
        }
        assert forall|k: int| 0 <= k < v@.len() implies adjacent(self.n(), self.ncols(), node.value_spec() as int, (#[trigger] v@[k]).value_spec() as int) by {
            assert(idx@.contains(idx@[k]));
        }
        assert forall|j: int| adjacent(self.n(), self.ncols(), node.value_spec() as int, j) implies exists|k: int| 0 <= k < v@.len() && (#[trigger] v@[k]).value_spec() == j by {
            self.links.lemma_wf();
            crate::links::lemma_adjacent_in_range(self.n(), self.ncols(), node.value_spec() as int, j);
            assert(idx@.contains(j as usize));
            let k = choose|k: int| 0 <= k < idx@.len() && idx@[k] == j as usize;
            assert(v@[k].value_spec() == j);
        }
        v
    }

    /// The rows of the graph, each a copy of its nodes from west to east.
    pub fn iter_rows(&self) -> (rs: Vec<Vec<Node>>)
        requires
            self.wf(),
        ensures
            rs@.len() == self.nrows(),
            forall|r: int| 0 <= r < rs@.len() ==> (#[trigger] rs@[r])@.len() == self.ncols(),
            forall|r: int, c: int| 0 <= r < rs@.len() && 0 <= c < self.ncols() ==> #[trigger] rs@[r]@[c] == self.node_spec(r * self.ncols() + c),
    {
        let rows = self.rows;
        let cols = self.cols;
        proof {
            self.lemma_wf();
        }
        let mut rs: Vec<Vec<Node>> = Vec::with_capacity(rows);
        let mut r: usize = 0;
        while r < rows
            invariant
                self.wf(),
                rows == self.nrows(),
                cols == self.ncols(),
                self.n() == rows * cols,
                self.n() <= usize::MAX,
                r <= rows,
                rs@.len() == r,
                forall|k: int| 0 <= k < r ==> (#[trigger] rs@[k])@.len() == cols,
                forall|k: int, c: int| 0 <= k < r && 0 <= c < cols ==> #[trigger] rs@[k]@[c] == self.node_spec(k * cols + c),
            decreases rows - r,
        {
            let mut row: Vec<Node> = Vec::with_capacity(cols);
            let mut c: usize = 0;
            while c < cols
                invariant
                    self.wf(),
                    self.n() == rows * cols,
                    self.n() <= usize::MAX,
                    r < rows,
                    c <= cols,
                    row@.len() == c,
                    forall|j: int| 0 <= j < c ==> #[trigger] row@[j] == self.node_spec(r * cols + j),
                decreases cols - c,
            {
                assert(r * cols + c < rows * cols && 0 <= r * cols) by (nonlinear_arith)
                    requires
                        r < rows,
                        c < cols,
                ;
                row.push(self.nodes[r * cols + c]);
                c = c + 1;
            }
            rs.push(row);
            r = r + 1;
        }
        rs
    }

    /// The nodes in row order.
    pub fn iter_nodes(&self) -> (s: &[Node])
        requires
            self.wf(),
        ensures
            s@.len() == self.n(),
            forall|i: int| 0 <= i < s@.len() ==> #[trigger] s@[i] == self.node_spec(i),
    {
        self.nodes.as_slice()
    }
}

} // verus!
