//! A rectangular maze whose cells are `GridNode`s addressed by row-major index.
use vstd::prelude::*;
use crate::grid_node::GridNode;
use crate::links::{linked, fresh_link, compass, degree_of, LinkTable, lemma_adjacent_in_range, north_of, south_of, east_of, west_of, adjacent, dead_end_count, is_dead_end, links_grow, links_adjacent, symmetric, simple, without};
use crate::braid::all_linked;
use crate::paths::connected;
use crate::error::MazeError;
use crate::random::random_below;

verus! {

/// The node `r` sits at cell `o`, or there is neither node nor cell.
pub open spec fn same_node(r: Option<GridNode>, o: Option<int>) -> bool {
    match r {
        Some(nd) => o == Some(nd.pos_spec() as int),
        None => o is None,
    }
}

/// Every cell of `m` has weight 1.
pub open spec fn unit_weights(m: &GridMaze) -> bool {
    forall|i: int| 0 <= i < m.n() ==> #[trigger] m.weight_of(i) == 1
}

/// A `rows` by `cols` maze: its nodes in row order, and the passages carved between them.
#[derive(Debug)]
pub struct GridMaze {
    nodes: Vec<GridNode>,
    links: LinkTable,
}

impl GridMaze {
    pub closed spec fn wf(&self) -> bool {
        &&& self.links.wf()
        &&& self.nodes@.len() == self.links.n()
        &&& forall|i: int| 0 <= i < self.nodes@.len() ==> (#[trigger] self.nodes@[i]).pos_spec() == i
    }

    /// The number of rows.
    pub closed spec fn rows(&self) -> nat {
        self.links.rows()
    }

    /// The number of columns.
    pub closed spec fn cols(&self) -> nat {
        self.links.cols()
    }

    /// The number of cells.
    pub closed spec fn n(&self) -> int {
        self.links.n()
    }

    /// For each cell, the cells it links to, in the order the links were made.
    pub closed spec fn adj(&self) -> Seq<Seq<usize>> {
        self.links@
    }

    /// The weight of cell `i`.
    pub closed spec fn weight_of(&self, i: int) -> isize {
        self.nodes@[i].weight_spec()
    }

    /// What well-formedness says of the dimensions.
    pub proof fn lemma_wf(&self)
        requires
            self.wf(),
        ensures
            self.rows() >= 1,
            self.cols() >= 1,
            self.n() == self.rows() * self.cols(),
            self.n() <= usize::MAX,
            self.rows() <= usize::MAX,
            self.cols() <= usize::MAX,
            self.adj().len() == self.n(),
            forall|a: int, j: int|
                0 <= a < self.n() && 0 <= j < self.adj()[a].len() ==> #[trigger] self.adj()[a][j] < self.n(),
            forall|i: int| 0 <= i < self.n() ==> (#[trigger] self.node_spec(i)).pos_spec() == i
                && self.node_spec(i).weight_spec() == self.weight_of(i),
            simple(self.adj()),
    {
        self.links.lemma_wf();
    }

    /// A maze of `rows` by `cols` cells, each of weight 1, with no passage carved.
    pub fn new(rows: usize, cols: usize) -> (m: Self)
        requires
            rows >= 1,
            cols >= 1,
            rows * cols <= usize::MAX,
        ensures
            m.wf(),
            m.rows() == rows,
            m.cols() == cols,
            m.n() == rows * cols,
            forall|i: int| 0 <= i < m.n() ==> (#[trigger] m.adj()[i]).len() == 0,
            forall|i: int| 0 <= i < m.n() ==> #[trigger] m.weight_of(i) == 1,
    {
        let links = LinkTable::new(rows, cols);
        let n = rows * cols;
        let mut nodes: Vec<GridNode> = Vec::with_capacity(n);
        let mut i: usize = 0;
        while i < n
            invariant
                i <= n,
                nodes@.len() == i,
                forall|k: int| 0 <= k < i ==> (#[trigger] nodes@[k]).pos_spec() == k && nodes@[k].weight_spec() == 1,
            decreases n - i,
        {
            nodes.push(GridNode::new(i, 1));
            i = i + 1;
        }
        GridMaze { nodes, links }
    }

    /// A maze of `rows` by `cols` cells, or `InvalidDimensions` where either is 0 or the cell
    /// count does not fit in `usize`.
    pub fn try_new(rows: usize, cols: usize) -> (r: Result<Self, MazeError>)
        ensures
            (rows >= 1 && cols >= 1 && rows * cols <= usize::MAX) <==> r is Ok,
            r matches Ok(m) ==> m.wf() && m.rows() == rows && m.cols() == cols && forall|i: int|
                0 <= i < m.n() ==> (#[trigger] m.adj()[i]).len() == 0 && m.weight_of(i) == 1,
            r matches Err(e) ==> e == MazeError::InvalidDimensions,
    {
        if rows == 0 || cols == 0 || cols > usize::MAX / rows {
            proof {
                if rows >= 1 && cols > usize::MAX / rows {
                    assert(rows * cols > usize::MAX) by (nonlinear_arith)
                        requires
                            rows >= 1,
                            cols > usize::MAX / rows,
                    ;
                }
            }
            Err(MazeError::InvalidDimensions)
        } else {
            assert(rows * cols <= usize::MAX) by (nonlinear_arith)
                requires
                    rows >= 1,
                    cols <= usize::MAX / rows,
            ;
            Ok(GridMaze::new(rows, cols))
        }
    }

    /// The maze's dimensions, as (rows, cols).
    pub fn dimensions(&self) -> (d: (usize, usize))
        requires
            self.wf(),
        ensures
            d.0 == self.rows(),
            d.1 == self.cols(),
    {
        (self.links.row_count(), self.links.col_count())
    }

    /// The number of cells, rows * cols.
    pub fn len(&self) -> (n: usize)
        requires
            self.wf(),
        ensures
            n == self.n(),
            n == self.rows() * self.cols(),
    {
        self.links.size()
    }

    /// Whether the maze has no cells; never the case for a maze built by `new`.
    pub fn is_empty(&self) -> (b: bool)
        requires
            self.wf(),
        ensures
            b == (self.n() == 0),
            !b,
    {
        proof {
            self.lemma_wf();
            assert(self.rows() * self.cols() >= 1) by (nonlinear_arith)
                requires
                    self.rows() >= 1,
                    self.cols() >= 1,
            ;
        }
        self.nodes.len() == 0
    }

    /// The row-major index of `row`, `col` in a grid of `col_dim` columns.
    pub fn idx_1d(row: usize, col: usize, col_dim: usize) -> (i: usize)
        requires
            row * col_dim + col <= usize::MAX,
        ensures
            i == row * col_dim + col,
    {
        assert(0 <= row * col_dim) by (nonlinear_arith);
        row * col_dim + col
    }

    /// The node at `row`, `col`, or `None` outside the maze.
    pub fn get2d(&self, row: usize, col: usize) -> (r: Option<GridNode>)
        requires
            self.wf(),
        ensures
            (row < self.rows() && col < self.cols()) <==> r is Some,
            r matches Some(nd) ==> nd.pos_spec() < self.n() && nd.pos_spec() == row * self.cols() + col && nd == self.node_spec(
                row * self.cols() + col,
            ),
    {
        let rows = self.links.row_count();
        let cols = self.links.col_count();
        if row < rows && col < cols {
            proof {
                self.lemma_wf();
                assert(row * cols + col < rows * cols) by (nonlinear_arith)
                    requires
                        row < rows,
                        col < cols,
            ;
            }
            let pos = GridMaze::idx_1d(row, col, cols);
            Some(self.nodes[pos])
        } else {
            None
        }
    }

    /// The node held at cell `i`.
    pub closed spec fn node_spec(&self, i: int) -> GridNode {
        self.nodes@[i]
    }

    /// The node at row-major index `idx`, or `None` outside the maze.
    pub fn node(&self, idx: usize) -> (r: Option<GridNode>)
        requires
            self.wf(),
        ensures
            (idx < self.n()) <==> r is Some,
            r matches Some(nd) ==> nd == self.node_spec(idx as int) && nd.pos_spec() == idx
                && nd.weight_spec() == self.weight_of(idx as int),
    {
        if idx < self.nodes.len() {
            Some(self.nodes[idx])
        } else {
            None
        }
    }

    /// Gives cell `idx` the weight `weight`.
    pub fn set_weight(&mut self, idx: usize, weight: isize)
        requires
            old(self).wf(),
            idx < old(self).n(),
        ensures
            final(self).wf(),
            final(self).rows() == old(self).rows(),
            final(self).cols() == old(self).cols(),
            final(self).n() == old(self).n(),
            final(self).adj() == old(self).adj(),
            final(self).weight_of(idx as int) == weight,
            forall|i: int| 0 <= i < old(self).n() && i != idx ==> final(self).weight_of(i) == old(self).weight_of(i),
    {
        let mut nd = self.nodes[idx];
        nd.set_weight(weight);
        self.nodes.set(idx, nd);
    }

    /// Carves a passage from `node1` to `node2`, and from `node2` to `node1` as well when
    /// `bi_link` holds.
    pub fn link(&mut self, node1: &GridNode, node2: &GridNode, bi_link: bool)
        requires
            old(self).wf(),
            node1.pos_spec() < old(self).n(),
            node2.pos_spec() < old(self).n(),
        ensures
            final(self).wf(),
            final(self).rows() == old(self).rows(),
            final(self).cols() == old(self).cols(),
            final(self).n() == old(self).n(),
            forall|i: int| 0 <= i < old(self).n() ==> #[trigger] final(self).weight_of(i) == old(self).weight_of(i),
            final(self).adj() == linked(old(self).adj(), node1.pos_spec() as int, node2.pos_spec() as int, bi_link),
            fresh_link(old(self).adj(), node1.pos_spec() as int, node2.pos_spec() as int, bi_link) && !bi_link
                ==> final(self).adj() == old(self).adj().update(
                node1.pos_spec() as int,
                old(self).adj()[node1.pos_spec() as int].push(node2.pos_spec()),
            ),
            fresh_link(old(self).adj(), node1.pos_spec() as int, node2.pos_spec() as int, bi_link) && bi_link
                ==> final(self).adj() == old(self).adj().update(
                node1.pos_spec() as int,
                old(self).adj()[node1.pos_spec() as int].push(node2.pos_spec()),
            ).update(
                node2.pos_spec() as int,
                old(self).adj().update(
                    node1.pos_spec() as int,
                    old(self).adj()[node1.pos_spec() as int].push(node2.pos_spec()),
                )[node2.pos_spec() as int].push(node1.pos_spec()),
            ),
    {
        self.links.link(node1.pos(), node2.pos(), bi_link);
    }

    /// Removes every passage between `node1` and `node2`, in both directions.
    pub fn unlink(&mut self, node1: &GridNode, node2: &GridNode)
        requires
            old(self).wf(),
            node1.pos_spec() < old(self).n(),
            node2.pos_spec() < old(self).n(),
        ensures
            final(self).wf(),
            final(self).rows() == old(self).rows(),
            final(self).cols() == old(self).cols(),
            final(self).n() == old(self).n(),
            forall|i: int| 0 <= i < old(self).n() ==> #[trigger] final(self).weight_of(i) == old(self).weight_of(i),
            final(self).adj() == old(self).adj().update(
                node1.pos_spec() as int,
                without(old(self).adj()[node1.pos_spec() as int], node2.pos_spec()),
            ).update(
                node2.pos_spec() as int,
                without(
                    old(self).adj().update(
                        node1.pos_spec() as int,
                        without(old(self).adj()[node1.pos_spec() as int], node2.pos_spec()),
                    )[node2.pos_spec() as int],
                    node1.pos_spec(),
                ),
            ),
    {
        self.links.remove_all(node1.pos(), node2.pos());
        self.links.remove_all(node2.pos(), node1.pos());
    }

    /// The nodes that `node` links to, in the order the links were made.
    pub fn get_links(&self, node: &GridNode) -> (v: Vec<GridNode>)
        requires
            self.wf(),
            node.pos_spec() < self.n(),
        ensures
            v@.len() == self.adj()[node.pos_spec() as int].len(),
            forall|k: int| 0 <= k < v@.len() ==> #[trigger] v@[k] == self.node_spec(
                self.adj()[node.pos_spec() as int][k] as int,
            ) && v@[k].pos_spec() == self.adj()[node.pos_spec() as int][k],
            forall|k: int, l: int| 0 <= k < l < v@.len() ==> (#[trigger] v@[k]).pos_spec() != (#[trigger] v@[l]).pos_spec(),
    {
        proof {
            self.lemma_wf();
        }
        let ls = self.links.links_of(node.pos());
        let mut v: Vec<GridNode> = Vec::with_capacity(ls.len());
        let mut j: usize = 0;
        while j < ls.len()
            invariant
                self.wf(),
                ls@ == self.adj()[node.pos_spec() as int],
                node.pos_spec() < self.n(),
                j <= ls@.len(),
                v@.len() == j,
                forall|k: int| 0 <= k < j ==> #[trigger] v@[k] == self.node_spec(ls@[k] as int) && v@[k].pos_spec() == ls@[k],
            decreases ls@.len() - j,
        {
            proof {
                self.lemma_wf();
            }
            v.push(self.nodes[ls[j]]);
            j = j + 1;
        }
        proof {
            self.lemma_wf();
            assert(self.adj()[node.pos_spec() as int].no_duplicates());
        }
        v
    }

    /// Whether there is a passage from `node1` to `node2`. Only that direction is checked.
    pub fn has_link(&self, node1: &GridNode, node2: &GridNode) -> (b: bool)
        requires
            self.wf(),
            node1.pos_spec() < self.n(),
        ensures
            b == self.adj()[node1.pos_spec() as int].contains(node2.pos_spec()),
    {
        self.links.contains(node1.pos(), node2.pos())
    }

    /// The node north of `node`, if there is one.
    pub fn north(&self, node: &GridNode) -> (r: Option<GridNode>)
        requires
            self.wf(),
            node.pos_spec() < self.n(),
        ensures
            same_node(r, north_of(self.cols() as int, node.pos_spec() as int)),
            r matches Some(nd) ==> nd == self.node_spec(nd.pos_spec() as int),
    {
        match self.links.north(node.pos()) {
            Some(j) => Some(self.nodes[j]),
            None => None,
        }
    }

    /// The node south of `node`, if there is one.
    pub fn south(&self, node: &GridNode) -> (r: Option<GridNode>)
        requires
            self.wf(),
            node.pos_spec() < self.n(),
        ensures
            same_node(r, south_of(self.n(), self.cols() as int, node.pos_spec() as int)),
            r matches Some(nd) ==> nd == self.node_spec(nd.pos_spec() as int),
    {
        match self.links.south(node.pos()) {
            Some(j) => Some(self.nodes[j]),
            None => None,
        }
    }

    /// The node east of `node`, if there is one.
    pub fn east(&self, node: &GridNode) -> (r: Option<GridNode>)
        requires
            self.wf(),
            node.pos_spec() < self.n(),
        ensures
            same_node(r, east_of(self.n(), self.cols() as int, node.pos_spec() as int)),
            r matches Some(nd) ==> nd == self.node_spec(nd.pos_spec() as int),
    {
        match self.links.east(node.pos()) {
            Some(j) => Some(self.nodes[j]),
            None => None,
        }
    }

    /// The node west of `node`, if there is one.
    pub fn west(&self, node: &GridNode) -> (r: Option<GridNode>)
        requires
            self.wf(),
            node.pos_spec() < self.n(),
        ensures
            same_node(r, west_of(self.cols() as int, node.pos_spec() as int)),
            r matches Some(nd) ==> nd == self.node_spec(nd.pos_spec() as int),
    {
        match self.links.west(node.pos()) {
            Some(j) => Some(self.nodes[j]),
            None => None,
        }
    }

    /// The structural neighbours of `node`, linked or not, in the order north, east, south,
    /// west.
    pub fn neighbors(&self, node: &GridNode) -> (v: Vec<GridNode>)
        requires
            self.wf(),
            node.pos_spec() < self.n(),
        ensures
            forall|k: int| 0 <= k < v@.len() ==> adjacent(self.n(), self.cols() as int, node.pos_spec() as int, (#[trigger] v@[k]).pos_spec() as int)
                && v@[k] == self.node_spec(v@[k].pos_spec() as int),
            forall|j: int| adjacent(self.n(), self.cols() as int, node.pos_spec() as int, j) ==> exists|k: int| 0 <= k < v@.len() && (#[trigger] v@[k]).pos_spec() == j,
            forall|i: int, j: int| 0 <= i < j < v@.len() ==> (#[trigger] v@[i]).pos_spec() != (#[trigger] v@[j]).pos_spec(),
            v@.len() == degree_of(self.n(), self.cols() as int, node.pos_spec() as int),
            v@.len() == compass(self.n(), self.cols() as int, node.pos_spec() as int).len(),
            forall|k: int| 0 <= k < v@.len() ==> (#[trigger] v@[k]).pos_spec() == compass(self.n(), self.cols() as int, node.pos_spec() as int)[k],
    {
        let idx = self.links.neighbors(node.pos());
        let mut v: Vec<GridNode> = Vec::with_capacity(idx.len());
        let mut j: usize = 0;
        while j < idx.len()
            invariant
                self.wf(),
                j <= idx@.len(),
                v@.len() == j,
                forall|k: int| 0 <= k < idx@.len() ==> #[trigger] idx@[k] < self.n(),
                forall|k: int| 0 <= k < j ==> #[trigger] v@[k] == self.node_spec(idx@[k] as int) && v@[k].pos_spec() == idx@[k],
            decreases idx@.len() - j,
        {
            v.push(self.nodes[idx[j]]);
            j = j + 1;
        }
        assert forall|k: int| 0 <= k < v@.len() implies adjacent(self.n(), self.cols() as int, node.pos_spec() as int, (#[trigger] v@[k]).pos_spec() as int)
            && v@[k] == self.node_spec(v@[k].pos_spec() as int) by {
            assert(idx@.contains(idx@[k]));
        }
        assert forall|j: int| adjacent(self.n(), self.cols() as int, node.pos_spec() as int, j) implies exists|k: int| 0 <= k < v@.len() && (#[trigger] v@[k]).pos_spec() == j by {
            self.lemma_wf();
            lemma_adjacent_in_range(self.n(), self.cols() as int, node.pos_spec() as int, j);
            assert(adjacent(self.n(), self.cols() as int, node.pos_spec() as int, (j as usize) as int));
            assert(idx@.contains(j as usize));
            let k = choose|k: int| 0 <= k < idx@.len() && idx@[k] == j as usize;
            assert(v@[k].pos_spec() == j);
        }
        v
    }

    /// A node of the maze picked at random.
    pub fn random_node(&self) -> (nd: GridNode)
        requires
            self.wf(),
        ensures
            nd.pos_spec() < self.n(),
            nd == self.node_spec(nd.pos_spec() as int),
    {
        proof {
            self.lemma_wf();
            assert(self.rows() * self.cols() >= 1) by (nonlinear_arith)
                requires
                    self.rows() >= 1,
                    self.cols() >= 1,
            ;
        }
        let i = random_below(self.nodes.len());
        self.nodes[i]
    }

    /// The nodes in row order.
    pub fn iter_nodes(&self) -> (s: &[GridNode])
        requires
            self.wf(),
        ensures
            s@.len() == self.n(),
            forall|i: int| 0 <= i < s@.len() ==> #[trigger] s@[i] == self.node_spec(i) && s@[i].pos_spec() == i,
    {
        self.nodes.as_slice()
    }

    /// The rows of the maze, each a copy of its nodes from west to east.
    pub fn iter_rows(&self) -> (rs: Vec<Vec<GridNode>>)
        requires
            self.wf(),
        ensures
            rs@.len() == self.rows(),
            forall|r: int| 0 <= r < rs@.len() ==> (#[trigger] rs@[r])@.len() == self.cols(),
            forall|r: int, c: int| 0 <= r < rs@.len() && 0 <= c < self.cols() ==> #[trigger] rs@[r]@[c] == self.node_spec(r * self.cols() + c),
    {
        let rows = self.links.row_count();
        let cols = self.links.col_count();
        proof {
            self.lemma_wf();
        }
        let mut rs: Vec<Vec<GridNode>> = Vec::with_capacity(rows);
        let mut r: usize = 0;
        while r < rows
            invariant
                self.wf(),
                rows == self.rows(),
                cols == self.cols(),
                self.n() == rows * cols,
                self.n() <= usize::MAX,
                r <= rows,
                rs@.len() == r,
                forall|k: int| 0 <= k < r ==> (#[trigger] rs@[k])@.len() == cols,
                forall|k: int, c: int| 0 <= k < r && 0 <= c < cols ==> #[trigger] rs@[k]@[c] == self.node_spec(k * cols + c),
            decreases rows - r,
        {
            let mut row: Vec<GridNode> = Vec::with_capacity(cols);
            let mut c: usize = 0;
            while c < cols
                invariant
                    self.wf(),
                    self.n() == rows * cols,
                    self.n() <= usize::MAX,
                    r < rows,
                    c <= cols,
                    row@.len() == c,
                    forall|j: int| 0 <= j < c ==> #[trigger] row@[j] == self.node_spec(r * cols + j),
                decreases cols - c,
            {
                assert(r * cols + c < rows * cols && 0 <= r * cols) by (nonlinear_arith)
                    requires
                        r < rows,
                        c < cols,
                ;
                row.push(self.nodes[r * cols + c]);
                c = c + 1;
            }
            rs.push(row);
            r = r + 1;
        }
        rs
    }

    /// The dead ends (cells with exactly one link), in row order.
    pub fn dead_ends(&self) -> (v: Vec<GridNode>)
        requires
            self.wf(),
        ensures
            v@.len() == dead_end_count(self.adj()),
            forall|k: int| 0 <= k < v@.len() ==> (#[trigger] v@[k]).pos_spec() < self.n()
                && is_dead_end(self.adj(), v@[k].pos_spec() as int) && v@[k] == self.node_spec(v@[k].pos_spec() as int),
            forall|k: int, l: int| 0 <= k < l < v@.len() ==> v@[k].pos_spec() < v@[l].pos_spec(),
            forall|i: int| 0 <= i < self.n() && is_dead_end(self.adj(), i) ==> exists|k: int| 0 <= k < v@.len() && (#[trigger] v@[k]).pos_spec() == i,
    {
        let idx = self.links.dead_ends();
        let mut v: Vec<GridNode> = Vec::with_capacity(idx.len());
        let mut j: usize = 0;
        while j < idx.len()
            invariant
                self.wf(),
                j <= idx@.len(),
                v@.len() == j,
                forall|k: int| 0 <= k < idx@.len() ==> #[trigger] idx@[k] < self.n(),
                forall|k: int| 0 <= k < j ==> #[trigger] v@[k] == self.node_spec(idx@[k] as int) && v@[k].pos_spec() == idx@[k],
            decreases idx@.len() - j,
        {
            v.push(self.nodes[idx[j]]);
            j = j + 1;
        }
        assert forall|i: int| 0 <= i < self.n() && is_dead_end(self.adj(), i) implies exists|k: int| 0 <= k < v@.len() && (#[trigger] v@[k]).pos_spec() == i by {
            self.lemma_wf();
            assert(idx@.contains(i as usize));
            let k = choose|k: int| 0 <= k < idx@.len() && idx@[k] == i as usize;
            assert(v@[k].pos_spec() == i);
        }
        v
    }

    /// Braids the maze: visits the dead ends in random order and, with probability
    /// `numerator / denominator`, links each one that is still a dead end to a neighbour it
    /// is not linked to, preferring a neighbour that is itself a dead end.
    pub fn braid(&mut self, numerator: u32, denominator: u32)
        requires
            old(self).wf(),
            0 < denominator,
            numerator <= denominator,
        ensures
            final(self).wf(),
            final(self).rows() == old(self).rows(),
            final(self).cols() == old(self).cols(),
            final(self).n() == old(self).n(),
            forall|i: int| 0 <= i < old(self).n() ==> #[trigger] final(self).weight_of(i) == old(self).weight_of(i),
            links_grow(old(self).adj(), final(self).adj()),
            connected(old(self).adj()) ==> connected(final(self).adj()),
            links_adjacent(old(self).adj(), old(self).cols() as int) ==> links_adjacent(
                final(self).adj(),
                final(self).cols() as int,
            ),
            symmetric(old(self).adj()) ==> symmetric(final(self).adj()),
            simple(final(self).adj()),
            all_linked(old(self).adj()) ==> all_linked(final(self).adj()) && dead_end_count(
                final(self).adj(),
            ) <= dead_end_count(old(self).adj()),
            all_linked(old(self).adj()) && numerator == denominator && old(self).rows() >= 2
                && old(self).cols() >= 2 && dead_end_count(old(self).adj()) > 0 ==> dead_end_count(
                final(self).adj(),
            ) < dead_end_count(old(self).adj()),
            all_linked(old(self).adj()) && numerator == denominator && old(self).rows() >= 2
                && old(self).cols() >= 2 ==> dead_end_count(final(self).adj()) == 0,
            forall|a: int, b: usize|
                0 <= a < old(self).adj().len() && #[trigger] final(self).adj()[a].contains(b) && !old(self).adj()[a].contains(b)
                    ==> is_dead_end(old(self).adj(), a) || is_dead_end(old(self).adj(), b as int),
    {
        self.links.braid(numerator, denominator);
    }
}

} // verus!
