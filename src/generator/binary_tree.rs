//! Binary tree: each cell in row order is linked to its south or its east neighbour, picked
//! at random among those that exist.
use vstd::prelude::*;
use crate::grid_maze::{GridMaze, unit_weights};
use crate::grid_node::GridNode;
use crate::links::{adjacent, links_adjacent, symmetric, simple, south_of, east_of, lemma_adjacent_symmetric};
use crate::perfect::{perfect, link_total, lemma_link_total_update};
use crate::paths::{reachable, lemma_reach_self, lemma_reach_step, lemma_reach_trans, lemma_reach_symmetric, lemma_connected_from};
use crate::random::pick;

verus! {

/// The shape of the links after the cells below `i` have been processed: a link from `x` to
/// a later cell exists only for a processed `x`, and a link from `x` to an earlier cell leads
/// to a processed one.
pub open spec fn ordered_below(adj: Seq<Seq<usize>>, i: int) -> bool {
    forall|x: int, j: int|
        0 <= x < adj.len() && 0 <= j < adj[x].len() ==> ((#[trigger] adj[x][j] as int > x ==> x < i) && (adj[x][j] < x ==> adj[x][j] < i))
}

/// Cell `x` links to a later cell.
pub open spec fn links_later(adj: Seq<Seq<usize>>, x: int) -> bool {
    exists|y: int| x < y < adj.len() && #[trigger] adj[x].contains(y as usize)
}

/// Every processed cell but the last links to a later cell; together with the links joining
/// only structural neighbours, that later cell is the one to the south or to the east.
pub open spec fn has_later(adj: Seq<Seq<usize>>, i: int) -> bool {
    forall|x: int| 0 <= x < i && x < adj.len() - 1 ==> #[trigger] links_later(adj, x)
}

/// Cell `x` links to its neighbour to the south or to the east.
pub open spec fn links_south_or_east(adj: Seq<Seq<usize>>, cols: int, x: int) -> bool {
    exists|y: int| #[trigger] adj[x].contains(y as usize) && (south_of(adj.len() as int, cols, x) == Some(y)
        || east_of(adj.len() as int, cols, x) == Some(y))
}

/// Every cell but the last has a south or an east neighbour.
proof fn lemma_later_neighbor(rows: int, cols: int, i: int)
    requires
        rows >= 1,
        cols >= 1,
        0 <= i < rows * cols - 1,
    ensures
        south_of(rows * cols, cols, i) is Some || east_of(rows * cols, cols, i) is Some,
{
    let n = rows * cols;
    if i + cols >= n && i % cols == cols - 1 {
        vstd::arithmetic::div_mod::lemma_fundamental_div_mod(i, cols);
        let q = i / cols;
        assert(false) by (nonlinear_arith)
            requires
                i == cols * q + (cols - 1),
                i + cols >= n,
                n == rows * cols,
                i < n - 1,
                cols >= 1,
        {
            assert(cols * q + 2 * cols - 1 >= rows * cols);
            assert(cols * q < rows * cols - cols);
            assert(cols * (q + 1) < cols * rows);
            if q + 1 >= rows {
                assert(cols * (q + 1) >= cols * rows);
            }
            assert(q + 2 <= rows);
            assert(cols * (q + 2) <= cols * rows);
        }
    }
}

/// Every cell reaches the last cell, when every other cell links to a later one.
proof fn lemma_reach_last(adj: Seq<Seq<usize>>, x: int)
    requires
        adj.len() >= 1,
        adj.len() <= usize::MAX,
        0 <= x < adj.len(),
        has_later(adj, adj.len() as int),
    ensures
        reachable(adj, x, adj.len() - 1),
    decreases adj.len() - x,
{
    if x == adj.len() - 1 {
        lemma_reach_self(adj, x);
    } else {
        assert(links_later(adj, x));
        let y = choose|y: int| x < y < adj.len() && #[trigger] adj[x].contains(y as usize);
        lemma_reach_last(adj, y);
        lemma_reach_self(adj, x);
        lemma_reach_step(adj, x, x, y as usize);
        lemma_reach_trans(adj, x, y, adj.len() - 1);
    }
}

/// Generates a `height` by `width` perfect maze by the binary tree algorithm.
pub fn generate(height: usize, width: usize) -> (maze: GridMaze)
    requires
        height >= 1,
        width >= 1,
        height * width <= usize::MAX,
    ensures
        maze.wf(),
        maze.rows() == height,
        maze.cols() == width,
        perfect(maze.adj(), maze.cols() as int),
        forall|x: int| 0 <= x < maze.n() - 1 ==> #[trigger] links_south_or_east(maze.adj(), maze.cols() as int, x),
        unit_weights(&maze),
{
    let mut maze = GridMaze::new(height, width);
    let len = maze.len();
    let ghost n = len as int;
    let ghost cols = width as int;
    proof {
        maze.lemma_wf();
        assert(link_total(maze.adj()) == 0) by {
            crate::perfect::lemma_link_total_zero(maze.adj());
        }
        assert(n >= 1) by (nonlinear_arith)
            requires
                n == height * width,
                height >= 1,
                width >= 1,
        ;
    }
    let mut node_index: usize = 0;
    while node_index < len
        invariant
            maze.wf(),
            unit_weights(&maze),
            maze.rows() == height,
            maze.cols() == width,
            n == maze.n(),
            len == n,
            cols == width,
            n == height * width,
            n <= usize::MAX,
            node_index <= len,
            maze.adj().len() == n,
            links_adjacent(maze.adj(), cols),
            symmetric(maze.adj()),
            simple(maze.adj()),
            ordered_below(maze.adj(), node_index as int),
            has_later(maze.adj(), node_index as int),
            link_total(maze.adj()) == 2 * (if node_index < n { node_index as int } else { n - 1 }),
        decreases len - node_index,
    {
        let curr_node = maze.node(node_index).unwrap();
        let mut neighbors: Vec<GridNode> = Vec::new();
        if let Some(south_neighbor) = maze.south(&curr_node) {
            neighbors.push(south_neighbor);
        }
        if let Some(east_neighbor) = maze.east(&curr_node) {
            neighbors.push(east_neighbor);
        }
        let ghost a0 = maze.adj();
        let ghost i = node_index as int;
        assert forall|k: int| 0 <= k < neighbors@.len() implies #[trigger] neighbors@[k].pos_spec() > i
            && adjacent(n, cols, i, neighbors@[k].pos_spec() as int) by {
        }
        match pick(&neighbors) {
            Some(nb) => {
                let ghost k = choose|k: int| 0 <= k < neighbors@.len() && neighbors@[k] == nb;
                assert(neighbors@[k] == nb);
                let ghost j = nb.pos_spec() as int;
                proof {
                    lemma_adjacent_symmetric(n, cols, i, j);
                    assert(!a0[i].contains(j as usize)) by {
                        if a0[i].contains(j as usize) {
                            let m = choose|m: int| 0 <= m < a0[i].len() && a0[i][m] == j as usize;
                            assert(a0[i][m] as int > i);
                        }
                    }
                    assert(!a0[j].contains(i as usize)) by {
                        if a0[j].contains(i as usize) {
                            let m = choose|m: int| 0 <= m < a0[j].len() && a0[j][m] == i as usize;
                            assert(a0[j][m] < j);
                        }
                    }
                }
                maze.link(&curr_node, &nb, true);
                proof {
                    let a1 = maze.adj();
                    lemma_binary_step(a0, a1, n, cols, i, j);
                }
            },
            None => {
                proof {
                    if i < n - 1 {
                        lemma_later_neighbor(height as int, width as int, i);
                        if south_of(n, cols, i) is Some {
                            assert(neighbors@.len() > 0);
                        } else {
                            assert(neighbors@.len() > 0);
                        }
                    }
                    assert(i == n - 1);
                    assert forall|x: int, jj: int|
                        0 <= x < a0.len() && 0 <= jj < a0[x].len() implies ((#[trigger] a0[x][jj] as int > x ==> x < i + 1) && (a0[x][jj] < x ==> a0[x][jj] < i + 1)) by {
                    }
                }
            },
        }
        node_index = node_index + 1;
    }
    proof {
        let adj = maze.adj();
        maze.lemma_wf();
        assert(n >= 1) by (nonlinear_arith)
            requires
                n == height * width,
                height >= 1,
                width >= 1,
        ;
        assert forall|c: int| 0 <= c < adj.len() implies #[trigger] reachable(adj, n - 1, c) by {
            lemma_reach_last(adj, c);
            lemma_reach_symmetric(adj, c, n - 1);
        }
        lemma_connected_from(adj, n - 1);
        assert forall|x: int| 0 <= x < n - 1 implies #[trigger] links_south_or_east(adj, cols, x) by {
            assert(links_later(adj, x));
            let y = choose|y: int| x < y < adj.len() && #[trigger] adj[x].contains(y as usize);
            let k = choose|k: int| 0 <= k < adj[x].len() && adj[x][k] == y as usize;
            assert(adjacent(n, cols, x, adj[x][k] as int));
        }
    }
    maze
}

/// Linking cell `i` to a later neighbour `j` keeps the shape of the links.
proof fn lemma_binary_step(a0: Seq<Seq<usize>>, a1: Seq<Seq<usize>>, n: int, cols: int, i: int, j: int)
    requires
        a0.len() == n,
        n <= usize::MAX,
        0 <= i < j < n,
        cols >= 1,
        adjacent(n, cols, i, j),
        adjacent(n, cols, j, i),
        links_adjacent(a0, cols),
        symmetric(a0),
        simple(a0),
        ordered_below(a0, i),
        has_later(a0, i),
        link_total(a0) == 2 * i,
        !a0[i].contains(j as usize),
        !a0[j].contains(i as usize),
        a1 == a0.update(i, a0[i].push(j as usize)).update(j, a0.update(i, a0[i].push(j as usize))[j].push(i as usize)),
    ensures
        links_adjacent(a1, cols),
        symmetric(a1),
        simple(a1),
        ordered_below(a1, i + 1),
        has_later(a1, i + 1),
        link_total(a1) == 2 * (i + 1),
        a1.len() == n,
{
    assert(a1[i] == a0[i].push(j as usize));
    assert(a1[j] == a0[j].push(i as usize));
    assert forall|x: int, k: int| 0 <= x < a1.len() && 0 <= k < a1[x].len() implies adjacent(a1.len() as int, cols, x, #[trigger] a1[x][k] as int) by {
        if x == i && k == a0[i].len() {
        } else if x == j && k == a0[j].len() {
        } else {
            assert(a1[x][k] == a0[x][k]);
        }
    }
    assert forall|x: int, k: int| 0 <= x < a1.len() && 0 <= k < a1[x].len() implies #[trigger] a1[x][k] < a1.len()
        && a1[a1[x][k] as int].contains(x as usize) by {
        if x == i && k == a0[i].len() {
            assert(a1[j][a0[j].len() as int] == i as usize);
        } else if x == j && k == a0[j].len() {
            assert(a1[i][a0[i].len() as int] == j as usize);
        } else {
            assert(a1[x][k] == a0[x][k]);
            let y = a0[x][k] as int;
            assert(a0[y].contains(x as usize));
            let m = choose|m: int| 0 <= m < a0[y].len() && a0[y][m] == x as usize;
            assert(a1[y][m] == x as usize);
        }
    }
    assert forall|x: int| 0 <= x < a1.len() implies (#[trigger] a1[x]).no_duplicates() by {
        if x == i || x == j {
            let s = a0[x];
            let v: usize = if x == i { j as usize } else { i as usize };
            let t = s.push(v);
            assert(a1[x] == t);
            assert forall|p: int, q: int| 0 <= p < q < t.len() implies #[trigger] t[p] != #[trigger] t[q] by {
                if q == s.len() {
                    assert(s[p] == t[p]);
                    assert(s.contains(s[p]));
                }
            }
        }
    }
    assert forall|x: int, k: int|
        0 <= x < a1.len() && 0 <= k < a1[x].len() implies ((#[trigger] a1[x][k] as int > x ==> x < i + 1) && (a1[x][k] < x ==> a1[x][k] < i + 1)) by {
        if x == i && k == a0[i].len() {
        } else if x == j && k == a0[j].len() {
        } else {
            assert(a1[x][k] == a0[x][k]);
        }
    }
    assert forall|x: int| 0 <= x < i + 1 && x < a1.len() - 1 implies #[trigger] links_later(a1, x) by {
        if x == i {
            assert(a1[i][a0[i].len() as int] == j as usize);
            assert(a1[i].contains(j as usize));
        } else {
            assert(links_later(a0, x));
            let y = choose|y: int| x < y < a0.len() && #[trigger] a0[x].contains(y as usize);
            let m = choose|m: int| 0 <= m < a0[x].len() && a0[x][m] == y as usize;
            assert(a1[x][m] == y as usize);
            assert(a1[x].contains(y as usize));
        }
    }
    lemma_link_total_update(a0, i, a0[i].push(j as usize));
    let mid = a0.update(i, a0[i].push(j as usize));
    lemma_link_total_update(mid, j, mid[j].push(i as usize));
}

} // verus!
