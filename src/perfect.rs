//! Perfect mazes: the links form a spanning tree of the grid. The generators grow such a
//! tree one passage at a time, each passage joining a visited cell to an unvisited one.
use vstd::prelude::*;
use vstd::arithmetic::div_mod::{lemma_fundamental_div_mod, lemma_fundamental_div_mod_converse};
use crate::position::lemma_pos_of;
use crate::counting::{count_where, lemma_count_plus_one, lemma_count_bound};
use crate::links::{north_of, south_of, east_of, west_of, adjacent, links_adjacent, symmetric, simple, links_grow, lemma_adjacent_symmetric, lemma_adjacent_in_range};
use crate::paths::{reachable, connected, lemma_reach_self, lemma_reach_step, lemma_reach_grow, lemma_connected_from};

verus! {

/// The number of directed links recorded.
pub open spec fn link_total(adj: Seq<Seq<usize>>) -> nat
    decreases adj.len(),
{
    if adj.len() == 0 {
        0
    } else {
        link_total(adj.drop_last()) + adj.last().len()
    }
}

/// The links form a perfect maze of a grid with `cols` columns: they join structural
/// neighbours, come in matching pairs, are recorded once each, connect every cell to every
/// other, and number exactly `2 * (cells - 1)`, that is `cells - 1` passages.
pub open spec fn perfect(adj: Seq<Seq<usize>>, cols: int) -> bool {
    &&& links_adjacent(adj, cols)
    &&& symmetric(adj)
    &&& simple(adj)
    &&& connected(adj)
    &&& link_total(adj) == 2 * (adj.len() - 1)
}

/// Cell `c` has been visited by a generator growing a tree from `root`.
pub open spec fn visited(adj: Seq<Seq<usize>>, root: int, c: int) -> bool {
    c == root || adj[c].len() > 0
}

/// The visited cells, as a predicate.
pub open spec fn visited_pred(adj: Seq<Seq<usize>>, root: int) -> spec_fn(int) -> bool {
    |c: int| visited(adj, root, c)
}

/// The number of visited cells.
pub open spec fn visited_count(adj: Seq<Seq<usize>>, root: int) -> nat {
    count_where(adj.len() as int, |c: int| visited(adj, root, c))
}

/// The links form a tree over the visited cells, grown from `root`.
pub open spec fn growing(adj: Seq<Seq<usize>>, cols: int, root: int) -> bool {
    &&& 0 <= root < adj.len()
    &&& adj.len() <= usize::MAX
    &&& cols > 0
    &&& links_adjacent(adj, cols)
    &&& symmetric(adj)
    &&& simple(adj)
    &&& forall|c: int| 0 <= c < adj.len() && #[trigger] visited(adj, root, c) ==> reachable(adj, root, c)
    &&& link_total(adj) + 2 == 2 * visited_count(adj, root)
}

/// Changing one list changes the total by the difference of lengths.
pub proof fn lemma_link_total_update(adj: Seq<Seq<usize>>, i: int, s: Seq<usize>)
    requires
        0 <= i < adj.len(),
    ensures
        link_total(adj.update(i, s)) + adj[i].len() == link_total(adj) + s.len(),
    decreases adj.len(),
{
    let a2 = adj.update(i, s);
    if i == adj.len() - 1 {
        assert(a2.drop_last() =~= adj.drop_last());
    } else {
        lemma_link_total_update(adj.drop_last(), i, s);
        assert(a2.drop_last() =~= adj.drop_last().update(i, s));
    }
}

/// A grid with no links is a tree holding only its root.
pub proof fn lemma_growing_start(adj: Seq<Seq<usize>>, cols: int, root: int)
    requires
        0 <= root < adj.len(),
        adj.len() <= usize::MAX,
        cols > 0,
        forall|i: int| 0 <= i < adj.len() ==> (#[trigger] adj[i]).len() == 0,
    ensures
        growing(adj, cols, root),
        forall|c: int| 0 <= c < adj.len() ==> (#[trigger] visited(adj, root, c) <==> c == root),
{
    lemma_link_total_zero(adj);
    lemma_reach_self(adj, root);
    let f = |c: int| visited(adj, root, c);
    let g = |c: int| false;
    lemma_count_plus_one(adj.len() as int, g, f, root);
    lemma_count_zero(adj.len() as int);
}

/// Nothing is counted by the predicate that never holds.
pub proof fn lemma_count_zero(n: int)
    ensures
        count_where(n, |c: int| false) == 0,
    decreases n,
{
    if n > 0 {
        lemma_count_zero(n - 1);
    }
}

/// A table with no links records none.
pub proof fn lemma_link_total_zero(adj: Seq<Seq<usize>>)
    requires
        forall|i: int| 0 <= i < adj.len() ==> (#[trigger] adj[i]).len() == 0,
    ensures
        link_total(adj) == 0,
    decreases adj.len(),
{
    if adj.len() > 0 {
        lemma_link_total_zero(adj.drop_last());
    }
}

/// Joining a visited cell `v` to an unvisited neighbour `u` by a pair of links grows the tree
/// by one cell.
pub proof fn lemma_growing_step(adj: Seq<Seq<usize>>, adj2: Seq<Seq<usize>>, cols: int, root: int, v: int, u: int)
    requires
        growing(adj, cols, root),
        0 <= v < adj.len(),
        visited(adj, root, v),
        !visited(adj, root, u),
        adjacent(adj.len() as int, cols, v, u),
        adj2.len() == adj.len(),
        adj2[v] == adj[v].push(u as usize),
        adj2[u] == adj[u].push(v as usize),
        forall|i: int| 0 <= i < adj.len() && i != u && i != v ==> adj2[i] == adj[i],
    ensures
        growing(adj2, cols, root),
        visited_count(adj2, root) == visited_count(adj, root) + 1,
        visited(adj2, root, u),
        links_grow(adj, adj2),
        forall|c: int| 0 <= c < adj.len() && visited(adj, root, c) ==> #[trigger] visited(adj2, root, c),
        forall|c: int| 0 <= c < adj.len() && c != u ==> (#[trigger] visited(adj2, root, c) <==> visited(adj, root, c)),
{
    let n = adj.len() as int;
    lemma_adjacent_in_range(n, cols, v, u);
    lemma_adjacent_symmetric(n, cols, v, u);
    assert(adj[u].len() == 0);
    assert(!adj[v].contains(u as usize)) by {
        if adj[v].contains(u as usize) {
            let m = choose|m: int| 0 <= m < adj[v].len() && adj[v][m] == u as usize;
            assert(adj[adj[v][m] as int].contains(v as usize));
        }
    }
    // links grow
    assert forall|a: int, b: usize| 0 <= a < adj.len() && #[trigger] adj[a].contains(b) implies #[trigger] adj2[a].contains(b) by {
        let m = choose|m: int| 0 <= m < adj[a].len() && adj[a][m] == b;
        assert(adj2[a][m] == b);
    }
    // adjacency
    assert forall|a: int, j: int| 0 <= a < adj2.len() && 0 <= j < adj2[a].len() implies adjacent(
        adj2.len() as int,
        cols,
        a,
        #[trigger] adj2[a][j] as int,
    ) by {
        if a == v && j == adj[v].len() {
            assert(adj2[a][j] == u);
        } else if a == u {
            assert(adj2[a][j] == v);
        } else {
            assert(adj2[a][j] == adj[a][j]);
        }
    }
    // symmetry
    assert forall|a: int, j: int| 0 <= a < adj2.len() && 0 <= j < adj2[a].len() implies #[trigger] adj2[a][j] < adj2.len()
        && adj2[adj2[a][j] as int].contains(a as usize) by {
        if a == v && j == adj[v].len() {
            assert(adj2[u][0] == v as usize);
        } else if a == u {
            assert(adj2[a][j] == v as usize);
            assert(adj2[v][adj[v].len() as int] == u as usize);
        } else {
            assert(adj2[a][j] == adj[a][j]);
            assert(adj[adj[a][j] as int].contains(a as usize));
        }
    }
    // simplicity
    assert forall|a: int| 0 <= a < adj2.len() implies (#[trigger] adj2[a]).no_duplicates() by {
        if a == v {
            let s = adj[v];
            let x = u as usize;
            let t = s.push(x);
            assert forall|i: int, j: int| 0 <= i < j < t.len() implies #[trigger] t[i] != #[trigger] t[j] by {
                if j == s.len() {
                    assert(s[i] == t[i]);
                }
            }
        }
    }
    // visited cells and their count
    let f = |c: int| visited(adj, root, c);
    let g = |c: int| visited(adj2, root, c);
    assert forall|i: int| 0 <= i < n && i != u implies #[trigger] g(i) == f(i) by {
        if i == v {
        } else {
            assert(adj2[i] == adj[i]);
        }
    }
    lemma_count_plus_one(n, f, g, u);
    // links
    lemma_link_total_update(adj, v, adj[v].push(u as usize));
    let mid = adj.update(v, adj[v].push(u as usize));
    lemma_link_total_update(mid, u, adj[u].push(v as usize));
    assert(mid.update(u, adj[u].push(v as usize)) =~= adj2);
    // reachability
    assert forall|c: int| 0 <= c < adj2.len() && #[trigger] visited(adj2, root, c) implies reachable(adj2, root, c) by {
        if c == u {
            assert(reachable(adj, root, v));
            lemma_reach_grow(adj, adj2, root, v);
            assert(adj2[v][adj[v].len() as int] == u as usize);
            lemma_reach_step(adj2, root, v, u as usize);
        } else {
            assert(visited(adj, root, c));
            lemma_reach_grow(adj, adj2, root, c);
        }
    }
}

/// A tree that has visited every cell is a perfect maze.
pub proof fn lemma_growing_done(adj: Seq<Seq<usize>>, cols: int, root: int)
    requires
        growing(adj, cols, root),
        forall|c: int| 0 <= c < adj.len() ==> #[trigger] visited(adj, root, c),
    ensures
        perfect(adj, cols),
{
    lemma_count_bound(adj.len() as int, |c: int| visited(adj, root, c));
    assert forall|c: int| 0 <= c < adj.len() implies #[trigger] reachable(adj, root, c) by {
        assert(visited(adj, root, c));
    }
    lemma_connected_from(adj, root);
}

/// A set of cells that every structural neighbour of a member also belongs to.
pub open spec fn closed_under_adjacency(n: int, cols: int, s: spec_fn(int) -> bool) -> bool {
    forall|a: int, b: int| 0 <= a < n && s(a) && #[trigger] adjacent(n, cols, a, b) ==> s(b)
}

proof fn lemma_mod_row(q: int, j: int, cols: int)
    requires
        q >= 0,
        0 <= j < cols,
    ensures
        (q * cols + j) % cols == j,
{
    lemma_fundamental_div_mod_converse(q * cols + j, cols, q, j);
}

proof fn lemma_sweep_west(rows: int, cols: int, s: spec_fn(int) -> bool, q: int, m: int, k: int)
    requires
        cols >= 1,
        0 <= q < rows,
        0 <= k <= m < cols,
        closed_under_adjacency(rows * cols, cols, s),
        s(q * cols + m),
    ensures
        s(q * cols + m - k),
    decreases k,
{
    if k > 0 {
        lemma_sweep_west(rows, cols, s, q, m, k - 1);
        let y = q * cols + m - (k - 1);
        lemma_mod_row(q, m - (k - 1), cols);
        assert(0 <= y < rows * cols) by (nonlinear_arith)
            requires
                y == q * cols + m - (k - 1),
                0 <= q < rows,
                0 <= m - (k - 1) < cols,
        ;
        assert(west_of(cols, y) == Some(y - 1));
        assert(adjacent(rows * cols, cols, y, y - 1));
    }
}

proof fn lemma_sweep_east(rows: int, cols: int, s: spec_fn(int) -> bool, q: int, j: int)
    requires
        cols >= 1,
        0 <= q < rows,
        0 <= j < cols,
        closed_under_adjacency(rows * cols, cols, s),
        s(q * cols),
    ensures
        s(q * cols + j),
    decreases j,
{
    if j > 0 {
        lemma_sweep_east(rows, cols, s, q, j - 1);
        let y = q * cols + j - 1;
        lemma_mod_row(q, j - 1, cols);
        assert(0 <= y && y + 1 < rows * cols) by (nonlinear_arith)
            requires
                y == q * cols + j - 1,
                0 <= q < rows,
                1 <= j < cols,
        ;
        assert(east_of(rows * cols, cols, y) == Some(y + 1));
        assert(adjacent(rows * cols, cols, y, y + 1));
    }
}

proof fn lemma_sweep_north(rows: int, cols: int, s: spec_fn(int) -> bool, q: int, k: int)
    requires
        cols >= 1,
        0 <= k <= q < rows,
        closed_under_adjacency(rows * cols, cols, s),
        s(q * cols),
    ensures
        s((q - k) * cols),
    decreases k,
{
    if k > 0 {
        lemma_sweep_north(rows, cols, s, q, k - 1);
        let y = (q - (k - 1)) * cols;
        assert(y >= cols && y < rows * cols && y - cols == (q - k) * cols) by (nonlinear_arith)
            requires
                y == (q - (k - 1)) * cols,
                1 <= k <= q < rows,
                cols >= 1,
        ;
        assert(north_of(cols, y) == Some(y - cols));
        assert(adjacent(rows * cols, cols, y, y - cols));
    }
}

proof fn lemma_sweep_south(rows: int, cols: int, s: spec_fn(int) -> bool, a: int)
    requires
        cols >= 1,
        0 <= a < rows,
        closed_under_adjacency(rows * cols, cols, s),
        s(0),
    ensures
        s(a * cols),
    decreases a,
{
    if a == 0 {
        assert(a * cols == 0);
    } else {
        lemma_sweep_south(rows, cols, s, a - 1);
        let y = (a - 1) * cols;
        assert(0 <= y && y + cols < rows * cols && y + cols == a * cols) by (nonlinear_arith)
            requires
                y == (a - 1) * cols,
                1 <= a < rows,
                cols >= 1,
        ;
        assert(south_of(rows * cols, cols, y) == Some(y + cols));
        assert(adjacent(rows * cols, cols, y, y + cols));
    }
}

/// A set of cells that holds one cell and is closed under structural adjacency holds the
/// whole grid: the grid is connected by structural neighbours.
pub proof fn lemma_closed_all(rows: int, cols: int, s: spec_fn(int) -> bool, x: int)
    requires
        rows >= 1,
        cols >= 1,
        rows * cols <= usize::MAX,
        0 <= x < rows * cols,
        s(x),
        closed_under_adjacency(rows * cols, cols, s),
    ensures
        forall|i: int| 0 <= i < rows * cols ==> #[trigger] s(i),
{
    lemma_pos_of(x, rows, cols);
    let q = x / cols;
    let m = x % cols;
    lemma_fundamental_div_mod(x, cols);
    assert(cols * q == q * cols) by (nonlinear_arith);
    assert(x == q * cols + m);
    lemma_sweep_west(rows, cols, s, q, m, m);
    assert(q * cols + m - m == q * cols);
    lemma_sweep_north(rows, cols, s, q, q);
    assert((q - q) * cols == 0) by (nonlinear_arith);
    assert forall|i: int| 0 <= i < rows * cols implies #[trigger] s(i) by {
        lemma_pos_of(i, rows, cols);
        let a = i / cols;
        let b = i % cols;
        lemma_fundamental_div_mod(i, cols);
        assert(cols * a == a * cols) by (nonlinear_arith);
        lemma_sweep_south(rows, cols, s, a);
        lemma_sweep_east(rows, cols, s, a, b);
        assert(i == a * cols + b);
    }
}

} // verus!
