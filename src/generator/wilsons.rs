//! Wilson's algorithm: loop-erased random walks from unvisited cells until they meet the
//! visited part of the maze, each walk then carved into it.
use vstd::prelude::*;
use crate::grid::Grid;
use crate::position::{Pos, in_grid, index_of, pos_of, lemma_index_of, lemma_pos_of};
use crate::links::{adjacent, lemma_adjacent_symmetric, lemma_adjacent_in_range};
use crate::counting::lemma_count_bound;
use crate::perfect::{visited_pred, perfect, growing, visited, visited_count, lemma_growing_start, lemma_growing_step, lemma_growing_done, closed_under_adjacency, lemma_closed_all};
use crate::generator::aldous_broder::{WALK_BUDGET, lemma_has_neighbor};
use crate::random::pick;

verus! {

/// Whether `p` has been visited: it is the first cell, or it has a link.
fn is_visited(grid: &Grid, p: &Pos, first: &Pos) -> (b: bool)
    requires
        grid.wf(),
        in_grid(*p, grid.nrows(), grid.ncols()),
        in_grid(*first, grid.nrows(), grid.ncols()),
    ensures
        b == visited(grid.adj(), index_of(*first, grid.ncols()), index_of(*p, grid.ncols())),
{
    proof {
        lemma_index_of(*p, grid.nrows(), grid.ncols());
        lemma_index_of(*first, grid.nrows(), grid.ncols());
    }
    *p == *first || grid.links(p).len() > 0
}

/// The positions of the cells not visited yet, in row order.
fn unvisited_cells(grid: &Grid, first: &Pos) -> (v: Vec<Pos>)
    requires
        grid.wf(),
        in_grid(*first, grid.nrows(), grid.ncols()),
    ensures
        forall|k: int| 0 <= k < v@.len() ==> in_grid(#[trigger] v@[k], grid.nrows(), grid.ncols())
            && !visited(grid.adj(), index_of(*first, grid.ncols()), index_of(v@[k], grid.ncols())),
        forall|i: int| 0 <= i < grid.n() && !visited(grid.adj(), index_of(*first, grid.ncols()), i) ==> v@.len() > 0,
{
    proof {
        grid.lemma_wf();
    }
    let n = grid.size();
    let cells = grid.iter_cells();
    let mut v: Vec<Pos> = Vec::new();
    let mut i: usize = 0;
    while i < n
        invariant
            grid.wf(),
            n == grid.n(),
            n <= usize::MAX,
            cells@.len() == n,
            forall|j: int| 0 <= j < n ==> #[trigger] cells@[j] == grid.cell_spec(j),
            in_grid(*first, grid.nrows(), grid.ncols()),
            i <= n,
            forall|k: int| 0 <= k < v@.len() ==> in_grid(#[trigger] v@[k], grid.nrows(), grid.ncols())
                && !visited(grid.adj(), index_of(*first, grid.ncols()), index_of(v@[k], grid.ncols())),
            forall|j: int| 0 <= j < i && !visited(grid.adj(), index_of(*first, grid.ncols()), j) ==> v@.len() > 0,
        decreases n - i,
    {
        proof {
            grid.lemma_wf();
            lemma_pos_of(i as int, grid.nrows(), grid.ncols());
        }
        let p = cells[i].pos();
        assert(p == pos_of(i as int, grid.ncols()));
        if !is_visited(grid, &p, first) {
            v.push(p);
            assert(v@[v@.len() - 1] == p);
        }
        i = i + 1;
    }
    v
}

/// Carves the passage pair between the visited cell `from` and its unvisited neighbour `to`.
fn grow_link(grid: &mut Grid, from: &Pos, to: &Pos, root: Ghost<int>)
    requires
        old(grid).wf(),
        in_grid(*from, old(grid).nrows(), old(grid).ncols()),
        in_grid(*to, old(grid).nrows(), old(grid).ncols()),
        growing(old(grid).adj(), old(grid).ncols(), root@),
        visited(old(grid).adj(), root@, index_of(*from, old(grid).ncols())),
        !visited(old(grid).adj(), root@, index_of(*to, old(grid).ncols())),
        adjacent(old(grid).n(), old(grid).ncols(), index_of(*from, old(grid).ncols()), index_of(*to, old(grid).ncols())),
    ensures
        final(grid).wf(),
        final(grid).nrows() == old(grid).nrows(),
        final(grid).ncols() == old(grid).ncols(),
        final(grid).n() == old(grid).n(),
        growing(final(grid).adj(), final(grid).ncols(), root@),
        visited_count(final(grid).adj(), root@) == visited_count(old(grid).adj(), root@) + 1,
        visited(final(grid).adj(), root@, index_of(*to, old(grid).ncols())),
        forall|c: int| 0 <= c < old(grid).n() && c != index_of(*to, old(grid).ncols()) ==> (#[trigger] visited(final(grid).adj(), root@, c)
            <==> visited(old(grid).adj(), root@, c)),
{
    let ghost a0 = grid.adj();
    let ghost cols = grid.ncols();
    let ghost f = index_of(*from, cols);
    let ghost t = index_of(*to, cols);
    proof {
        grid.lemma_wf();
        lemma_adjacent_in_range(grid.n(), cols, f, t);
    }
    grid.link(from, to, true);
    proof {
        let a1 = grid.adj();
        assert(a1[f] == a0[f].push(t as usize));
        lemma_growing_step(a0, a1, cols, root@, f, t);
    }
}

/// Links one unvisited cell that has a visited neighbour, the first in row order, to such a
/// neighbour; `false` where there is none.
fn hunt(grid: &mut Grid, first: &Pos, root: Ghost<int>) -> (found: bool)
    requires
        old(grid).wf(),
        in_grid(*first, old(grid).nrows(), old(grid).ncols()),
        root@ == index_of(*first, old(grid).ncols()),
        growing(old(grid).adj(), old(grid).ncols(), root@),
    ensures
        final(grid).wf(),
        final(grid).nrows() == old(grid).nrows(),
        final(grid).ncols() == old(grid).ncols(),
        final(grid).n() == old(grid).n(),
        growing(final(grid).adj(), final(grid).ncols(), root@),
        found ==> visited_count(final(grid).adj(), root@) == visited_count(old(grid).adj(), root@) + 1,
        !found ==> final(grid).adj() == old(grid).adj() && closed_under_adjacency(
            old(grid).n(),
            old(grid).ncols(),
            visited_pred(old(grid).adj(), root@),
        ),
{
    let ghost a0 = old(grid).adj();
    let ghost n = old(grid).n();
    let ghost cols = old(grid).ncols();
    let ghost rows = old(grid).nrows();
    let ghost root = root@;
    proof {
        grid.lemma_wf();
    }
    let len = grid.size();
    let cells = grid.iter_cells();
    let ghost cells_v = cells@;
    let mut i: usize = 0;
    let mut found = false;
    let mut picked: Option<(Pos, Pos)> = None;
    while i < len && picked.is_none()
        invariant
            grid.wf(),
            grid.nrows() == rows,
            grid.ncols() == cols,
            grid.adj() == a0,
            n == grid.n(),
            len == n,
            n <= usize::MAX,
            n == rows * cols,
            rows >= 1,
            cols >= 1,
            i <= len,
            cells@ == cells_v,
            cells_v.len() == n,
            forall|j: int| 0 <= j < n ==> #[trigger] cells_v[j] == grid.cell_spec(j),
            in_grid(*first, rows, cols),
            root == index_of(*first, cols),
            growing(a0, cols, root),
            picked matches Some(pq) ==> in_grid(pq.0, rows, cols) && in_grid(pq.1, rows, cols)
                && visited(a0, root, index_of(pq.0, cols)) && !visited(a0, root, index_of(pq.1, cols))
                && adjacent(n, cols, index_of(pq.0, cols), index_of(pq.1, cols)),
            picked is None ==> forall|j: int, b: int| 0 <= j < i && #[trigger] adjacent(n, cols, j, b) && !visited(a0, root, j) ==> !visited(a0, root, b),
        decreases len - i,
    {
        proof {
            grid.lemma_wf();
            lemma_pos_of(i as int, rows, cols);
        }
        let p = cells[i].pos();
        assert(p == pos_of(i as int, cols));
        if !is_visited(grid, &p, first) {
            let nbrs = grid.neighbors_of(&p);
            let mut visited_nbrs: Vec<Pos> = Vec::new();
            let mut k: usize = 0;
            while k < nbrs.len()
                invariant
                    grid.wf(),
                    grid.nrows() == rows,
                    grid.ncols() == cols,
                    grid.adj() == a0,
                    n == grid.n(),
                    in_grid(*first, rows, cols),
                    root == index_of(*first, cols),
                    in_grid(p, rows, cols),
                    k <= nbrs@.len(),
                    forall|x: int| 0 <= x < nbrs@.len() ==> in_grid(#[trigger] nbrs@[x], rows, cols)
                        && adjacent(n, cols, index_of(p, cols), index_of(nbrs@[x], cols)),
                    forall|x: int| 0 <= x < visited_nbrs@.len() ==> in_grid(#[trigger] visited_nbrs@[x], rows, cols)
                        && adjacent(n, cols, index_of(p, cols), index_of(visited_nbrs@[x], cols)) && visited(a0, root, index_of(visited_nbrs@[x], cols)),
                    forall|x: int| 0 <= x < k && visited(a0, root, index_of(#[trigger] nbrs@[x], cols)) ==> visited_nbrs@.len() > 0,
                decreases nbrs@.len() - k,
            {
                let q = nbrs[k];
                if is_visited(grid, &q, first) {
                    visited_nbrs.push(q);
                    assert(visited_nbrs@[visited_nbrs@.len() - 1] == q);
                }
                k = k + 1;
            }
            match pick(&visited_nbrs) {
                Some(q) => {
                    let ghost x = choose|x: int| 0 <= x < visited_nbrs@.len() && visited_nbrs@[x] == q;
                    assert(visited_nbrs@[x] == q);
                    proof {
                        lemma_adjacent_symmetric(n, cols, index_of(p, cols), index_of(q, cols));
                    }
                    picked = Some((q, p));
                },
                None => {
                    proof {
                        assert forall|j: int, b: int| 0 <= j < i + 1 && #[trigger] adjacent(n, cols, j, b) && !visited(a0, root, j) implies !visited(a0, root, b) by {
                            if j == i && visited(a0, root, b) {
                                assert(index_of(p, cols) == i);
                                let x = choose|x: int| 0 <= x < nbrs@.len() && index_of(#[trigger] nbrs@[x], cols) == b;
                            }
                        }
                    }
                },
            }
        }
        i = i + 1;
    }
    match picked {
        Some(pq) => {
            grow_link(grid, &pq.0, &pq.1, Ghost(root));
            found = true;
        },
        None => {
            proof {
                let s = visited_pred(a0, root);
                assert forall|a: int, b: int| 0 <= a < n && s(a) && #[trigger] adjacent(n, cols, a, b) implies s(b) by {
                    lemma_adjacent_in_range(n, cols, a, b);
                    lemma_adjacent_symmetric(n, cols, a, b);
                    assert(adjacent(n, cols, b, a));
                }
            }
        },
    }
    found
}

/// The index of `p` in `path`, if it is there.
fn find(path: &Vec<Pos>, p: &Pos) -> (r: Option<usize>)
    ensures
        r matches Some(i) ==> i < path@.len() && path@[i as int] == *p,
        r is None ==> !path@.contains(*p),
{
    let mut i: usize = 0;
    while i < path.len()
        invariant
            i <= path@.len(),
            forall|k: int| 0 <= k < i ==> path@[k] != *p,
        decreases path@.len() - i,
    {
        if path[i] == *p {
            return Some(i);
        }
        i = i + 1;
    }
    None
}

/// `path` is a walk of neighbouring grid cells, without repeats, every cell but the last
/// unvisited.
pub open spec fn erased_walk(adj: Seq<Seq<usize>>, rows: int, cols: int, root: int, path: Seq<Pos>) -> bool {
    &&& path.len() >= 1
    &&& forall|k: int| 0 <= k < path.len() ==> in_grid(#[trigger] path[k], rows, cols)
    &&& forall|k: int| 0 <= k < path.len() - 1 ==> adjacent(rows * cols, cols, index_of(#[trigger] path[k], cols), index_of(path[k + 1], cols))
    &&& forall|a: int, b: int| 0 <= a < b < path.len() ==> #[trigger] path[a] != #[trigger] path[b]
    &&& forall|k: int| 0 <= k < path.len() - 1 ==> !visited(adj, root, index_of(#[trigger] path[k], cols))
}

/// Generates a `height` by `width` perfect maze by Wilson's algorithm.
pub fn generate(height: usize, width: usize) -> (grid: Grid)
    requires
        height >= 1,
        width >= 1,
        height * width <= usize::MAX,
    ensures
        grid.wf(),
        grid.nrows() == height,
        grid.ncols() == width,
        perfect(grid.adj(), width as int),
{
    let mut grid = Grid::new(height, width);
    let first = grid.random_pos();
    let ghost rows = height as int;
    let ghost cols = width as int;
    let ghost n = grid.n();
    let ghost root = index_of(first, cols);
    proof {
        grid.lemma_wf();
        lemma_index_of(first, rows, cols);
        lemma_growing_start(grid.adj(), cols, root);
    }
    let mut unvisited = unvisited_cells(&grid, &first);
    let mut budget: u64 = WALK_BUDGET;
    while unvisited.len() > 0 && budget > 0
        invariant
            grid.wf(),
            grid.nrows() == height,
            grid.ncols() == width,
            n == grid.n(),
            n == rows * cols,
            n <= usize::MAX,
            rows == height,
            cols == width,
            in_grid(first, rows, cols),
            root == index_of(first, cols),
            0 <= root < n,
            growing(grid.adj(), cols, root),
            forall|k: int| 0 <= k < unvisited@.len() ==> in_grid(#[trigger] unvisited@[k], rows, cols)
                && !visited(grid.adj(), root, index_of(unvisited@[k], cols)),
            forall|i: int| 0 <= i < n && !visited(grid.adj(), root, i) ==> unvisited@.len() > 0,
        decreases budget,
    {
        budget = budget - 1;
        let start = pick(&unvisited).unwrap();
        let ghost ks = choose|k: int| 0 <= k < unvisited@.len() && unvisited@[k] == start;
        assert(unvisited@[ks] == start);
        let mut path: Vec<Pos> = vec![start];
        let mut cell_pos = start;
        let ghost b0 = budget;
        proof {
            assert(path@[0] == start);
            assert(erased_walk(grid.adj(), rows, cols, root, path@));
        }
        while !is_visited(&grid, &cell_pos, &first) && budget > 0
            invariant
                grid.wf(),
                grid.nrows() == height,
                grid.ncols() == width,
                n == grid.n(),
                n == rows * cols,
                n <= usize::MAX,
                rows == height,
                cols == width,
                in_grid(first, rows, cols),
                root == index_of(first, cols),
                0 <= root < n,
                growing(grid.adj(), cols, root),
                erased_walk(grid.adj(), rows, cols, root, path@),
                path@[path@.len() - 1] == cell_pos,
                in_grid(cell_pos, rows, cols),
                budget <= b0,
            decreases budget,
        {
            budget = budget - 1;
            proof {
                lemma_index_of(cell_pos, rows, cols);
                assert(n > 1) by {
                    if n == 1 {
                        assert(index_of(cell_pos, cols) == root);
                    }
                }
                lemma_has_neighbor(rows, cols, index_of(cell_pos, cols));
            }
            let nbrs = grid.neighbors_of(&cell_pos);
            proof {
                let j = choose|j: int| #[trigger] adjacent(rows * cols, cols, index_of(cell_pos, cols), j);
                let x = choose|x: int| 0 <= x < nbrs@.len() && index_of(#[trigger] nbrs@[x], cols) == j;
            }
            let next = pick(&nbrs).unwrap();
            let ghost x = choose|x: int| 0 <= x < nbrs@.len() && nbrs@[x] == next;
            assert(nbrs@[x] == next);
            let ghost prev = path@;
            match find(&path, &next) {
                Some(idx) => {
                    let l = path.len();
                    assert(idx < l);
                    path.truncate(idx + 1);
                    proof {
                        assert(path@ =~= prev.subrange(0, idx as int + 1));
                        assert forall|k: int| 0 <= k < path@.len() - 1 implies !visited(grid.adj(), root, index_of(#[trigger] path@[k], cols)) by {
                            assert(path@[k] == prev[k]);
                        }
                        assert forall|k: int| 0 <= k < path@.len() - 1 implies adjacent(rows * cols, cols, index_of(#[trigger] path@[k], cols), index_of(path@[k + 1], cols)) by {
                            assert(path@[k] == prev[k]);
                            assert(path@[k + 1] == prev[k + 1]);
                        }
                        assert forall|a: int, b: int| 0 <= a < b < path@.len() implies #[trigger] path@[a] != #[trigger] path@[b] by {
                            assert(path@[a] == prev[a]);
                            assert(path@[b] == prev[b]);
                        }
                    }
                },
                None => {
                    path.push(next);
                    proof {
                        assert(path@ == prev.push(next));
                        assert forall|k: int| 0 <= k < path@.len() - 1 implies !visited(grid.adj(), root, index_of(#[trigger] path@[k], cols)) by {
                            assert(path@[k] == prev[k]);
                        }
                        assert forall|k: int| 0 <= k < path@.len() - 1 implies adjacent(rows * cols, cols, index_of(#[trigger] path@[k], cols), index_of(path@[k + 1], cols)) by {
                            assert(path@[k] == prev[k]);
                            if k < prev.len() - 1 {
                                assert(path@[k + 1] == prev[k + 1]);
                            }
                        }
                        assert forall|a: int, b: int| 0 <= a < b < path@.len() implies #[trigger] path@[a] != #[trigger] path@[b] by {
                            assert(path@[a] == prev[a]);
                            if b < prev.len() {
                                assert(path@[b] == prev[b]);
                            } else {
                                assert(prev.contains(prev[a]));
                            }
                        }
                        assert forall|k: int| 0 <= k < path@.len() implies in_grid(#[trigger] path@[k], rows, cols) by {
                            if k < prev.len() {
                                assert(path@[k] == prev[k]);
                            }
                        }
                    }
                },
            }
            cell_pos = next;
        }
        if is_visited(&grid, &cell_pos, &first) {
            let mut k: usize = path.len() - 1;
            while k > 0
                invariant
                    grid.wf(),
                    grid.nrows() == height,
                    grid.ncols() == width,
                    n == grid.n(),
                    n == rows * cols,
                    n <= usize::MAX,
                    rows == height,
                    cols == width,
                    root == index_of(first, cols),
                    0 <= root < n,
                    growing(grid.adj(), cols, root),
                    k < path@.len(),
                    forall|j: int| 0 <= j < path@.len() ==> in_grid(#[trigger] path@[j], rows, cols),
                    forall|j: int| 0 <= j < path@.len() - 1 ==> adjacent(rows * cols, cols, index_of(#[trigger] path@[j], cols), index_of(path@[j + 1], cols)),
                    forall|a: int, b: int| 0 <= a < b < path@.len() ==> #[trigger] path@[a] != #[trigger] path@[b],
                    forall|j: int| 0 <= j < k ==> !visited(grid.adj(), root, index_of(#[trigger] path@[j], cols)),
                    visited(grid.adj(), root, index_of(path@[k as int], cols)),
                decreases k,
            {
                let ghost kk = k as int;
                proof {
                    lemma_index_of(path@[kk], rows, cols);
                    lemma_index_of(path@[kk - 1], rows, cols);
                    assert(adjacent(rows * cols, cols, index_of(path@[kk - 1], cols), index_of(path@[kk], cols)));
                    lemma_adjacent_symmetric(n, cols, index_of(path@[kk - 1], cols), index_of(path@[kk], cols));
                }
                let from = path[k];
                let to = path[k - 1];
                grow_link(&mut grid, &from, &to, Ghost(root));
                proof {
                    assert forall|j: int| 0 <= j < kk - 1 implies !visited(grid.adj(), root, index_of(#[trigger] path@[j], cols)) by {
                        assert(path@[j] != path@[kk - 1]);
                        lemma_index_of(path@[j], rows, cols);
                        lemma_index_of(path@[kk - 1], rows, cols);
                    }
                }
                k = k - 1;
            }
            unvisited = unvisited_cells(&grid, &first);
        }
    }
    let ghost a_mid = grid.adj();
    proof {
        if unvisited.len() == 0 {
            assert forall|c: int| 0 <= c < n implies #[trigger] visited(a_mid, root, c) by {
            }
        }
    }
    let mut more = unvisited.len() > 0;
    while more
        invariant
            grid.wf(),
            grid.nrows() == height,
            grid.ncols() == width,
            n == grid.n(),
            n == rows * cols,
            n <= usize::MAX,
            cols == width,
            rows == height,
            in_grid(first, rows, cols),
            root == index_of(first, cols),
            0 <= root < n,
            growing(grid.adj(), cols, root),
            !more ==> forall|c: int| 0 <= c < n ==> #[trigger] visited(grid.adj(), root, c),
        decreases (n - visited_count(grid.adj(), root)) * 2 + (if more { 1int } else { 0int }),
    {
        proof {
            grid.lemma_wf();
            lemma_count_bound(n, |c: int| visited(grid.adj(), root, c));
        }
        let ghost a0 = grid.adj();
        let ghost c0 = visited_count(a0, root);
        more = hunt(&mut grid, &first, Ghost(root));
        proof {
            if more {
                assert(visited_count(grid.adj(), root) == c0 + 1);
            } else {
                assert(grid.adj() == a0);
            }
            if !more {
                lemma_closed_all(rows, cols, visited_pred(a0, root), root);
                assert forall|c: int| 0 <= c < n implies #[trigger] visited(grid.adj(), root, c) by {
                    assert(visited_pred(a0, root)(c));
                }
            }
            grid.lemma_wf();
            lemma_count_bound(n, |c: int| visited(grid.adj(), root, c));
        }
    }
    proof {
        grid.lemma_wf();
        lemma_growing_done(grid.adj(), cols, root);
    }
    grid
}

} // verus!
