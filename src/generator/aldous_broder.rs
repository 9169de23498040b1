//! Aldous-Broder: a uniform random walk that links each cell the first time it steps onto it.
use vstd::prelude::*;
use crate::grid_maze::{GridMaze, unit_weights};
use crate::links::adjacent;
use crate::counting::lemma_count_bound;
use crate::perfect::{perfect, growing, visited, visited_count, lemma_growing_start, lemma_growing_done};
use crate::generator::hunt_kill::{hunt, lemma_hunt_failed};
use crate::random::pick;

verus! {

/// The most steps the random walk takes. A walk this long is not expected to happen; past it,
/// the cells still unvisited are joined by hunting, as in hunt-and-kill.
pub const WALK_BUDGET: u64 = 0xffff_ffff_ffff_ffff;

/// Generates a `height` by `width` perfect maze by the Aldous-Broder random walk.
pub fn generate(height: usize, width: usize) -> (maze: GridMaze)
    requires
        height >= 1,
        width >= 1,
        height * width <= usize::MAX,
    ensures
        maze.wf(),
        maze.rows() == height,
        maze.cols() == width,
        perfect(maze.adj(), maze.cols() as int),
        unit_weights(&maze),
{
    let mut maze = GridMaze::new(height, width);
    let mut cur = maze.random_node();
    let ghost root = cur.pos_spec() as int;
    let ghost n = maze.n();
    let ghost cols = maze.cols() as int;
    proof {
        maze.lemma_wf();
        lemma_growing_start(maze.adj(), cols, root);
        lemma_count_bound(n, |c: int| visited(maze.adj(), root, c));
        assert(visited_count(maze.adj(), root) == 1) by {
            let f = |c: int| visited(maze.adj(), root, c);
            let g = |c: int| c == root;
            crate::counting::lemma_count_eq(n, g, f);
            lemma_count_root(n, root);
        }
    }
    let mut unvisited: usize = maze.len() - 1;
    let mut budget: u64 = WALK_BUDGET;
    while unvisited > 0 && budget > 0
        invariant
            maze.wf(),
            unit_weights(&maze),
            maze.rows() == height,
            maze.cols() == width,
            n == maze.n(),
            cols == width,
            n == height * width,
            0 <= root < n,
            growing(maze.adj(), cols, root),
            cur.pos_spec() < n,
            visited(maze.adj(), root, cur.pos_spec() as int),
            unvisited + visited_count(maze.adj(), root) == n,
            budget == WALK_BUDGET ==> cur.pos_spec() == root && visited_count(maze.adj(), root) == 1,
            budget < WALK_BUDGET ==> maze.adj()[root].len() > 0,
        decreases budget,
    {
        proof {
            maze.lemma_wf();
            if cur.pos_spec() != root {
                crate::paths::lemma_reach_leaves(maze.adj(), root, cur.pos_spec() as int);
            }
        }
        let nbrs = maze.neighbors(&cur);
        if let Some(nb) = pick(&nbrs) {
            let ghost k = choose|k: int| 0 <= k < nbrs@.len() && nbrs@[k] == nb;
            assert(nbrs@[k] == nb);
            proof {
                crate::links::lemma_adjacent_in_range(n, cols, cur.pos_spec() as int, nb.pos_spec() as int);
            }
            if maze.get_links(&nb).len() == 0 {
                proof {
                    lemma_count_bound(n, |c: int| visited(maze.adj(), root, c));
                    if budget == WALK_BUDGET {
                        assert(nb.pos_spec() != root);
                    }
                }
                crate::generator::grow_link(&mut maze, &cur, &nb, Ghost(root));
                unvisited = unvisited - 1;
            } else {
                proof {
                    if budget == WALK_BUDGET {
                        assert(maze.adj()[nb.pos_spec() as int].len() > 0);
                        let f = |c: int| visited(maze.adj(), root, c);
                        let g = |c: int| c == root;
                        assert(f(nb.pos_spec() as int));
                        crate::counting::lemma_count_strict(n, f, g, nb.pos_spec() as int);
                        lemma_count_root(n, root);
                        assert(false);
                    }
                }
            }
            cur = nb;
        } else {
            proof {
                assert(n == 1) by {
                    if n > 1 {
                        lemma_has_neighbor(height as int, width as int, cur.pos_spec() as int);
                        let j = choose|j: int| #[trigger] adjacent(n, cols, cur.pos_spec() as int, j);
                        let x = choose|x: int| 0 <= x < nbrs@.len() && (#[trigger] nbrs@[x]).pos_spec() == j;
                    }
                }
                lemma_count_bound(n, |c: int| visited(maze.adj(), root, c));
            }
            unvisited = 0;
        }
        budget = budget - 1;
    }
    proof {
        maze.lemma_wf();
        if unvisited == 0 {
            assert forall|c: int| 0 <= c < n implies #[trigger] visited(maze.adj(), root, c) by {
                lemma_count_full(n, |c: int| visited(maze.adj(), root, c), c);
            }
        }
    }
    let mut more = unvisited > 0;
    while more
        invariant
            maze.wf(),
            unit_weights(&maze),
            maze.rows() == height,
            maze.cols() == width,
            n == maze.n(),
            cols == width,
            n == height * width,
            0 <= root < n,
            growing(maze.adj(), cols, root),
            more ==> maze.adj()[root].len() > 0,
            !more ==> forall|c: int| 0 <= c < n ==> #[trigger] visited(maze.adj(), root, c),
        decreases (n - visited_count(maze.adj(), root)) * 2 + (if more { 1int } else { 0int }),
    {
        proof {
            lemma_count_bound(n, |c: int| visited(maze.adj(), root, c));
        }
        let ghost a0 = maze.adj();
        let found = hunt(&mut maze, Ghost(root));
        proof {
            maze.lemma_wf();
            if found is None {
                lemma_hunt_failed(a0, height as int, width as int, root);
            }
            lemma_count_bound(n, |c: int| visited(maze.adj(), root, c));
        }
        more = found.is_some();
    }
    proof {
        maze.lemma_wf();
        lemma_growing_done(maze.adj(), cols, root);
    }
    maze
}

/// Only the root counts as itself.
proof fn lemma_count_root(n: int, root: int)
    requires
        0 <= root < n,
    ensures
        crate::counting::count_where(n, |c: int| c == root) == 1,
{
    crate::counting::lemma_count_plus_one(n, |c: int| false, |c: int| c == root, root);
    crate::perfect::lemma_count_zero(n);
}

/// A predicate that counts all of `0..n` holds everywhere there.
pub(crate) proof fn lemma_count_full(n: int, f: spec_fn(int) -> bool, c: int)
    requires
        0 <= c < n,
        crate::counting::count_where(n, f) == n,
    ensures
        f(c),
{
    if !f(c) {
        crate::counting::lemma_count_strict(n, |i: int| true, f, c);
        crate::counting::lemma_count_bound(n, |i: int| true);
    }
}

/// In a grid of more than one cell every cell has a structural neighbour.
pub(crate) proof fn lemma_has_neighbor(rows: int, cols: int, i: int)
    requires
        rows >= 1,
        cols >= 1,
        rows * cols > 1,
        0 <= i < rows * cols,
    ensures
        exists|j: int| #[trigger] adjacent(rows * cols, cols, i, j),
{
    let n = rows * cols;
    if rows >= 2 {
        if i >= cols {
            assert(adjacent(n, cols, i, i - cols));
        } else {
            assert(n >= 2 * cols) by (nonlinear_arith)
                requires
                    rows >= 2,
                    cols >= 0,
                    n == rows * cols,
            ;
            assert(adjacent(n, cols, i, i + cols));
        }
    } else {
        assert(rows == 1);
        assert(n == cols);
        if i % cols != 0 {
            assert(adjacent(n, cols, i, i - 1));
        } else {
            assert(i == 0) by {
                vstd::arithmetic::div_mod::lemma_fundamental_div_mod(i, cols);
                assert(i / cols == 0) by {
                    vstd::arithmetic::div_mod::lemma_div_is_ordered_by_denominator(i, 1, cols);
                    vstd::arithmetic::div_mod::lemma_basic_div(i, cols);
                }
            }
            assert(0int % cols == 0);
            assert(cols > 1);
            vstd::arithmetic::div_mod::lemma_small_mod(0nat, cols as nat);
            assert(adjacent(n, cols, i, i + 1));
        }
    }
}

} // verus!
