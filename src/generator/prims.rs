//! Prim's algorithm, weighted: cells get random weights, and the maze grows from a frontier
//! by always extending the lightest frontier cell towards its lightest unlinked neighbour.
use vstd::prelude::*;
use crate::grid_maze::GridMaze;
use crate::grid_node::GridNode;
use crate::links::adjacent;
use crate::counting::lemma_count_bound;
use crate::perfect::{perfect, growing, visited, visited_count, lemma_growing_start, lemma_growing_done, lemma_closed_all};
use crate::generator::recursive_backtracker::finished_off_stack;
use crate::random::random_below;

verus! {

/// The index of the first node of least weight in `v`.
fn lightest(v: &Vec<GridNode>) -> (k: usize)
    requires
        v@.len() > 0,
    ensures
        k < v@.len(),
        forall|j: int| 0 <= j < v@.len() ==> v@[k as int].weight_spec() <= #[trigger] v@[j].weight_spec(),
{
    let mut best: usize = 0;
    let mut j: usize = 1;
    while j < v.len()
        invariant
            v@.len() > 0,
            1 <= j <= v@.len(),
            best < j,
            forall|i: int| 0 <= i < j ==> v@[best as int].weight_spec() <= #[trigger] v@[i].weight_spec(),
        decreases v@.len() - j,
    {
        if v[j].weight() < v[best].weight() {
            best = j;
        }
        j = j + 1;
    }
    best
}

/// The neighbours of `node` that have no link yet, in the order north, east, south, west.
fn unlinked_neighbors(maze: &GridMaze, node: &GridNode) -> (v: Vec<GridNode>)
    requires
        maze.wf(),
        node.pos_spec() < maze.n(),
    ensures
        forall|k: int| 0 <= k < v@.len() ==> adjacent(maze.n(), maze.cols() as int, node.pos_spec() as int, (#[trigger] v@[k]).pos_spec() as int)
            && maze.adj()[v@[k].pos_spec() as int].len() == 0 && v@[k] == maze.node_spec(v@[k].pos_spec() as int),
        forall|j: int| adjacent(maze.n(), maze.cols() as int, node.pos_spec() as int, j) && maze.adj()[j].len() == 0
            ==> exists|k: int| 0 <= k < v@.len() && (#[trigger] v@[k]).pos_spec() == j,
{
    crate::generator::hunt_kill::neighbors_by_links(maze, node, false)
}

/// Generates a `height` by `width` perfect maze by Prim's algorithm: every cell gets a random
/// weight in 1..=100; from a random start, the frontier cell of least weight is linked to its
/// unlinked neighbour of least weight, which joins the frontier; a frontier cell with no
/// unlinked neighbour leaves it.
pub fn generate(height: usize, width: usize) -> (maze: GridMaze)
    requires
        height >= 1,
        width >= 1,
        height * width <= usize::MAX,
    ensures
        maze.wf(),
        maze.rows() == height,
        maze.cols() == width,
        perfect(maze.adj(), maze.cols() as int),
        forall|c: int| 0 <= c < maze.n() ==> 1 <= #[trigger] maze.weight_of(c) <= 100,
{
    let mut maze = GridMaze::new(height, width);
    let len = maze.len();
    let mut i: usize = 0;
    while i < len
        invariant
            maze.wf(),
            maze.rows() == height,
            maze.cols() == width,
            len == maze.n(),
            i <= len,
            forall|c: int| 0 <= c < len ==> (#[trigger] maze.adj()[c]).len() == 0,
            forall|c: int| 0 <= c < i ==> 1 <= #[trigger] maze.weight_of(c) <= 100,
        decreases len - i,
    {
        let w = random_below(100);
        maze.set_weight(i, (w + 1) as isize);
        i = i + 1;
    }
    let start = maze.random_node();
    let ghost root = start.pos_spec() as int;
    let ghost n = maze.n();
    let ghost cols = maze.cols() as int;
    proof {
        maze.lemma_wf();
        lemma_growing_start(maze.adj(), cols, root);
    }
    let mut to_visit: Vec<GridNode> = vec![start];
    assert(to_visit@[0] == start);
    while to_visit.len() > 0
        invariant
            maze.wf(),
            maze.rows() == height,
            maze.cols() == width,
            n == maze.n(),
            cols == width,
            n == height * width,
            0 <= root < n,
            growing(maze.adj(), cols, root),
            forall|c: int| 0 <= c < n ==> 1 <= #[trigger] maze.weight_of(c) <= 100,
            forall|k: int| 0 <= k < to_visit@.len() ==> (#[trigger] to_visit@[k]).pos_spec() < n && visited(maze.adj(), root, to_visit@[k].pos_spec() as int),
            finished_off_stack(maze.adj(), cols, root, to_visit@),
        decreases (n - visited_count(maze.adj(), root)) * 2 + to_visit@.len(),
    {
        proof {
            maze.lemma_wf();
            lemma_count_bound(n, |c: int| visited(maze.adj(), root, c));
        }
        let ghost a0 = maze.adj();
        let ghost s0 = to_visit@;
        let top = lightest(&to_visit);
        let cur = to_visit[top];
        assert(s0[top as int] == cur);
        let unlinked = unlinked_neighbors(&maze, &cur);
        proof {
            assert(visited(a0, root, cur.pos_spec() as int));
            if cur.pos_spec() != root {
                crate::paths::lemma_reach_leaves(a0, root, cur.pos_spec() as int);
            }
        }
        if unlinked.len() > 0 {
            let k = lightest(&unlinked);
            let nb = unlinked[k];
            proof {
                crate::links::lemma_adjacent_in_range(n, cols, cur.pos_spec() as int, nb.pos_spec() as int);
            }
            crate::generator::grow_link(&mut maze, &cur, &nb, Ghost(root));
            to_visit.push(nb);
            proof {
                let a1 = maze.adj();
                assert forall|k: int| 0 <= k < to_visit@.len() implies (#[trigger] to_visit@[k]).pos_spec() < n && visited(a1, root, to_visit@[k].pos_spec() as int) by {
                    if k < s0.len() {
                        assert(to_visit@[k] == s0[k]);
                        assert(visited(a0, root, s0[k].pos_spec() as int));
                    }
                }
                assert forall|c: int, b: int|
                    0 <= c < a1.len() && visited(a1, root, c) && #[trigger] adjacent(a1.len() as int, cols, c, b)
                        && !(exists|k: int| 0 <= k < to_visit@.len() && (#[trigger] to_visit@[k]).pos_spec() == c) implies visited(a1, root, b) by {
                    crate::links::lemma_adjacent_in_range(n, cols, c, b);
                    if c != nb.pos_spec() {
                        assert(visited(a0, root, c));
                        assert(!(exists|k: int| 0 <= k < s0.len() && (#[trigger] s0[k]).pos_spec() == c)) by {
                            if exists|k: int| 0 <= k < s0.len() && (#[trigger] s0[k]).pos_spec() == c {
                                let k = choose|k: int| 0 <= k < s0.len() && (#[trigger] s0[k]).pos_spec() == c;
                                assert(to_visit@[k] == s0[k]);
                            }
                        }
                        assert(visited(a0, root, b));
                        if b != nb.pos_spec() {
                            assert(visited(a1, root, b));
                        }
                    } else {
                        assert(to_visit@[to_visit@.len() - 1].pos_spec() == c);
                    }
                }
            }
        } else {
            to_visit.remove(top);
            proof {
                assert(to_visit@ =~= s0.remove(top as int));
                assert forall|c: int, b: int|
                    0 <= c < a0.len() && visited(a0, root, c) && #[trigger] adjacent(a0.len() as int, cols, c, b)
                        && !(exists|k: int| 0 <= k < to_visit@.len() && (#[trigger] to_visit@[k]).pos_spec() == c) implies visited(a0, root, b) by {
                    if c == cur.pos_spec() {
                        crate::links::lemma_adjacent_in_range(n, cols, c, b);
                        if a0[b].len() == 0 {
                            let x = choose|x: int| 0 <= x < unlinked@.len() && (#[trigger] unlinked@[x]).pos_spec() == b;
                        }
                    } else {
                        assert(!(exists|k: int| 0 <= k < s0.len() && (#[trigger] s0[k]).pos_spec() == c)) by {
                            if exists|k: int| 0 <= k < s0.len() && (#[trigger] s0[k]).pos_spec() == c {
                                let k = choose|k: int| 0 <= k < s0.len() && (#[trigger] s0[k]).pos_spec() == c;
                                if k < top {
                                    assert(to_visit@[k] == s0[k]);
                                } else if k > top {
                                    assert(to_visit@[k - 1] == s0[k]);
                                }
                            }
                        }
                    }
                }
            }
        }
        proof {
            maze.lemma_wf();
            lemma_count_bound(n, |c: int| visited(maze.adj(), root, c));
        }
    }
    proof {
        maze.lemma_wf();
        let adj = maze.adj();
        let s = |c: int| visited(adj, root, c);
        assert forall|a: int, b: int| 0 <= a < n && s(a) && #[trigger] adjacent(n, cols, a, b) implies s(b) by {
            assert(!(exists|k: int| 0 <= k < to_visit@.len() && (#[trigger] to_visit@[k]).pos_spec() == a));
        }
        lemma_closed_all(height as int, width as int, s, root);
        assert forall|c: int| 0 <= c < adj.len() implies #[trigger] visited(adj, root, c) by {
            assert(s(c));
        }
        lemma_growing_done(adj, cols, root);
    }
    maze
}

} // verus!
