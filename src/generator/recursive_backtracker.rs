//! Recursive backtracker: a depth-first walk with an explicit stack. Link the top of the stack
//! to a random unvisited neighbour and push it; where there is none, pop.
use vstd::prelude::*;
use crate::grid_maze::{GridMaze, unit_weights};
use crate::grid_node::GridNode;
use crate::links::adjacent;
use crate::counting::lemma_count_bound;
use crate::perfect::{perfect, growing, visited, visited_count, lemma_growing_start, lemma_growing_done, lemma_closed_all};
use crate::generator::hunt_kill::unvisited_neighbors;
use crate::random::pick;

verus! {

/// Every visited cell that is not on the stack has only visited neighbours.
pub open spec fn finished_off_stack(adj: Seq<Seq<usize>>, cols: int, root: int, stack: Seq<GridNode>) -> bool {
    forall|c: int, b: int|
        0 <= c < adj.len() && visited(adj, root, c) && #[trigger] adjacent(adj.len() as int, cols, c, b)
            && !(exists|k: int| 0 <= k < stack.len() && (#[trigger] stack[k]).pos_spec() == c) ==> visited(adj, root, b)
}

/// Generates a `height` by `width` perfect maze by recursive backtracking.
pub fn generate(height: usize, width: usize) -> (maze: GridMaze)
    requires
        height >= 1,
        width >= 1,
        height * width <= usize::MAX,
    ensures
        maze.wf(),
        maze.rows() == height,
        maze.cols() == width,
        perfect(maze.adj(), maze.cols() as int),
        unit_weights(&maze),
{
    let mut maze = GridMaze::new(height, width);
    let start = maze.random_node();
    let ghost root = start.pos_spec() as int;
    let ghost n = maze.n();
    let ghost cols = maze.cols() as int;
    proof {
        maze.lemma_wf();
        lemma_growing_start(maze.adj(), cols, root);
    }
    let mut stack: Vec<GridNode> = vec![start];
    assert(stack@[0] == start);
    while stack.len() > 0
        invariant
            maze.wf(),
            unit_weights(&maze),
            maze.rows() == height,
            maze.cols() == width,
            n == maze.n(),
            cols == width,
            n == height * width,
            0 <= root < n,
            growing(maze.adj(), cols, root),
            forall|k: int| 0 <= k < stack@.len() ==> (#[trigger] stack@[k]).pos_spec() < n && visited(maze.adj(), root, stack@[k].pos_spec() as int),
            finished_off_stack(maze.adj(), cols, root, stack@),
        decreases (n - visited_count(maze.adj(), root)) * 2 + stack@.len(),
    {
        proof {
            maze.lemma_wf();
            lemma_count_bound(n, |c: int| visited(maze.adj(), root, c));
        }
        let ghost a0 = maze.adj();
        let ghost s0 = stack@;
        let cur = stack[stack.len() - 1];
        assert(s0[s0.len() - 1] == cur);
        let unvisited = unvisited_neighbors(&maze, &cur);
        proof {
            assert(visited(a0, root, cur.pos_spec() as int));
            if cur.pos_spec() != root {
                crate::paths::lemma_reach_leaves(a0, root, cur.pos_spec() as int);
            }
        }
        match pick(&unvisited) {
            Some(nb) => {
                let ghost k = choose|k: int| 0 <= k < unvisited@.len() && unvisited@[k] == nb;
                assert(unvisited@[k] == nb);
                proof {
                    crate::links::lemma_adjacent_in_range(n, cols, cur.pos_spec() as int, nb.pos_spec() as int);
                }
                crate::generator::grow_link(&mut maze, &cur, &nb, Ghost(root));
                stack.push(nb);
                proof {
                    let a1 = maze.adj();
                    assert forall|k: int| 0 <= k < stack@.len() implies (#[trigger] stack@[k]).pos_spec() < n && visited(a1, root, stack@[k].pos_spec() as int) by {
                        if k < s0.len() {
                            assert(stack@[k] == s0[k]);
                            assert(visited(a0, root, s0[k].pos_spec() as int));
                        }
                    }
                    assert forall|c: int, b: int|
                        0 <= c < a1.len() && visited(a1, root, c) && #[trigger] adjacent(a1.len() as int, cols, c, b)
                            && !(exists|k: int| 0 <= k < stack@.len() && (#[trigger] stack@[k]).pos_spec() == c) implies visited(a1, root, b) by {
                        crate::links::lemma_adjacent_in_range(n, cols, c, b);
                        if c != nb.pos_spec() {
                            assert(visited(a0, root, c));
                            assert(!(exists|k: int| 0 <= k < s0.len() && (#[trigger] s0[k]).pos_spec() == c)) by {
                                if exists|k: int| 0 <= k < s0.len() && (#[trigger] s0[k]).pos_spec() == c {
                                    let k = choose|k: int| 0 <= k < s0.len() && (#[trigger] s0[k]).pos_spec() == c;
                                    assert(stack@[k] == s0[k]);
                                }
                            }
                            assert(visited(a0, root, b));
                            if b != nb.pos_spec() {
                                assert(visited(a1, root, b));
                            }
                        } else {
                            assert(stack@[stack@.len() - 1].pos_spec() == c);
                        }
                    }
                }
            },
            None => {
                stack.pop();
                proof {
                    assert(stack@ =~= s0.drop_last());
                    assert forall|c: int, b: int|
                        0 <= c < a0.len() && visited(a0, root, c) && #[trigger] adjacent(a0.len() as int, cols, c, b)
                            && !(exists|k: int| 0 <= k < stack@.len() && (#[trigger] stack@[k]).pos_spec() == c) implies visited(a0, root, b) by {
                        if c == cur.pos_spec() {
                            if a0[b].len() == 0 {
                                let x = choose|x: int| 0 <= x < unvisited@.len() && (#[trigger] unvisited@[x]).pos_spec() == b;
                            }
                        } else {
                            assert(!(exists|k: int| 0 <= k < s0.len() && (#[trigger] s0[k]).pos_spec() == c)) by {
                                if exists|k: int| 0 <= k < s0.len() && (#[trigger] s0[k]).pos_spec() == c {
                                    let k = choose|k: int| 0 <= k < s0.len() && (#[trigger] s0[k]).pos_spec() == c;
                                    if k < s0.len() - 1 {
                                        assert(stack@[k] == s0[k]);
                                    }
                                }
                            }
                        }
                    }
                }
            },
        }
        proof {
            maze.lemma_wf();
            lemma_count_bound(n, |c: int| visited(maze.adj(), root, c));
        }
    }
    proof {
        maze.lemma_wf();
        let adj = maze.adj();
        let s = |c: int| visited(adj, root, c);
        assert forall|a: int, b: int| 0 <= a < n && s(a) && #[trigger] adjacent(n, cols, a, b) implies s(b) by {
            assert(!(exists|k: int| 0 <= k < stack@.len() && (#[trigger] stack@[k]).pos_spec() == a));
        }
        lemma_closed_all(height as int, width as int, s, root);
        assert forall|c: int| 0 <= c < adj.len() implies #[trigger] visited(adj, root, c) by {
            assert(s(c));
        }
        lemma_growing_done(adj, cols, root);
    }
    maze
}

} // verus!
