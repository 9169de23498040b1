//! Hunt-and-kill: a random walk onto unvisited cells only; at a dead end, hunt in row order
//! for the first unvisited cell next to a visited one, link it in, and walk on from there.
use vstd::prelude::*;
use crate::grid_maze::{GridMaze, unit_weights};
use crate::grid_node::GridNode;
use crate::links::adjacent;
use crate::counting::lemma_count_bound;
use crate::perfect::{perfect, growing, visited, visited_count, lemma_growing_start, lemma_growing_done, lemma_closed_all};
use crate::random::pick;

verus! {

/// The neighbours of `node` that have no link yet, in the order north, east, south, west.
pub fn unvisited_neighbors(maze: &GridMaze, node: &GridNode) -> (v: Vec<GridNode>)
    requires
        maze.wf(),
        node.pos_spec() < maze.n(),
    ensures
        forall|k: int| 0 <= k < v@.len() ==> adjacent(maze.n(), maze.cols() as int, node.pos_spec() as int, (#[trigger] v@[k]).pos_spec() as int)
            && maze.adj()[v@[k].pos_spec() as int].len() == 0 && v@[k] == maze.node_spec(v@[k].pos_spec() as int),
        forall|j: int| adjacent(maze.n(), maze.cols() as int, node.pos_spec() as int, j) && maze.adj()[j].len() == 0
            ==> exists|k: int| 0 <= k < v@.len() && (#[trigger] v@[k]).pos_spec() == j,
{
    neighbors_by_links(maze, node, false)
}

/// The neighbours of `node` that already have a link, in the order north, east, south, west.
pub fn visited_neighbors(maze: &GridMaze, node: &GridNode) -> (v: Vec<GridNode>)
    requires
        maze.wf(),
        node.pos_spec() < maze.n(),
    ensures
        forall|k: int| 0 <= k < v@.len() ==> adjacent(maze.n(), maze.cols() as int, node.pos_spec() as int, (#[trigger] v@[k]).pos_spec() as int)
            && maze.adj()[v@[k].pos_spec() as int].len() > 0 && v@[k] == maze.node_spec(v@[k].pos_spec() as int),
        forall|j: int| adjacent(maze.n(), maze.cols() as int, node.pos_spec() as int, j) && maze.adj()[j].len() > 0
            ==> exists|k: int| 0 <= k < v@.len() && (#[trigger] v@[k]).pos_spec() == j,
{
    neighbors_by_links(maze, node, true)
}

/// The neighbours of `node` that have links (`linked`) or have none (`!linked`).
pub(crate) fn neighbors_by_links(maze: &GridMaze, node: &GridNode, linked: bool) -> (v: Vec<GridNode>)
    requires
        maze.wf(),
        node.pos_spec() < maze.n(),
    ensures
        forall|k: int| 0 <= k < v@.len() ==> adjacent(maze.n(), maze.cols() as int, node.pos_spec() as int, (#[trigger] v@[k]).pos_spec() as int)
            && (maze.adj()[v@[k].pos_spec() as int].len() > 0) == linked && v@[k] == maze.node_spec(v@[k].pos_spec() as int),
        forall|j: int| adjacent(maze.n(), maze.cols() as int, node.pos_spec() as int, j) && (maze.adj()[j].len() > 0) == linked
            ==> exists|k: int| 0 <= k < v@.len() && (#[trigger] v@[k]).pos_spec() == j,
{
    proof {
        maze.lemma_wf();
    }
    let nbrs = maze.neighbors(node);
    let mut v: Vec<GridNode> = Vec::new();
    let mut k: usize = 0;
    while k < nbrs.len()
        invariant
            maze.wf(),
            node.pos_spec() < maze.n(),
            k <= nbrs@.len(),
            forall|i: int| 0 <= i < nbrs@.len() ==> adjacent(maze.n(), maze.cols() as int, node.pos_spec() as int, (#[trigger] nbrs@[i]).pos_spec() as int)
                && nbrs@[i] == maze.node_spec(nbrs@[i].pos_spec() as int),
            forall|i: int| 0 <= i < v@.len() ==> adjacent(maze.n(), maze.cols() as int, node.pos_spec() as int, (#[trigger] v@[i]).pos_spec() as int)
                && (maze.adj()[v@[i].pos_spec() as int].len() > 0) == linked && v@[i] == maze.node_spec(v@[i].pos_spec() as int),
            forall|i: int| 0 <= i < k && (maze.adj()[nbrs@[i].pos_spec() as int].len() > 0) == linked
                ==> exists|x: int| 0 <= x < v@.len() && (#[trigger] v@[x]).pos_spec() == #[trigger] nbrs@[i].pos_spec(),
        decreases nbrs@.len() - k,
    {
        let nb = nbrs[k];
        proof {
            maze.lemma_wf();
            crate::links::lemma_adjacent_in_range(maze.n(), maze.cols() as int, node.pos_spec() as int, nb.pos_spec() as int);
        }
        let ghost v0 = v@;
        let has = maze.get_links(&nb).len() > 0;
        if has == linked {
            v.push(nb);
            assert(v@[v@.len() - 1].pos_spec() == nb.pos_spec());
        }
        assert forall|i: int| 0 <= i < k + 1 && (maze.adj()[nbrs@[i].pos_spec() as int].len() > 0) == linked
            implies exists|x: int| 0 <= x < v@.len() && (#[trigger] v@[x]).pos_spec() == #[trigger] nbrs@[i].pos_spec() by {
            if i < k {
                let x = choose|x: int| 0 <= x < v0.len() && (#[trigger] v0[x]).pos_spec() == nbrs@[i].pos_spec();
                assert(v@[x] == v0[x]);
            } else {
                assert(v@[v@.len() - 1].pos_spec() == nbrs@[i].pos_spec());
            }
        }
        k = k + 1;
    }
    assert forall|j: int| adjacent(maze.n(), maze.cols() as int, node.pos_spec() as int, j) && (maze.adj()[j].len() > 0) == linked
        implies exists|x: int| 0 <= x < v@.len() && (#[trigger] v@[x]).pos_spec() == j by {
        let i = choose|i: int| 0 <= i < nbrs@.len() && (#[trigger] nbrs@[i]).pos_spec() == j;
        assert(nbrs@[i].pos_spec() == j);
    }
    v
}

/// No unvisited cell has a neighbour with a link.
pub open spec fn hunt_failed(adj: Seq<Seq<usize>>, cols: int) -> bool {
    forall|j: int, b: int| 0 <= j < adj.len() && #[trigger] adjacent(adj.len() as int, cols, j, b) && adj[j].len() == 0 ==> adj[b].len() == 0
}

/// A hunt that found nothing means every cell has been visited.
pub(crate) proof fn lemma_hunt_failed(adj: Seq<Seq<usize>>, rows: int, cols: int, root: int)
    requires
        rows >= 1,
        cols >= 1,
        adj.len() == rows * cols,
        growing(adj, cols, root),
        hunt_failed(adj, cols),
        adj[root].len() == 0 ==> forall|b: int| #[trigger] adjacent(adj.len() as int, cols, root, b) ==> adj[b].len() > 0,
    ensures
        forall|c: int| 0 <= c < adj.len() ==> #[trigger] visited(adj, root, c),
{
    let n = adj.len() as int;
    let s = |c: int| visited(adj, root, c);
    assert forall|a: int, b: int| 0 <= a < n && s(a) && #[trigger] adjacent(n, cols, a, b) implies s(b) by {
        crate::links::lemma_adjacent_in_range(n, cols, a, b);
        crate::links::lemma_adjacent_symmetric(n, cols, a, b);
        if !s(b) {
            assert(adj[b].len() == 0);
            assert(adjacent(n, cols, b, a));
            assert(adj[a].len() == 0);
        }
    }
    lemma_closed_all(rows, cols, s, root);
    assert forall|c: int| 0 <= c < adj.len() implies #[trigger] visited(adj, root, c) by {
        assert(s(c));
    }
}

/// Cell `i`, if it has no link, may be joined to its neighbour with a link `nb`, when there is
/// one; picked at random among them.
fn hunt_candidate(maze: &GridMaze, i: usize) -> (r: Option<GridNode>)
    requires
        maze.wf(),
        i < maze.n(),
    ensures
        r is None ==> !(maze.adj()[i as int].len() == 0 && exists|b: int| #[trigger] adjacent(maze.n(), maze.cols() as int, i as int, b)
            && maze.adj()[b].len() > 0),
        r matches Some(nb) ==> maze.adj()[i as int].len() == 0 && adjacent(maze.n(), maze.cols() as int, i as int, nb.pos_spec() as int)
            && maze.adj()[nb.pos_spec() as int].len() > 0 && nb.pos_spec() < maze.n(),
{
    let hunted = maze.node(i).unwrap();
    if maze.get_links(&hunted).len() != 0 {
        return None;
    }
    let visited_nbrs = visited_neighbors(maze, &hunted);
    match pick(&visited_nbrs) {
        None => {
            proof {
                if exists|b: int| #[trigger] adjacent(maze.n(), maze.cols() as int, i as int, b) && maze.adj()[b].len() > 0 {
                    let b = choose|b: int| #[trigger] adjacent(maze.n(), maze.cols() as int, i as int, b) && maze.adj()[b].len() > 0;
                    let x = choose|x: int| 0 <= x < visited_nbrs@.len() && (#[trigger] visited_nbrs@[x]).pos_spec() == b;
                }
            }
            None
        },
        Some(nb) => {
            proof {
                let k = choose|k: int| 0 <= k < visited_nbrs@.len() && visited_nbrs@[k] == nb;
                assert(visited_nbrs@[k] == nb);
                maze.lemma_wf();
                crate::links::lemma_adjacent_in_range(maze.n(), maze.cols() as int, i as int, nb.pos_spec() as int);
            }
            Some(nb)
        },
    }
}

/// Hunts in row order for the first cell with no link that has a neighbour with a link,
/// links it to one such neighbour picked at random, and returns it.
pub(crate) fn hunt(maze: &mut GridMaze, root: Ghost<int>) -> (r: Option<GridNode>)
    requires
        old(maze).wf(),
        growing(old(maze).adj(), old(maze).cols() as int, root@),
    ensures
        final(maze).wf(),
        final(maze).rows() == old(maze).rows(),
        final(maze).cols() == old(maze).cols(),
        final(maze).n() == old(maze).n(),
        forall|i: int| 0 <= i < old(maze).n() ==> #[trigger] final(maze).weight_of(i) == old(maze).weight_of(i),
        r is None ==> final(maze).adj() == old(maze).adj() && hunt_failed(old(maze).adj(), old(maze).cols() as int),
        r matches Some(c) ==> c.pos_spec() < final(maze).n() && visited(final(maze).adj(), root@, c.pos_spec() as int)
            && visited_count(final(maze).adj(), root@) == visited_count(old(maze).adj(), root@) + 1
            && growing(final(maze).adj(), final(maze).cols() as int, root@) && final(maze).adj()[root@].len() > 0,
{
    let ghost m0 = *maze;
    let ghost a0 = old(maze).adj();
    let ghost n = old(maze).n();
    let ghost cols = old(maze).cols() as int;
    let ghost root = root@;
    proof {
        maze.lemma_wf();
    }
    let len = maze.len();
    let mut i: usize = 0;
    let mut found: Option<GridNode> = None;
    while i < len && found.is_none()
        invariant
            maze.wf(),
            m0 == *old(maze),
            forall|i: int| 0 <= i < n ==> #[trigger] maze.weight_of(i) == m0.weight_of(i),
            maze.rows() == old(maze).rows(),
            maze.cols() == old(maze).cols(),
            n == maze.n(),
            len == n,
            cols == maze.cols(),
            i <= len,
            growing(a0, cols, root),
            found is None ==> maze.adj() == a0,
            found is None ==> forall|j: int, b: int| 0 <= j < i && #[trigger] adjacent(n, cols, j, b) && a0[j].len() == 0 ==> a0[b].len() == 0,
            found matches Some(c) ==> c.pos_spec() < n && visited(maze.adj(), root, c.pos_spec() as int)
                && visited_count(maze.adj(), root) == visited_count(a0, root) + 1
                && growing(maze.adj(), cols, root) && maze.adj()[root].len() > 0,
        decreases len - i,
    {
        if let Some(nb) = hunt_candidate(maze, i) {
            let hunted = maze.node(i).unwrap();
            proof {
                crate::links::lemma_adjacent_symmetric(n, cols, i as int, nb.pos_spec() as int);
                maze.lemma_wf();
                assert(a0[root].len() > 0) by {
                    assert(visited(a0, root, nb.pos_spec() as int));
                    if nb.pos_spec() != root {
                        crate::paths::lemma_reach_leaves(a0, root, nb.pos_spec() as int);
                    }
                }
            }
            let ghost before = *maze;
            crate::generator::grow_link(&mut *maze, &nb, &hunted, Ghost(root));
            proof {
                assert forall|j: int| 0 <= j < n implies #[trigger] maze.weight_of(j) == m0.weight_of(j) by {
                    assert(maze.weight_of(j) == before.weight_of(j));
                }
                assert(a0[root].contains(a0[root][0]));
                assert(maze.adj()[root].contains(a0[root][0]));
            }
            found = Some(hunted);
        }
        i = i + 1;
    }
    found
}

/// Generates a `height` by `width` perfect maze by hunt-and-kill.
pub fn generate(height: usize, width: usize) -> (maze: GridMaze)
    requires
        height >= 1,
        width >= 1,
        height * width <= usize::MAX,
    ensures
        maze.wf(),
        maze.rows() == height,
        maze.cols() == width,
        perfect(maze.adj(), maze.cols() as int),
        unit_weights(&maze),
{
    let mut maze = GridMaze::new(height, width);
    let start = maze.random_node();
    let ghost root = start.pos_spec() as int;
    let ghost n = maze.n();
    let ghost cols = maze.cols() as int;
    proof {
        maze.lemma_wf();
        lemma_growing_start(maze.adj(), cols, root);
    }
    let mut next_node: Option<GridNode> = Some(start);
    while next_node.is_some()
        invariant
            maze.wf(),
            unit_weights(&maze),
            maze.rows() == height,
            maze.cols() == width,
            n == maze.n(),
            cols == width,
            n == height * width,
            0 <= root < n,
            growing(maze.adj(), cols, root),
            next_node matches Some(c) ==> c.pos_spec() < n && visited(maze.adj(), root, c.pos_spec() as int),
            next_node is None ==> forall|c: int| 0 <= c < n ==> #[trigger] visited(maze.adj(), root, c),
        decreases (n - visited_count(maze.adj(), root)) * 2 + (if next_node is Some { 1int } else { 0int }),
    {
        proof {
            lemma_count_bound(n, |c: int| visited(maze.adj(), root, c));
        }
        let cur = next_node.unwrap();
        let ghost c0 = visited_count(maze.adj(), root);
        let unvisited = unvisited_neighbors(&maze, &cur);
        proof {
            maze.lemma_wf();
            assert(visited(maze.adj(), root, cur.pos_spec() as int));
            if cur.pos_spec() != root {
                crate::paths::lemma_reach_leaves(maze.adj(), root, cur.pos_spec() as int);
            }
        }
        match pick(&unvisited) {
            Some(nb) => {
                let ghost k = choose|k: int| 0 <= k < unvisited@.len() && unvisited@[k] == nb;
                assert(unvisited@[k] == nb);
                proof {
                    maze.lemma_wf();
                    crate::links::lemma_adjacent_in_range(n, cols, cur.pos_spec() as int, nb.pos_spec() as int);
                }
                crate::generator::grow_link(&mut maze, &cur, &nb, Ghost(root));
                next_node = Some(nb);
                assert(visited_count(maze.adj(), root) == c0 + 1);
            },
            None => {
                let ghost a0 = maze.adj();
                next_node = hunt(&mut maze, Ghost(root));
                proof {
                    if next_node is None {
                        maze.lemma_wf();
                        if a0[root].len() == 0 {
                            assert forall|b: int| #[trigger] adjacent(a0.len() as int, cols, root, b) implies a0[b].len() > 0 by {
                                if a0[b].len() == 0 {
                                    let x = choose|x: int| 0 <= x < unvisited@.len() && (#[trigger] unvisited@[x]).pos_spec() == b;
                                }
                            }
                        }
                        lemma_hunt_failed(a0, height as int, width as int, root);
                    } else {
                        assert(visited_count(maze.adj(), root) == c0 + 1);
                    }
                }
            },
        }
        proof {
            maze.lemma_wf();
            lemma_count_bound(n, |c: int| visited(maze.adj(), root, c));
        }
    }
    proof {
        maze.lemma_wf();
        lemma_growing_done(maze.adj(), cols, root);
    }
    maze
}

} // verus!
