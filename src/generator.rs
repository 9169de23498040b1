//! Maze generators. Each builds a maze of the given size from an unlinked grid.
use vstd::prelude::*;
use crate::grid_maze::GridMaze;
use crate::grid_node::GridNode;
use crate::links::{adjacent, links_grow, lemma_adjacent_in_range};
use crate::perfect::{growing, visited, visited_count, lemma_growing_step};

pub mod hunt_kill;
pub mod recursive_backtracker;
pub mod prims;
pub mod aldous_broder;
pub mod binary_tree;
pub mod recursive_division;
pub mod sidewinder;
pub mod wilsons;
pub mod regions;

verus! {

/// Carves the passage pair between the visited cell `from` and its unvisited neighbour `to`,
/// growing the tree rooted at `root` by one cell.
pub(crate) fn grow_link(maze: &mut GridMaze, from: &GridNode, to: &GridNode, root: Ghost<int>)
    requires
        old(maze).wf(),
        growing(old(maze).adj(), old(maze).cols() as int, root@),
        from.pos_spec() < old(maze).n(),
        visited(old(maze).adj(), root@, from.pos_spec() as int),
        !visited(old(maze).adj(), root@, to.pos_spec() as int),
        adjacent(old(maze).n(), old(maze).cols() as int, from.pos_spec() as int, to.pos_spec() as int),
    ensures
        final(maze).wf(),
        final(maze).rows() == old(maze).rows(),
        final(maze).cols() == old(maze).cols(),
        final(maze).n() == old(maze).n(),
        forall|i: int| 0 <= i < old(maze).n() ==> #[trigger] final(maze).weight_of(i) == old(maze).weight_of(i),
        growing(final(maze).adj(), final(maze).cols() as int, root@),
        visited_count(final(maze).adj(), root@) == visited_count(old(maze).adj(), root@) + 1,
        visited(final(maze).adj(), root@, to.pos_spec() as int),
        final(maze).adj()[from.pos_spec() as int].len() > 0,
        links_grow(old(maze).adj(), final(maze).adj()),
        forall|c: int| 0 <= c < old(maze).n() && c != to.pos_spec() ==> (#[trigger] visited(final(maze).adj(), root@, c)
            <==> visited(old(maze).adj(), root@, c)),
{
    proof {
        maze.lemma_wf();
        lemma_adjacent_in_range(maze.n(), maze.cols() as int, from.pos_spec() as int, to.pos_spec() as int);
    }
    let ghost a0 = maze.adj();
    maze.link(from, to, true);
    proof {
        let a1 = maze.adj();
        assert(a1[from.pos_spec() as int] == a0[from.pos_spec() as int].push(to.pos_spec()));
        lemma_growing_step(a0, a1, maze.cols() as int, root@, from.pos_spec() as int, to.pos_spec() as int);
    }
}

} // verus!
