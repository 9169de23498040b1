use std::collections::VecDeque;

use mazes::generator::{aldous_broder, binary_tree, hunt_kill, prims, recursive_backtracker, recursive_division, sidewinder, wilsons};
use mazes::grid::Grid;
use mazes::grid_maze::GridMaze;
use mazes::position::Pos;

/// The link lists of a maze, by cell index.
fn maze_links(maze: &GridMaze) -> Vec<Vec<usize>> {
    (0..maze.len())
        .map(|i| maze.get_links(&maze.node(i).unwrap()).iter().map(|n| n.pos()).collect())
        .collect()
}

/// The link lists of a grid, by cell index.
fn grid_links(grid: &Grid) -> Vec<Vec<usize>> {
    let mut out = vec![];
    for r in 0..grid.rows {
        for c in 0..grid.cols {
            out.push(grid.links(&Pos::new(r, c)).iter().map(|p| p.r * grid.cols + p.c).collect());
        }
    }
    out
}

fn adjacent(cols: usize, a: usize, b: usize) -> bool {
    (a + cols == b) || (b + cols == a) || (a + 1 == b && b % cols != 0) || (b + 1 == a && a % cols != 0)
}

fn reached_from(links: &[Vec<usize>], start: usize) -> usize {
    let mut seen = vec![false; links.len()];
    let mut queue = VecDeque::new();
    seen[start] = true;
    queue.push_back(start);
    let mut count = 1;
    while let Some(x) = queue.pop_front() {
        for &y in &links[x] {
            if !seen[y] {
                seen[y] = true;
                count += 1;
                queue.push_back(y);
            }
        }
    }
    count
}

fn assert_perfect(links: &[Vec<usize>], cols: usize) {
    let n = links.len();
    let total: usize = links.iter().map(|l| l.len()).sum();
    assert_eq!(total, 2 * (n - 1));
    for (a, l) in links.iter().enumerate() {
        for &b in l {
            assert!(adjacent(cols, a, b), "link {} -> {} joins cells that are not neighbours", a, b);
            assert!(links[b].contains(&a));
        }
    }
    for s in 0..n {
        assert_eq!(reached_from(links, s), n);
    }
}

#[test]
fn binary_tree_mazes_are_perfect() {
    for _ in 0..20 {
        let maze = binary_tree::generate(5, 7);
        assert_perfect(&maze_links(&maze), 7);
    }
}

#[test]
fn binary_tree_2x2_has_three_links_and_no_disconnected_cell() {
    for _ in 0..20 {
        let maze = binary_tree::generate(2, 2);
        let links = maze_links(&maze);
        let pairs: usize = links.iter().map(|l| l.len()).sum::<usize>() / 2;
        assert_eq!(pairs, 3);
        assert_eq!(reached_from(&links, 0), 4);
    }
}

#[test]
fn sidewinder_mazes_are_perfect() {
    for _ in 0..20 {
        let grid = sidewinder::generate(6, 5);
        assert_perfect(&grid_links(&grid), 5);
    }
}

#[test]
fn aldous_broder_mazes_are_perfect() {
    for _ in 0..10 {
        let maze = aldous_broder::generate(6, 6);
        assert_perfect(&maze_links(&maze), 6);
    }
}

#[test]
fn wilsons_mazes_are_perfect() {
    for _ in 0..10 {
        let grid = wilsons::generate(5, 6);
        assert_perfect(&grid_links(&grid), 6);
    }
}

#[test]
fn hunt_kill_mazes_are_perfect() {
    for _ in 0..10 {
        let maze = hunt_kill::generate(7, 4);
        assert_perfect(&maze_links(&maze), 4);
    }
}

#[test]
fn recursive_backtracker_mazes_are_perfect() {
    for _ in 0..10 {
        let maze = recursive_backtracker::generate(4, 9);
        assert_perfect(&maze_links(&maze), 9);
    }
}

#[test]
fn prims_mazes_are_perfect_with_weights_up_to_100() {
    for _ in 0..10 {
        let maze = prims::generate(6, 5);
        assert_perfect(&maze_links(&maze), 5);
        for node in maze.iter_nodes() {
            assert!(1 <= node.weight() && node.weight() <= 100);
        }
    }
}

#[test]
fn recursive_division_mazes_are_perfect() {
    for _ in 0..10 {
        let maze = recursive_division::generate(6, 7);
        assert_perfect(&maze_links(&maze), 7);
    }
}

#[test]
fn one_cell_mazes_have_no_links() {
    let mazes = vec![
        binary_tree::generate(1, 1),
        aldous_broder::generate(1, 1),
        hunt_kill::generate(1, 1),
        recursive_backtracker::generate(1, 1),
        prims::generate(1, 1),
        recursive_division::generate(1, 1),
    ];
    for maze in &mazes {
        assert_eq!(maze.len(), 1);
        assert!(maze.get_links(&maze.node(0).unwrap()).is_empty());
    }
    assert!(sidewinder::generate(1, 1).links(&Pos::new(0, 0)).is_empty());
    assert!(wilsons::generate(1, 1).links(&Pos::new(0, 0)).is_empty());
}

#[test]
fn single_row_and_column_mazes_are_corridors() {
    let maze = hunt_kill::generate(1, 6);
    assert_perfect(&maze_links(&maze), 6);
    let maze = binary_tree::generate(5, 1);
    assert_perfect(&maze_links(&maze), 1);
    let grid = wilsons::generate(1, 4);
    assert_perfect(&grid_links(&grid), 4);
}
