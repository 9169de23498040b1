use mazes::error::MazeError;
use mazes::generator::{binary_tree, recursive_backtracker};
use mazes::grid_maze::GridMaze;
use mazes::solver::find_shortest_path;

fn dead_end_count(maze: &GridMaze) -> usize {
    maze.dead_ends().len()
}

fn connected(maze: &GridMaze) -> bool {
    let root = maze.node(0).unwrap();
    let d = maze.distances(&root);
    (0..maze.len()).all(|i| d.get(&maze.node(i).unwrap()).is_some())
}

#[test]
fn braiding_everything_removes_dead_ends_and_keeps_connection() {
    for _ in 0..20 {
        let mut maze = recursive_backtracker::generate(6, 6);
        let before = dead_end_count(&maze);
        assert!(before > 0);
        maze.braid(1, 1);
        assert!(dead_end_count(&maze) < before);
        assert!(connected(&maze));
    }
}

#[test]
fn braiding_never_is_a_no_op() {
    let mut maze = recursive_backtracker::generate(5, 5);
    let before: Vec<usize> = (0..maze.len()).map(|i| maze.get_links(&maze.node(i).unwrap()).len()).collect();
    maze.braid(0, 1);
    let after: Vec<usize> = (0..maze.len()).map(|i| maze.get_links(&maze.node(i).unwrap()).len()).collect();
    assert_eq!(before, after);
}

#[test]
fn distances_start_at_zero_and_follow_links() {
    let mut maze = recursive_backtracker::generate(5, 5);
    maze.set_weight(7, 4);
    maze.set_weight(12, 3);
    let root = maze.node(0).unwrap();
    let d = maze.distances(&root);
    assert_eq!(d.get(&root), Some(&0));
    for i in 0..maze.len() {
        let c = maze.node(i).unwrap();
        let dc = *d.get(&c).unwrap();
        for n in maze.get_links(&c) {
            assert!(*d.get(&n).unwrap() <= dc + n.weight() as i32);
        }
        if i != 0 {
            assert!(maze
                .get_links(&c)
                .iter()
                .any(|n| *d.get(n).unwrap() + c.weight() as i32 == dc));
        }
    }
}

#[test]
fn distances_of_a_corridor() {
    let mut maze = GridMaze::new(1, 4);
    let nodes: Vec<_> = (0..4).map(|i| maze.node(i).unwrap()).collect();
    maze.link(&nodes[0], &nodes[1], true);
    maze.link(&nodes[1], &nodes[2], true);
    maze.set_weight(2, 5);
    let d = maze.distances(&maze.node(0).unwrap());
    assert_eq!(d.get(&nodes[0]), Some(&0));
    assert_eq!(d.get(&nodes[1]), Some(&1));
    assert_eq!(d.get(&nodes[2]), Some(&6));
    assert_eq!(d.get(&nodes[3]), None);
}

#[test]
fn one_cell_distances() {
    let maze = binary_tree::generate(1, 1);
    let d = maze.distances(&maze.node(0).unwrap());
    assert_eq!(d.get(&maze.node(0).unwrap()), Some(&0));
}

#[test]
fn shortest_path_on_a_3x3_binary_tree() {
    for _ in 0..20 {
        let maze = binary_tree::generate(3, 3);
        let start = maze.node(0).unwrap();
        let goal = maze.node(8).unwrap();
        let full = maze.distances(&start);
        let path = find_shortest_path(&maze, start, goal).unwrap();
        assert_eq!(path.get(&start), Some(&0));
        assert_eq!(path.get(&goal), full.get(&goal));
        let on_path: Vec<usize> = (0..9).filter(|&i| path.get(&maze.node(i).unwrap()).is_some()).collect();
        // one cell per step of distance, every weight being 1
        assert_eq!(on_path.len() as i32, *full.get(&goal).unwrap() + 1);
        let mut dists: Vec<i32> = on_path.iter().map(|&i| *path.get(&maze.node(i).unwrap()).unwrap()).collect();
        dists.sort();
        assert_eq!(dists, (0..on_path.len() as i32).collect::<Vec<i32>>());
    }
}

#[test]
fn shortest_path_to_an_unreachable_goal_fails() {
    let mut maze = GridMaze::new(2, 2);
    let a = maze.node(0).unwrap();
    let b = maze.node(1).unwrap();
    maze.link(&a, &b, true);
    let goal = maze.node(3).unwrap();
    assert_eq!(find_shortest_path(&maze, a, goal).err(), Some(MazeError::Unreachable));
}

#[test]
fn braiding_everything_leaves_no_dead_end() {
    for _ in 0..20 {
        let mut maze = recursive_backtracker::generate(5, 7);
        maze.braid(1, 1);
        assert_eq!(dead_end_count(&maze), 0);
    }
}

#[test]
fn shortest_path_records_only_path_cells() {
    let mut maze = GridMaze::new(2, 3);
    let n: Vec<_> = (0..6).map(|i| maze.node(i).unwrap()).collect();
    // a U-shaped corridor 0-1-2-5-4-3, plus a dead-end spur off nothing else
    maze.link(&n[0], &n[1], true);
    maze.link(&n[1], &n[2], true);
    maze.link(&n[2], &n[5], true);
    maze.link(&n[5], &n[4], true);
    maze.link(&n[0], &n[3], true);
    let path = find_shortest_path(&maze, n[0], n[2]).unwrap();
    let on_path: Vec<usize> = (0..6).filter(|&i| path.get(&n[i]).is_some()).collect();
    assert_eq!(on_path, vec![0, 1, 2]);
    assert_eq!(path.get(&n[2]), Some(&2));
}
