use mazes::error::MazeError;
use mazes::grid_maze::GridMaze;

#[test]
fn create_new_maze_with_9_nodes() {
    let maze = GridMaze::new(3, 3);
    assert_eq!(maze.iter_nodes().len(), 9);
}

#[test]
fn should_create_new_maze_with_all_nodes_of_weight_1() {
    let maze = GridMaze::new(3, 3);
    for node in maze.iter_nodes() {
        assert_eq!(node.weight(), 1);
    }
}

#[test]
fn maze_has_3x4_dimension() {
    let maze = GridMaze::new(3, 4);
    let (r, c) = maze.dimensions();
    assert_eq!(r, 3);
    assert_eq!(c, 4);
}

#[test]
fn grid_maze_should_bi_link_two_nodes() {
    let mut maze = GridMaze::new(3, 3);
    let n1 = maze.node(0).unwrap();
    let n2 = maze.node(1).unwrap();
    maze.link(&n1, &n2, true);
    assert!(!maze.get_links(&n1).is_empty());
    assert!(maze.has_link(&n1, &n2));
    assert!(!maze.get_links(&n2).is_empty());
    assert!(maze.has_link(&n2, &n1));
}

#[test]
fn grid_maze_should_get_links() {
    let mut maze = GridMaze::new(3, 3);
    let n00 = maze.node(0).unwrap();
    let n01 = maze.node(1).unwrap();
    let n10 = maze.node(3).unwrap();
    maze.link(&n00, &n01, true);
    maze.link(&n00, &n10, true);
    let n0_links = maze.get_links(&n00);
    assert_eq!(n0_links.len(), 2);
}

#[test]
fn grid_maze_should_index_into_graph() {
    let maze = GridMaze::new(3, 3);
    // the node at row 1, column 1 has the one-dimensional index 4
    let node11 = maze.node(4).unwrap();
    assert_eq!(node11.pos(), 4);
}

#[test]
fn grid_maze_node_0_should_not_have_north_neighbor() {
    let maze = GridMaze::new(3, 3);
    let node0 = maze.node(0).unwrap();
    assert_eq!(maze.north(&node0), None);
}

#[test]
fn grid_maze_node_0_should_not_have_west_neighbor() {
    let maze = GridMaze::new(3, 3);
    let node0 = maze.node(0).unwrap();
    assert_eq!(maze.west(&node0), None);
}

#[test]
fn grid_maze_node_6_should_have_north_neighbor() {
    let maze = GridMaze::new(3, 3);
    let node6 = maze.node(6).unwrap();
    assert_eq!(maze.north(&node6), Some(maze.node(3).unwrap()));
}

#[test]
fn grid_maze_node_2_should_not_have_east_neighbor() {
    let maze = GridMaze::new(3, 3);
    let node = maze.node(2).unwrap();
    assert_eq!(maze.east(&node), None);
}

#[test]
fn grid_maze_node_3_should_have_east_neighbor() {
    let maze = GridMaze::new(3, 3);
    let node = maze.node(3).unwrap();
    assert_eq!(maze.east(&node), Some(maze.node(4).unwrap()));
}

#[test]
fn grid_maze_node_8_should_not_have_east_neighbor() {
    let maze = GridMaze::new(3, 3);
    let node = maze.node(8).unwrap();
    assert_eq!(maze.east(&node), None);
}

#[test]
fn grid_maze_node_4_should_have_all_neighbors() {
    let maze = GridMaze::new(3, 3);
    let node = maze.node(4).unwrap();
    assert_eq!(maze.east(&node), Some(maze.node(5).unwrap()));
    assert_eq!(maze.north(&node), Some(maze.node(1).unwrap()));
    assert_eq!(maze.west(&node), Some(maze.node(3).unwrap()));
    assert_eq!(maze.south(&node), Some(maze.node(7).unwrap()));
}

#[test]
fn grid_maze_should_display_maze_with_link_from_00_to_01() {
    let mut maze = GridMaze::new(4, 4);
    let n00 = maze.node(0).unwrap();
    let n01 = maze.node(1).unwrap();
    maze.link(&n00, &n01, true);
    println!("{:?}", &maze);
}

#[test]
fn grid_maze_try_new_rejects_zero_dimensions() {
    assert_eq!(GridMaze::try_new(0, 3).err(), Some(MazeError::InvalidDimensions));
    assert_eq!(GridMaze::try_new(3, 0).err(), Some(MazeError::InvalidDimensions));
    assert_eq!(GridMaze::try_new(usize::MAX, 2).err(), Some(MazeError::InvalidDimensions));
    assert_eq!(GridMaze::try_new(2, 3).unwrap().len(), 6);
}

#[test]
fn grid_maze_get2d_outside_is_none() {
    let maze = GridMaze::new(2, 3);
    assert_eq!(maze.get2d(1, 2).unwrap().pos(), 5);
    assert!(maze.get2d(2, 0).is_none());
    assert!(maze.get2d(0, 3).is_none());
    assert!(maze.node(6).is_none());
    assert_eq!(GridMaze::idx_1d(1, 2, 3), 5);
}

#[test]
fn grid_maze_unlink_removes_both_directions() {
    let mut maze = GridMaze::new(2, 2);
    let a = maze.node(0).unwrap();
    let b = maze.node(1).unwrap();
    let c = maze.node(2).unwrap();
    maze.link(&a, &b, true);
    maze.link(&a, &b, true);
    maze.link(&a, &c, true);
    maze.unlink(&a, &b);
    assert!(!maze.has_link(&a, &b));
    assert!(!maze.has_link(&b, &a));
    assert!(maze.has_link(&a, &c));
    assert_eq!(maze.get_links(&a).len(), 1);
}

#[test]
fn grid_maze_dead_ends_in_row_order() {
    let mut maze = GridMaze::new(1, 3);
    let a = maze.node(0).unwrap();
    let b = maze.node(1).unwrap();
    let c = maze.node(2).unwrap();
    maze.link(&a, &b, true);
    maze.link(&b, &c, true);
    let ends: Vec<usize> = maze.dead_ends().iter().map(|n| n.pos()).collect();
    assert_eq!(ends, vec![0, 2]);
}

#[test]
fn grid_maze_neighbors_in_compass_order() {
    let maze = GridMaze::new(3, 3);
    let center = maze.node(4).unwrap();
    let ns: Vec<usize> = maze.neighbors(&center).iter().map(|n| n.pos()).collect();
    assert_eq!(ns, vec![1, 5, 7, 3]);
    let corner = maze.node(8).unwrap();
    let ns: Vec<usize> = maze.neighbors(&corner).iter().map(|n| n.pos()).collect();
    assert_eq!(ns, vec![5, 7]);
}

#[test]
fn grid_maze_rows_and_random_node() {
    let mut maze = GridMaze::new(2, 3);
    assert_eq!(maze.iter_rows().len(), 2);
    assert_eq!(maze.iter_rows()[1].len(), 3);
    assert_eq!(maze.iter_rows()[1][0].pos(), 3);
    for _ in 0..50 {
        assert!(maze.random_node().pos() < 6);
    }
    maze.set_weight(2, 9);
    assert_eq!(maze.node(2).unwrap().weight(), 9);
    assert!(!maze.is_empty());
}

#[test]
fn grid_maze_linking_twice_records_the_link_once() {
    let mut maze = GridMaze::new(2, 2);
    let a = maze.node(0).unwrap();
    let b = maze.node(1).unwrap();
    maze.link(&a, &b, true);
    maze.link(&b, &a, true);
    assert_eq!(maze.get_links(&a).len(), 1);
    assert_eq!(maze.get_links(&b).len(), 1);
}
