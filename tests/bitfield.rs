use mazes::bitfield::binary_tree;
use mazes::bitfield::direction::Direction;
use mazes::bitfield::maze::Maze;
use mazes::bitfield::recursive_backtracking::recursive_backtracking;

#[test]
fn directions_have_their_bits_and_opposites() {
    assert_eq!(Direction::N.bits(), 1);
    assert_eq!(Direction::S.bits(), 2);
    assert_eq!(Direction::E.bits(), 4);
    assert_eq!(Direction::W.bits(), 8);
    assert_eq!(Direction::E.dx(), 1);
    assert_eq!(Direction::W.dx(), -1);
    assert_eq!(Direction::N.dy(), -1);
    assert_eq!(Direction::S.dy(), 1);
    assert_eq!(Direction::N.opposite(), Direction::S);
    assert_eq!(Direction::E.opposite(), Direction::W);
}

#[test]
fn bitfield_maze_neighbors_and_carving() {
    let mut maze = Maze::new(3, 2);
    assert!(maze.in_bounds(2, 1));
    assert!(!maze.in_bounds(3, 0));
    assert_eq!(maze.neighbors(0, 0), vec![(0, 1), (1, 0)]);
    assert_eq!(maze.neighbors(1, 1), vec![(1, 0), (0, 1), (2, 1)]);
    assert_eq!(Maze::carve_passage(0, 0, 1, 0), Direction::E);
    assert_eq!(Maze::carve_passage(1, 0, 0, 0), Direction::W);
    assert_eq!(Maze::carve_passage(0, 0, 0, 1), Direction::S);
    assert_eq!(Maze::carve_passage(0, 1, 0, 0), Direction::N);
    maze.carve(1, 1, Direction::E);
    assert_eq!(maze.is_carved(1, 1, Direction::E), Some(true));
    assert_eq!(maze.is_carved(1, 1, Direction::W), Some(false));
    assert_eq!(maze.is_carved(5, 1, Direction::W), None);
    assert_eq!(maze.cell(1, 1), 4);
}

#[test]
fn bitfield_binary_tree_carves_east_or_south() {
    let maze = binary_tree::generate(4, 3);
    for y in 0..3 {
        for x in 0..4 {
            let v = maze.cell(x, y);
            if x == 3 && y == 2 {
                assert_eq!(v, 0);
            } else if x == 3 {
                assert_eq!(v, 2);
            } else if y == 2 {
                assert_eq!(v, 4);
            } else {
                assert!(v == 2 || v == 4);
            }
        }
    }
}

#[test]
fn bitfield_backtracking_carves_every_cell() {
    let maze = recursive_backtracking(5, 4);
    for y in 0..4 {
        for x in 0..5 {
            assert_ne!(maze.cell(x, y), 0);
        }
    }
}
