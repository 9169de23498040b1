use mazes::error::MazeError;
use mazes::grid::Grid;
use mazes::position::Pos;

#[test]
fn should_create_new_grid() {
    let grid = Grid::new(3, 3);
    assert_eq!(grid.rows, 3);
    assert_eq!(grid.cols, 3);
    assert_eq!(grid.iter_cells().len(), 9);
}

#[test]
fn pos_0_0_should_not_have_north_neighbor() {
    let grid = Grid::new(3, 3);
    let pos = Pos::new(0, 0);
    assert_eq!(grid.cell(pos).unwrap().north(), None);
}

#[test]
fn pos_2_1_should_not_have_south_neighbor() {
    let grid = Grid::new(3, 3);
    let pos = Pos::new(2, 1);
    assert_eq!(grid.cell(pos).unwrap().south(), None);
}

#[test]
fn pos_0_0_should_not_have_west_neighbor() {
    let grid = Grid::new(3, 3);
    let pos = Pos::new(0, 0);
    assert_eq!(grid.cell(pos).unwrap().west(), None);
}

#[test]
fn pos_0_2_should_not_have_east_neighbor() {
    let grid = Grid::new(3, 3);
    let pos = Pos::new(0, 2);
    assert_eq!(grid.cell(pos).unwrap().east(), None);
}

#[test]
fn pos_1_1_should_have_all_neigbors() {
    let grid = Grid::new(3, 3);
    let pos = Pos::new(1, 1);
    assert_eq!(grid.cell(pos).unwrap().north(), Some(Pos::new(0, 1)));
    assert_eq!(grid.cell(pos).unwrap().south(), Some(Pos::new(2, 1)));
    assert_eq!(grid.cell(pos).unwrap().east(), Some(Pos::new(1, 2)));
    assert_eq!(grid.cell(pos).unwrap().west(), Some(Pos::new(1, 0)));
}

#[test]
fn grid_size_is_15() {
    let grid = Grid::new(3, 5);
    assert_eq!(grid.size(), 15);
}

#[test]
fn should_iterate_over_rows() {
    let grid = Grid::new(3, 3);
    let ri = grid.row_iter();
    // should return three total rows
    assert_eq!(ri.len(), 3);
}

#[test]
fn should_bidi_link_one_from_pos_to_one_to_pos() {
    let mut grid = Grid::new(3, 3);
    let from = Pos::new(0, 0);
    let to = Pos::new(0, 1);
    grid.link(&from, &to, true);
    assert!(!grid.links(&from).is_empty());
    assert!(grid.links(&from).contains(&to));
    assert!(!grid.links(&to).is_empty());
    assert!(grid.links(&to).contains(&from));
}

#[test]
fn should_bidi_link_one_from_position_to_two_to_positions() {
    let mut grid = Grid::new(3, 3);
    let from = Pos::new(0, 0);
    let to1 = Pos::new(0, 1);
    let to2 = Pos::new(1, 0);
    grid.link(&from, &to1, true);
    grid.link(&from, &to2, true);
    assert!(!grid.links(&from).is_empty());
    assert!(grid.links(&from).contains(&to1));
    assert!(grid.links(&from).contains(&to2));
    assert!(!grid.links(&to1).is_empty());
    assert!(grid.links(&to1).contains(&from));
    assert!(grid.links(&to2).contains(&from));
}

#[test]
fn should_unlink_one_to_one() {
    let mut grid = Grid::new(3, 3);
    let from = Pos::new(0, 0);
    let to = Pos::new(0, 1);
    grid.link(&from, &to, true);
    assert!(!grid.links(&from).is_empty());
    assert!(grid.links(&from).contains(&to));
    assert!(!grid.links(&to).is_empty());
    assert!(grid.links(&to).contains(&from));
    grid.unlink(&from, &to, true);
    assert_eq!(!grid.links(&from).is_empty(), false);
    assert_eq!(!grid.links(&to).is_empty(), false);
}

#[test]
fn should_unlink_a_pos_containing_two_pos() {
    let mut grid = Grid::new(3, 3);
    let from = Pos::new(0, 0);
    let to1 = Pos::new(0, 1);
    let to2 = Pos::new(1, 0);
    grid.link(&from, &to1, true);
    grid.link(&from, &to2, true);
    assert!(!grid.links(&from).is_empty());
    assert!(grid.links(&from).contains(&to1));
    assert!(grid.links(&from).contains(&to2));
    grid.unlink(&from, &to1, true);
    // the grid should still contain a link from `from` to `to2`
    assert!(!grid.links(&from).is_empty());
    assert!(grid.links(&from).contains(&to2));
}

#[test]
fn grid_cell_outside_is_out_of_bounds() {
    let grid = Grid::new(2, 3);
    assert_eq!(grid.cell(Pos::new(2, 0)).err(), Some(MazeError::OutOfBounds));
    assert_eq!(grid.cell(Pos::new(0, 3)).err(), Some(MazeError::OutOfBounds));
    assert_eq!(Grid::try_new(0, 1).err(), Some(MazeError::InvalidDimensions));
    assert!(Grid::try_new(1, 1).is_ok());
}

#[test]
fn grid_unlink_one_way_keeps_the_other() {
    let mut grid = Grid::new(2, 2);
    let a = Pos::new(0, 0);
    let b = Pos::new(1, 0);
    grid.link(&a, &b, true);
    grid.unlink(&a, &b, false);
    assert!(!grid.has_link(&a, &b));
    assert!(grid.has_link(&b, &a));
}

#[test]
fn grid_dead_ends_and_random_pos() {
    let mut grid = Grid::new(2, 2);
    grid.link(&Pos::new(0, 0), &Pos::new(0, 1), true);
    grid.link(&Pos::new(0, 1), &Pos::new(1, 1), true);
    assert_eq!(grid.dead_ends(), vec![Pos::new(0, 0), Pos::new(1, 1)]);
    for _ in 0..50 {
        let p = grid.random_pos();
        assert!(p.r < 2 && p.c < 2);
    }
}

#[test]
fn grid_neighbors_of_corner() {
    let grid = Grid::new(3, 3);
    assert_eq!(grid.neighbors_of(&Pos::new(0, 0)), vec![Pos::new(1, 0), Pos::new(0, 1)]);
    assert_eq!(
        grid.neighbors_of(&Pos::new(1, 1)),
        vec![Pos::new(0, 1), Pos::new(2, 1), Pos::new(1, 2), Pos::new(1, 0)]
    );
}

#[test]
fn linking_twice_records_the_link_once() {
    let mut grid = Grid::new(2, 2);
    let a = Pos::new(0, 0);
    let b = Pos::new(0, 1);
    grid.link(&a, &b, true);
    grid.link(&a, &b, true);
    grid.link(&a, &b, false);
    assert_eq!(grid.links(&a), vec![b]);
    assert_eq!(grid.links(&b), vec![a]);
}
