use std::collections::hash_map::DefaultHasher;
use std::hash::{Hash, Hasher};

use mazes::distances::Distances;
use mazes::grid_cell::GridCell;
use mazes::grid_node::GridNode;
use mazes::position::Pos;
use mazes::weighted::Weighted;

#[test]
fn grid_node_should_create_new_node() {
    let node = GridNode::new(1, 125);
    assert_eq!(node.pos(), 1);
    assert_eq!(node.weight(), 125);
}

#[test]
fn equal_pos_should_hash_to_equal_hashes() {
    let mut hasher = DefaultHasher::new();
    let node1 = GridNode::new(1, 111);
    let node2 = GridNode::new(1, 222);
    node1.hash(&mut hasher);

    let mut hasher2 = DefaultHasher::new();
    node2.hash(&mut hasher2);
    assert_eq!(hasher.finish(), hasher2.finish());
}

#[test]
fn should_iterate_to_last_pos() {
    assert_eq!(Pos::iter(3, 3).last().unwrap(), Pos::new(2, 2));
}

#[test]
fn position_iter_walks_in_row_order() {
    let mut it = Pos::iter(2, 3);
    let mut seen = vec![];
    while let Some(p) = it.next_pos() {
        seen.push(p);
    }
    assert_eq!(seen.len(), 6);
    assert_eq!(seen[0], Pos::new(0, 0));
    assert_eq!(seen[4], Pos::new(1, 1));
    assert_eq!(it.last(), None);
    assert_eq!(Pos::iter(0, 3).last(), None);
}

#[test]
fn grid_node_equality_ignores_weight() {
    let mut a = GridNode::new(3, 1);
    let b = GridNode::new(3, 7);
    assert_eq!(a, b);
    a.set_pos(4);
    a.set_weight(9);
    assert_ne!(a, b);
    assert_eq!(a.weight(), 9);
}

#[test]
fn grid_cell_accessors_and_equality() {
    let mut cell = GridCell::new(Pos::new(1, 1), Some(Pos::new(0, 1)), None, Some(Pos::new(1, 2)), None, 4);
    assert_eq!(cell.neighbors(), vec![Pos::new(0, 1), Pos::new(1, 2)]);
    assert_eq!(cell.weight(), 4);
    cell.set_weight(6);
    assert_eq!(cell.weight(), 6);
    let empty = GridCell::empty(Pos::new(1, 1));
    assert_eq!(empty.weight(), 1);
    assert!(empty.neighbors().is_empty());
    assert_eq!(cell, empty);
    assert_eq!(cell.pos(), Pos::new(1, 1));
}

#[test]
fn distances_insert_and_get() {
    let root = GridNode::new(2, 1);
    let mut d = Distances::new(root);
    assert_eq!(d.get(&root), Some(&0));
    assert_eq!(d.get(&GridNode::new(7, 1)), None);
    d.insert(GridNode::new(7, 1), 12);
    assert_eq!(d.get(&GridNode::new(7, 5)), Some(&12));
    d.insert(GridNode::new(7, 1), 3);
    assert_eq!(d.get(&GridNode::new(7, 1)), Some(&3));
    assert_eq!(d.root().pos(), 2);
}

#[test]
fn pos_from_tuple() {
    let p: Pos = (2, 5).into();
    assert_eq!(p, Pos::new(2, 5));
    assert_eq!(Pos::from((0, 1)), Pos { r: 0, c: 1 });
}

struct Parcel {
    grams: u32,
}

impl Weighted<u32> for Parcel {
    fn weight(&self) -> &u32 {
        &self.grams
    }

    fn set_weight(&mut self, new_weight: u32) {
        self.grams = new_weight;
    }
}

#[test]
fn weighted_can_be_implemented() {
    let mut p = Parcel { grams: 3 };
    p.set_weight(9);
    assert_eq!(*p.weight(), 9);
}
