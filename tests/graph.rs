use std::collections::hash_map::DefaultHasher;
use std::hash::{Hash, Hasher};

use mazes::graph::Graph;
use mazes::node::Node;

#[test]
fn create_new_graph_with_9_nodes() {
    let graph = Graph::new(3, 3);
    assert_eq!(graph.iter_nodes().len(), 9);
}

#[test]
fn new_graph_with_all_nodes_of_weight_1() {
    let graph = Graph::new(3, 3);
    for node in graph.iter_nodes() {
        assert_eq!(node.weight(), 1);
    }
}

#[test]
fn graph_has_3x4_dimension() {
    let graph = Graph::new(3, 4);
    let (r, c) = graph.dimensions();
    assert_eq!(r, 3);
    assert_eq!(c, 4);
}

#[test]
fn graph_should_bi_link_two_nodes() {
    let mut graph = Graph::new(3, 3);
    let n1 = *graph.get(0, 0);
    let n2 = *graph.get(0, 1);
    graph.link(&n1, &n2, true);
    assert_eq!(graph.links(&n1).unwrap()[0], n2);
    assert_eq!(graph.links(&n2).unwrap()[0], n1);
}

#[test]
fn graph_should_get_links() {
    let mut graph = Graph::new(3, 3);
    let n00 = *graph.get(0, 0);
    let n01 = *graph.get(0, 1);
    let n10 = *graph.get(1, 0);
    let n02 = *graph.get(0, 2);
    graph.link(&n00, &n01, true);
    graph.link(&n00, &n10, true);
    let n0_links = graph.links(&n00);
    assert_eq!(n0_links.unwrap().len(), 2);
    assert!(graph.links(&n02).is_none());
}

#[test]
fn graph_should_index_into_graph() {
    let graph = Graph::new(3, 3);
    // the node at row 1, column 1 has the one-dimensional index 4
    let node11 = graph.node(4);
    assert_eq!(*node11.value(), 4);
}

#[test]
fn graph_node_0_should_not_have_north_neighbor() {
    let graph = Graph::new(3, 3);
    let node0 = graph.node(0);
    assert_eq!(graph.north(node0), None);
}

#[test]
fn graph_node_0_should_not_have_west_neighbor() {
    let graph = Graph::new(3, 3);
    let node0 = graph.node(0);
    assert_eq!(graph.west(node0), None);
}

#[test]
fn graph_node_6_should_have_north_neighbor() {
    let graph = Graph::new(3, 3);
    let node6 = graph.node(6);
    assert_eq!(graph.north(node6), Some(*graph.node(3)));
}

#[test]
fn graph_node_2_should_not_have_east_neighbor() {
    let graph = Graph::new(3, 3);
    let node = graph.node(2);
    assert_eq!(graph.east(node), None);
}

#[test]
fn graph_node_3_should_have_east_neighbor() {
    let graph = Graph::new(3, 3);
    let node = graph.node(3);
    assert_eq!(graph.east(node), Some(*graph.node(4)));
}

#[test]
fn graph_node_8_should_not_have_east_neighbor() {
    let graph = Graph::new(3, 3);
    let node = graph.node(8);
    assert_eq!(graph.east(node), None);
}

#[test]
fn graph_node_4_should_have_all_neighbors() {
    let graph = Graph::new(3, 3);
    let node = graph.node(4);
    assert_eq!(graph.east(node), Some(*graph.node(5)));
    assert_eq!(graph.north(node), Some(*graph.node(1)));
    assert_eq!(graph.west(node), Some(*graph.node(3)));
    assert_eq!(graph.south(node), Some(*graph.node(7)));
}

#[test]
fn graph_should_display_maze_with_link_from_00_to_01() {
    let mut graph = Graph::new(4, 4);
    let n00 = *graph.get(0, 0);
    let n01 = *graph.get(0, 1);
    graph.link(&n00, &n01, true);
    println!("{:?}", &graph);
}

#[test]
fn graph_node_3_north_is_node_0() {
    let graph = Graph::new(3, 3);
    assert_eq!(graph.north(graph.node(3)), Some(*graph.node(0)));
    assert!(graph.has_link(graph.node(3), graph.node(0)) == false);
    assert_eq!(graph.neighbors(graph.node(0)).len(), 2);
    assert_eq!(graph.iter_rows().len(), 3);
}

#[test]
fn node_should_create_new_node() {
    let node = Node::new(1, 125);
    assert_eq!(*node.value(), 1);
    assert_eq!(node.weight(), 125);
}

#[test]
fn equal_values_should_hash_to_equal_hashes() {
    let mut hasher = DefaultHasher::new();
    let node1 = Node::new(1, 111);
    let node2 = Node::new(1, 222);
    node1.hash(&mut hasher);

    let mut hasher2 = DefaultHasher::new();
    node2.hash(&mut hasher2);
    assert_eq!(hasher.finish(), hasher2.finish());
}

#[test]
fn node_setters() {
    let mut node = Node::new(1, 2);
    node.set_value(5);
    node.set_weight(-3);
    assert_eq!(*node.value(), 5);
    assert_eq!(node.weight(), -3);
    assert_eq!(node, Node::new(5, 0));
}
