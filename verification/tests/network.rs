use cmpe524_network_designer::models::link::{Link, LinkType};
use cmpe524_network_designer::models::network::Network;
use cmpe524_network_designer::models::node::{Node, NodeType};

fn mock_node(id: usize) -> Node {
    Node::new(id, NodeType::ROUTER)
}

fn mock_link(id: usize) -> Link {
    Link::new(id, LinkType::WIRELESS)
}

#[test]
fn test_network_creation_and_linking() {
    let mut network = Network::new();
    let r1 = network.add_node(mock_node(1));
    let r2 = network.add_node(mock_node(2));

    network.add_link(r1, r2, mock_link(1));

    assert_eq!(network.graph.node_count(), 2);
    assert_eq!(network.graph.edge_count(), 1);
}

#[test]
fn test_network_with_capacity() {
    let mut network = Network::with_capacity(2, 1);

    let r1 = network.add_node(mock_node(1));
    let r2 = network.add_node(mock_node(2));

    network.add_link(r1, r2, mock_link(1));

    assert_eq!(network.graph.node_count(), 2);
    assert_eq!(network.graph.edge_count(), 1);
}

#[test]
fn test_connectivity_logic() {
    let mut network = Network::new();
    let r1 = network.add_node(mock_node(1));
    let r2 = network.add_node(mock_node(2));
    let r3 = network.add_node(mock_node(3));

    assert!(
        !network.is_fully_connected(),
        "Empty network with multiple nodes should not be connected"
    );

    network.add_link(r1, r2, mock_link(1));
    assert!(
        !network.is_fully_connected(),
        "Network with isolated node should not be connected"
    );

    network.add_link(r2, r3, mock_link(1));
    assert!(
        network.is_fully_connected(),
        "All nodes reachable, should be connected"
    );
}

#[test]
fn empty_network_is_fully_connected() {
    let network = Network::new();
    assert_eq!(network.graph.node_count(), 0);
    assert!(network.is_fully_connected());
}

#[test]
fn single_node_network_is_fully_connected() {
    let mut network = Network::new();
    network.add_node(mock_node(7));
    assert!(network.is_fully_connected());
}

#[test]
fn two_nodes_become_connected_by_a_link() {
    let mut network = Network::new();
    let a = network.add_node(mock_node(1));
    let b = network.add_node(mock_node(2));
    assert!(!network.is_fully_connected());
    network.add_link(a, b, mock_link(1));
    assert!(network.is_fully_connected());
}

#[test]
fn adding_a_link_keeps_a_connected_network_connected() {
    let mut network = Network::new();
    let a = network.add_node(mock_node(1));
    let b = network.add_node(mock_node(2));
    let c = network.add_node(mock_node(3));
    network.add_link(a, b, mock_link(1));
    network.add_link(b, c, mock_link(2));
    assert!(network.is_fully_connected());
    network.add_link(a, c, mock_link(3));
    assert!(network.is_fully_connected());
    network.add_link(c, c, mock_link(4));
    assert!(network.is_fully_connected());
    assert_eq!(network.graph.edge_count(), 4);
}

#[test]
fn a_new_node_disconnects_a_connected_network() {
    let mut network = Network::new();
    let a = network.add_node(mock_node(1));
    let b = network.add_node(mock_node(2));
    network.add_link(a, b, mock_link(1));
    assert!(network.is_fully_connected());
    let c = network.add_node(mock_node(3));
    assert!(!network.is_fully_connected());
    network.add_link(c, a, mock_link(2));
    assert!(network.is_fully_connected());
}

#[test]
fn two_separate_pairs_are_not_connected() {
    let mut network = Network::new();
    let a = network.add_node(mock_node(1));
    let b = network.add_node(mock_node(2));
    let c = network.add_node(mock_node(3));
    let d = network.add_node(mock_node(4));
    network.add_link(a, b, mock_link(1));
    network.add_link(c, d, mock_link(2));
    assert!(!network.is_fully_connected());
    network.add_link(d, a, mock_link(3));
    assert!(network.is_fully_connected());
}

#[test]
fn add_node_returns_distinct_indices_holding_the_node() {
    let mut network = Network::new();
    let a = network.add_node(mock_node(10));
    let b = network.add_node(mock_node(20));
    assert_ne!(a, b);
    let na = network.graph.node_weight(petgraph::graph::NodeIndex::new(a)).unwrap();
    let nb = network.graph.node_weight(petgraph::graph::NodeIndex::new(b)).unwrap();
    assert_eq!(na.id, 10);
    assert_eq!(nb.id, 20);
    assert_eq!(na.node_type, NodeType::ROUTER);
}

#[test]
fn add_link_stores_its_ends_and_link() {
    let mut network = Network::new();
    let a = network.add_node(mock_node(1));
    let b = network.add_node(mock_node(2));
    network.add_link(a, b, Link::new(5, LinkType::ETHERNET));
    let e = network.graph.edge_indices().next().unwrap();
    let (x, y) = network.graph.edge_endpoints(e).unwrap();
    assert_eq!((x.index(), y.index()), (a, b));
    let link = network.graph.edge_weight(e).unwrap();
    assert_eq!(link.id, 5);
    assert_eq!(link.link_type, LinkType::ETHERNET);
}

#[test]
fn test_node_creation() {
    let node = Node::new(0, NodeType::ROUTER);

    assert_eq!(node.id, 0);
    assert_eq!(node.node_type, NodeType::ROUTER);
}

#[test]
fn test_node_comparison() {
    let first_node = Node::new(0, NodeType::ROUTER);
    let second_node = Node::new(1, NodeType::ROUTER);

    assert!(first_node.id < second_node.id);
    assert_eq!(first_node.node_type, second_node.node_type);
}

#[test]
fn test_link_creation() {
    let link: Link = Link::new(0, LinkType::ETHERNET);

    assert_eq!(link.id, 0);
    assert_eq!(link.link_type, LinkType::ETHERNET);
}

#[test]
fn test_link_comparison() {
    let first_link: Link = Link::new(0, LinkType::ETHERNET);
    let second_link: Link = Link::new(1, LinkType::WIRELESS);

    assert!(first_link.id < second_link.id);
    assert_ne!(first_link.link_type, second_link.link_type);
}
