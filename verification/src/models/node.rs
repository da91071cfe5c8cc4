//! Nodes of the network topology.
use vstd::prelude::*;

verus! {

/// Represents the type of a Node
#[derive(Debug, Clone, Copy, PartialEq, Eq, Structural)]
pub enum NodeType {
    /// Layer 3 device
    ROUTER,
}

/// The part of a network node that the topology keeps: its identifier and type.
#[derive(Debug, Clone, Copy, PartialEq, Eq, Structural)]
pub struct Node {
    /// Unique identifier
    pub id: usize,
    /// Type (e.g. ROUTER)
    pub node_type: NodeType,
}

impl Node {
    /// Creates a Node with the given identifier and type.
    pub fn new(id: usize, node_type: NodeType) -> (node: Self)
        ensures
            node.id == id,
            node.node_type == node_type,
    {
        Node { id, node_type }
    }
}

} // verus!
