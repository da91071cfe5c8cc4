//! Links of the network topology.
use vstd::prelude::*;

verus! {

/// Represents the type of a Link
#[derive(Debug, Clone, Copy, PartialEq, Eq, Structural)]
pub enum LinkType {
    /// Represents physical connection through a cable
    ETHERNET,
    /// Represents non-physical connection through air
    WIRELESS,
}

/// The part of a network link that the topology keeps: its identifier and type.
#[derive(Debug, Clone, Copy, PartialEq, Eq, Structural)]
pub struct Link {
    /// Unique identifier
    pub id: usize,
    /// Type (e.g. ETHERNET, WIRELESS)
    pub link_type: LinkType,
}

impl Link {
    /// Creates a Link with the given identifier and type.
    pub fn new(id: usize, link_type: LinkType) -> (link: Self)
        ensures
            link.id == id,
            link.link_type == link_type,
    {
        Link { id, link_type }
    }
}

} // verus!
