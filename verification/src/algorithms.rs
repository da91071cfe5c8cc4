//! Decision procedures used while designing and simulating the network.
pub mod association;
pub mod offloading;
pub mod placement;
