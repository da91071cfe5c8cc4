//! Network models: nodes, links, the topology graph and simulation metrics.
pub mod link;
pub mod metrics;
pub mod mobility;
pub mod network;
pub mod node;
