//! Building blocks of a UAV network designer: the network topology and its
//! connectivity, user-to-UAV association planning, task offloading targets,
//! simulation task bookkeeping and clustering bookkeeping for UAV placement.
pub mod algorithms;
pub mod models;
pub mod simulation;
