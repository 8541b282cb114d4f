//! Route computation over the peers' link-state topology.
pub mod graph_algo;
