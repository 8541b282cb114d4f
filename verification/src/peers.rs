//! Route computation between peers.
pub mod graph_algo;
pub mod route;
