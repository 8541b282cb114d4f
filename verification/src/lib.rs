//! Shortest-path searches over a peer routing topology: Dijkstra's search
//! from one node that records, for each node reached, its least cost and the
//! first hop towards it, and two variants that list every equal-cost first
//! hop.  Each search is proved against a model of the graph as a sequence of
//! weighted edges (`walks`): the scores are the least walk costs, and each
//! reported hop is the first step of a least-cost walk.
//!
//! - `digraph`: the petgraph topology and visit map, and what the searches
//!   read of them.
//! - `walks`: walks, their costs, distances and first hops.
//! - `scored`: the frontier entries and taking out the least one.
//! - `search`: the state of a search and what each step keeps.
//! - `path_tree`: the search itself, giving least costs and a tree of
//!   least-cost ways.
//! - `equal_cost`: every equal-cost first hop, carried along the edges that
//!   lie on least-cost ways until no list grows.
//! - `ecmp`: first-hop lists, their lookup and merge.
//! - `peers::route::graph_algo`, `peers::graph_algo`: the searches.
//! - `laws`: properties relating the searches' results.
pub mod digraph;
pub mod walks;
pub mod scored;
pub mod search;
pub mod path_tree;
pub mod equal_cost;
pub mod peers;
pub mod ecmp;
pub mod laws;
