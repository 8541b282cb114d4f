//! The routing topology is a `petgraph` directed graph whose edge weights are
//! the link costs; the searches also use petgraph's visit map for it.  This
//! module declares those outside types and states what the calls the searches
//! make return, over names for the graph's contents.
use fixedbitset::FixedBitSet;
use petgraph::graph::{Graph, NodeIndex};
use petgraph::visit::{EdgeRef, VisitMap, Visitable};
use vstd::prelude::*;

verus! {

#[verifier::external_type_specification]
#[verifier::external_body]
#[verifier::reject_recursive_types(N)]
#[verifier::reject_recursive_types(E)]
#[verifier::reject_recursive_types(Ty)]
#[verifier::reject_recursive_types(Ix)]
pub struct ExGraph<N, E, Ty, Ix>(Graph<N, E, Ty, Ix>);

#[verifier::external_type_specification]
#[verifier::external_body]
pub struct ExDirected(petgraph::Directed);

#[verifier::external_type_specification]
#[verifier::external_body]
pub struct ExFixedBitSet(FixedBitSet);

/// The edges of a topology, in the order of their edge indices: edge `e` is
/// `topology_edges(g)[e] == (source, target, weight)`.
pub uninterp spec fn topology_edges(g: petgraph::graph::DiGraph<&'static str, u32>) -> Seq<(usize, usize, u32)>;

/// The number of nodes of a topology; its nodes are `0 .. topology_node_count(g)`.
pub uninterp spec fn topology_node_count(g: petgraph::graph::DiGraph<&'static str, u32>) -> nat;

/// The node indices that a visit map holds as visited.
pub uninterp spec fn visited_nodes(m: FixedBitSet) -> Set<int>;

/// The number of node indices a visit map has room for.
pub uninterp spec fn visit_map_len(m: FixedBitSet) -> nat;

/// `Graph::node_count`: the number of nodes.  `Graph::try_add_node` refuses
/// the node index `u32::MAX` (the index type's end marker), so a graph never
/// holds more than `u32::MAX` nodes; `Graph::try_add_edge` refuses endpoints
/// that are not nodes of the graph, so every edge joins two of its nodes.
#[verifier::external_body]
pub(crate) fn node_count(g: &petgraph::graph::DiGraph<&'static str, u32>) -> (n: usize)
    ensures
        n == topology_node_count(*g),
        n <= u32::MAX,
        forall|e: int|
            0 <= e < topology_edges(*g).len() ==> (#[trigger] topology_edges(*g)[e]).0 < n
                && topology_edges(*g)[e].1 < n,
{
    g.node_count()
}

/// Whether `a` is a node of the topology, as the searches require of their start.
pub fn has_node(g: &petgraph::graph::DiGraph<&'static str, u32>, a: usize) -> (b: bool)
    ensures
        b == (a < topology_node_count(*g)),
{
    a < node_count(g)
}

/// `Graph::edges(a)` for a directed graph: the outgoing edges of `a`, each one
/// given as (edge index, target, weight).  Every edge whose source is `a`
/// comes exactly once; the order is that of petgraph's adjacency list, which
/// nothing here states.
#[verifier::external_body]
pub(crate) fn outgoing_edges(g: &petgraph::graph::DiGraph<&'static str, u32>, a: usize) -> (out: Vec<
    (usize, usize, u32),
>)
    requires
        a < topology_node_count(*g),
    ensures
        forall|j: int|
            0 <= j < out@.len() ==> (#[trigger] out@[j]).0 < topology_edges(*g).len()
                && topology_edges(*g)[out@[j].0 as int] == (a, out@[j].1, out@[j].2),
        forall|j: int, k: int| 0 <= j < k < out@.len() ==> (#[trigger] out@[j]).0 != (#[trigger] out@[k]).0,
        forall|e: int|
            0 <= e < topology_edges(*g).len() && (#[trigger] topology_edges(*g)[e]).0 == a ==> exists|j: int|
                0 <= j < out@.len() && (#[trigger] out@[j]).0 == e,
{
    let mut out = Vec::new();
    for edge in g.edges(NodeIndex::new(a)) {
        out.push((edge.id().index(), edge.target().index(), *edge.weight()));
    }
    out
}

/// `Visitable::visit_map` of a `Graph`: a `FixedBitSet` with one clear bit per node.
#[verifier::external_body]
pub(crate) fn visit_map(g: &petgraph::graph::DiGraph<&'static str, u32>) -> (m: FixedBitSet)
    ensures
        visited_nodes(m) == Set::<int>::empty(),
        visit_map_len(m) == topology_node_count(*g),
{
    g.visit_map()
}

/// `VisitMap::is_visited` of a `FixedBitSet`: whether the bit of `a` is set
/// (false for a bit beyond its length).  The node index is built from `a`, so
/// `a` must fit the graph's `u32` index type.
#[verifier::external_body]
pub(crate) fn is_visited(m: &FixedBitSet, a: usize) -> (b: bool)
    requires
        a <= u32::MAX,
    ensures
        b == visited_nodes(*m).contains(a as int),
{
    m.is_visited(&NodeIndex::<u32>::new(a))
}

/// `VisitMap::visit` of a `FixedBitSet`: sets the bit of `a` and returns whether
/// it was clear.  `FixedBitSet::put` panics for a bit beyond the length.
#[verifier::external_body]
pub(crate) fn visit(m: &mut FixedBitSet, a: usize) -> (first: bool)
    requires
        a < visit_map_len(*old(m)),
        a <= u32::MAX,
    ensures
        visited_nodes(*final(m)) == visited_nodes(*old(m)).insert(a as int),
        visit_map_len(*final(m)) == visit_map_len(*old(m)),
        first == !visited_nodes(*old(m)).contains(a as int),
{
    m.visit(NodeIndex::<u32>::new(a))
}

} // verus!
