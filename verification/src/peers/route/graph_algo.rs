//! Dijkstra's shortest-path search from one node of the topology, recording
//! for each node reached the first hop on the way there, and the variant that
//! lists every equal-cost first hop.
use crate::digraph::{topology_edges, topology_node_count};
use crate::ecmp::{hops_distinct, into_list_map, lists_hop, nonempty_lists};
use crate::equal_cost::equal_cost_hops;
use crate::path_tree::{hop_in_tree, shortest_path_tree, tree_edge};
use crate::search::{into_node_map, present_entries};
use crate::walks::{
    avoids_return, dst, first_hop_of, is_distance, is_first_hop, is_shortest_walk, reachable,
    weight, EdgeList,
};
use petgraph::graph::DiGraph;
use std::collections::HashMap;
use vstd::prelude::*;

pub use crate::scored::MinScored;

verus! {

/// The least cost of reaching each node, and the first hop towards it paired
/// with the number of edges of that way.
pub type DijkstraResult = (HashMap<usize, u64>, HashMap<usize, (usize, usize)>);

/// The least cost of reaching each node, and every equal-cost first hop
/// towards it, each paired with the number of edges of a least-cost way
/// through it.
pub type DijkstraMultiHopResult = (HashMap<usize, u64>, HashMap<usize, Vec<(usize, usize)>>);

/// Edge `e` brings `v` its first hop in the keyed results: it enters `v` from
/// a node `u` whose cost plus the edge's weight is `v`'s cost, and `v`'s hop
/// is `(v, 1)` when `u` is the start `s`, else `u`'s hop one edge further.
pub open spec fn hop_follows_edge(
    g: EdgeList,
    s: int,
    scores: Map<usize, u64>,
    hops: Map<usize, (usize, usize)>,
    v: usize,
    e: int,
) -> bool {
    let u = g[e].0;
    &&& 0 <= e < g.len()
    &&& dst(g, e) == v
    &&& scores.contains_key(u)
    &&& scores.contains_key(v)
    &&& hops.contains_key(u)
    &&& hops.contains_key(v)
    &&& scores[u] + weight(g, e) == scores[v]
    &&& if u == s {
        hops[v] == (v, 1usize)
    } else {
        hops[v].0 == hops[u].0 && hops[v].1 == hops[u].1 + 1
    }
}

/// `v`'s first hop continues that of a predecessor on a least-cost way: it is
/// `(v, 1)` after the start, else the predecessor's hop one edge further.
pub open spec fn hop_from_predecessor(
    g: EdgeList,
    s: int,
    scores: Map<usize, u64>,
    hops: Map<usize, (usize, usize)>,
    v: usize,
) -> bool {
    exists|e: int| #[trigger] hop_follows_edge(g, s, scores, hops, v, e)
}

/// A node's place in the tree, read in the keyed results.
pub proof fn lemma_tree_keyed(
    g: EdgeList,
    s: int,
    dist: Seq<Option<u64>>,
    hop: Seq<Option<(usize, usize)>>,
    v: usize,
)
    requires
        hop.len() == dist.len(),
        forall|x: int| 0 <= x < dist.len() ==> ((#[trigger] hop[x]) is Some <==> dist[x] is Some),
        v < dist.len(),
        hop_in_tree(g, s, dist, hop, v as int),
    ensures
        hop_from_predecessor(g, s, present_entries(dist), present_entries(hop), v),
        hop[v as int].unwrap().1 >= 1,
{
    let e = choose|e: int| #[trigger] tree_edge(g, s, dist, hop, v as int, e);
    let u = g[e].0;
    assert(hop[u as int] is Some);
    assert(hop_follows_edge(g, s, present_entries(dist), present_entries(hop), v, e));
}

/// Dijkstra's search from `start` over the topology, whose edge weights are
/// the link costs.  Returns the least cost of reaching each node reachable
/// from `start`, and for each such node the first hop of a least-cost way
/// there with the number of edges of that way; `start` itself has cost 0 and
/// first hop `(start, 0)`.  The hops form a tree of least-cost ways: a
/// node's hop is `(v, 1)` after an edge from `start`, else its predecessor's
/// hop one edge further.  Where several least-cost ways tie, which one is
/// described is not stated.
pub fn dijkstra_with_first_hop(graph: &DiGraph<&'static str, u32>, start: usize) -> (res:
    DijkstraResult)
    requires
        start < topology_node_count(*graph),
    ensures
        forall|v: usize| #[trigger]
            res.0@.contains_key(v) <==> reachable(topology_edges(*graph), start as int, v as int),
        forall|v: usize| #[trigger]
            res.0@.contains_key(v) ==> is_distance(
                topology_edges(*graph),
                start as int,
                v as int,
                res.0@[v] as int,
            ),
        res.1@.dom() == res.0@.dom(),
        res.1@[start] == (start, 0usize),
        forall|v: usize| #[trigger]
            res.1@.contains_key(v) ==> is_first_hop(
                topology_edges(*graph),
                start as int,
                v as int,
                res.1@[v].0 as int,
                res.1@[v].1 as int,
            ),
        forall|v: usize| #[trigger]
            res.1@.contains_key(v) && v != start ==> res.1@[v].0 != start && res.1@[v].1 >= 1
                && hop_from_predecessor(topology_edges(*graph), start as int, res.0@, res.1@, v),
{
    let ghost g = topology_edges(*graph);
    let (scores, first_hop) = shortest_path_tree(graph, start);
    let ghost ds = scores@;
    let ghost hs = first_hop@;
    let score_map = into_node_map(scores);
    let hop_map = into_node_map(first_hop);
    proof {
        assert(hop_map@.dom() =~= score_map@.dom()) by {
            assert forall|v: usize| hop_map@.contains_key(v) <==> score_map@.contains_key(v) by {
                if v < ds.len() {
                    assert(hs[v as int] is Some <==> ds[v as int] is Some);
                }
            }
        }
        assert forall|v: usize| #[trigger] score_map@.contains_key(v) <==> reachable(g, start as int, v as int) by {
            if reachable(g, start as int, v as int) {
                assert(ds[v as int] is Some);
            }
        }
        assert forall|v: usize| #[trigger] score_map@.contains_key(v) implies is_distance(g, start as int, v as int, score_map@[v] as int) by {
            assert(ds[v as int] is Some);
        }
        assert forall|v: usize| #[trigger] hop_map@.contains_key(v) implies is_first_hop(g, start as int, v as int, hop_map@[v].0 as int, hop_map@[v].1 as int) by {
            assert(ds[v as int] is Some);
        }
        assert forall|v: usize| #[trigger] hop_map@.contains_key(v) && v != start implies hop_map@[v].0 != start && hop_map@[v].1 >= 1
            && hop_from_predecessor(g, start as int, score_map@, hop_map@, v) by {
            assert(ds[v as int] is Some);
            lemma_tree_keyed(g, start as int, ds, hs, v);
        }
    }
    (score_map, hop_map)
}

/// Like `dijkstra_with_first_hop`, but collects all equal-cost first hops per
/// destination (ECMP): when several ways to a node have the same least cost,
/// each distinct first-hop node among them is kept, once.  This enables
/// multi-relay load balancing.
///
/// Every listed hop `(h, len)` is the first hop of a least-cost walk of
/// `len` edges that never comes back to `start`; no hop node comes twice in a
/// list; the first hop of every such nonempty walk to a node is in that
/// node's list, so every node reachable from `start`, other than `start`,
/// has a nonempty list.  `start` itself has no list.
pub fn dijkstra_with_all_first_hops(graph: &DiGraph<&'static str, u32>, start: usize) -> (res:
    DijkstraMultiHopResult)
    requires
        start < topology_node_count(*graph),
    ensures
        forall|v: usize| #[trigger]
            res.0@.contains_key(v) <==> reachable(topology_edges(*graph), start as int, v as int),
        forall|v: usize| #[trigger]
            res.0@.contains_key(v) ==> is_distance(
                topology_edges(*graph),
                start as int,
                v as int,
                res.0@[v] as int,
            ),
        forall|v: usize| #[trigger] res.1@.contains_key(v) ==> res.0@.contains_key(v),
        forall|v: usize| #[trigger] res.0@.contains_key(v) && v != start ==> res.1@.contains_key(v),
        forall|v: usize| #[trigger] res.1@.contains_key(v) ==> res.1@[v]@.len() > 0 && hops_distinct(res.1@[v]@),
        forall|v: usize, i: int|
            res.1@.contains_key(v) && 0 <= i < res.1@[v]@.len() ==> (#[trigger] res.1@[v]@[i]).1 >= 1
                && is_first_hop(
                topology_edges(*graph),
                start as int,
                v as int,
                res.1@[v]@[i].0 as int,
                res.1@[v]@[i].1 as int,
            ),
        forall|v: usize, p: Seq<int>|
            #[trigger] is_shortest_walk(topology_edges(*graph), p, start as int, v as int) && avoids_return(
                topology_edges(*graph),
                start as int,
                p,
            ) && p.len() > 0 ==> res.1@.contains_key(v) && lists_hop(
                res.1@[v]@,
                dst(topology_edges(*graph), p[0]),
            ),
        !res.1@.contains_key(start),
{
    let ghost g = topology_edges(*graph);
    let (scores, tree) = shortest_path_tree(graph, start);
    let ghost ts = tree@;
    let hops = equal_cost_hops(graph, start, &scores);
    let ghost ds = scores@;
    let ghost ls = hops@;
    let score_map = into_node_map(scores);
    let hop_map = into_list_map(hops);
    let res = (score_map, hop_map);
    proof {
        assert(res.0@ == present_entries(ds));
        assert(res.1@ == nonempty_lists(ls));
        assert forall|v: usize| #[trigger] res.0@.contains_key(v) <==> reachable(g, start as int, v as int) by {
            if reachable(g, start as int, v as int) {
                assert(ds[v as int] is Some);
            }
        }
        assert forall|v: usize| #[trigger] res.0@.contains_key(v) implies is_distance(g, start as int, v as int, res.0@[v] as int) by {
            assert(ds[v as int] is Some);
        }
        assert forall|v: usize, i: int|
            res.1@.contains_key(v) && 0 <= i < res.1@[v]@.len() implies (#[trigger] res.1@[v]@[i]).1 >= 1
                && is_first_hop(g, start as int, v as int, res.1@[v]@[i].0 as int, res.1@[v]@[i].1 as int) by {
            assert(res.1@[v] == ls[v as int]);
            assert(ls[v as int]@[i] == res.1@[v]@[i]);
        }
        assert forall|v: usize| #[trigger] res.1@.contains_key(v) implies res.0@.contains_key(v) by {
            assert(res.1@[v] == ls[v as int]);
            assert(ls[v as int]@[0] == res.1@[v]@[0]);
            let p = choose|p: Seq<int>| #[trigger] is_shortest_walk(g, p, start as int, v as int) && avoids_return(g, start as int, p) && first_hop_of(g, start as int, p) == (res.1@[v]@[0].0 as int, res.1@[v]@[0].1 as int);
            assert(reachable(g, start as int, v as int));
            assert(ds[v as int] is Some);
        }
        assert forall|v: usize, p: Seq<int>|
            #[trigger] is_shortest_walk(g, p, start as int, v as int) && avoids_return(g, start as int, p) && p.len() > 0
                implies res.1@.contains_key(v) && lists_hop(res.1@[v]@, dst(g, p[0])) by {
            assert(lists_hop(ls[v as int]@, dst(g, p[0])));
            assert(0 <= v < ls.len());
        }
        assert forall|v: usize| #[trigger] res.0@.contains_key(v) && v != start implies res.1@.contains_key(v) by {
            assert(ds[v as int] is Some);
            lemma_tree_keyed(g, start as int, ds, ts, v);
            let p = choose|p: Seq<int>|
                #[trigger] is_shortest_walk(g, p, start as int, v as int) && avoids_return(g, start as int, p)
                    && first_hop_of(g, start as int, p) == (ts[v as int].unwrap().0 as int, ts[v as int].unwrap().1 as int);
            assert(is_shortest_walk(g, p, start as int, v as int) && avoids_return(g, start as int, p) && p.len() > 0);
        }
        assert forall|v: usize| #[trigger] res.1@.contains_key(v) implies res.1@[v]@.len() > 0 && hops_distinct(res.1@[v]@) by {
            assert(res.1@[v] == ls[v as int]);
        }
        assert(ls[start as int]@.len() == 0);
    }
    res
}

} // verus!
