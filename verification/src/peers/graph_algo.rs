//! Dijkstra's shortest-path search from one node of the topology that lists,
//! after the first hop of the way chosen, every other equal-cost first hop.
use crate::digraph::{topology_edges, topology_node_count};
use crate::ecmp::{hops_distinct, into_list_map, lists_hop, merge_hops, nonempty_lists};
use crate::equal_cost::equal_cost_hops;
use crate::path_tree::shortest_path_tree;
use crate::peers::route::graph_algo::{
    hop_from_predecessor, lemma_tree_keyed,
};
use crate::search::{into_node_map, present_entries};
use crate::walks::{avoids_return, dst, is_distance, is_first_hop, is_shortest_walk, reachable};
use petgraph::graph::DiGraph;
use vstd::prelude::*;

pub use crate::peers::route::graph_algo::{dijkstra_with_first_hop, DijkstraMultiHopResult, DijkstraResult};
pub use crate::scored::MinScored;

verus! {

/// The first entry of each nonempty list.
pub open spec fn first_entries(lists: Map<usize, Vec<(usize, usize)>>) -> Map<usize, (usize, usize)> {
    Map::new(|k: usize| lists.contains_key(k) && lists[k]@.len() > 0, |k: usize| lists[k]@[0])
}

/// The list of a node reached: `first` heads it, and the rest are entries of
/// `hs` whose hops `first` does not name, so that every hop of `hs` is named
/// once.
pub open spec fn headed_list(first: (usize, usize), hs: Seq<(usize, usize)>, l: Seq<(usize, usize)>) -> bool {
    &&& l.len() > 0
    &&& l[0] == first
    &&& hops_distinct(l)
    &&& forall|i: int|
        #![trigger l[i]]
        0 < i < l.len() ==> exists|k: int| #![trigger hs[k]] 0 <= k < hs.len() && l[i] == hs[k]
    &&& forall|k: int| 0 <= k < hs.len() ==> lists_hop(l, (#[trigger] hs[k]).0 as int)
}

/// Like `dijkstra_with_first_hop`, but collects all first hops with equal
/// minimal cost for each destination node, for ECMP-style multi-path routing.
///
/// Every node reached has a list.  The start's list is `[(start, 0)]`; any
/// other node's list begins with the hop that `dijkstra_with_first_hop`'s
/// contract describes (its predecessor's first entry one edge further, or
/// `(v, 1)` after the start).  The list names, once each, the first hop of
/// every nonempty least-cost walk to the node that never comes back to the
/// start, each with the number of edges of such a walk.
pub fn dijkstra_with_all_first_hops(graph: &DiGraph<&'static str, u32>, start: usize) -> (res:
    DijkstraMultiHopResult)
    requires
        start < topology_node_count(*graph),
    ensures
        forall|v: usize| #[trigger]
            res.0@.contains_key(v) <==> reachable(topology_edges(*graph), start as int, v as int),
        forall|v: usize| #[trigger]
            res.0@.contains_key(v) ==> is_distance(
                topology_edges(*graph),
                start as int,
                v as int,
                res.0@[v] as int,
            ),
        res.1@.dom() == res.0@.dom(),
        res.1@[start]@.len() > 0,
        res.1@[start]@[0] == (start, 0usize),
        forall|v: usize| #[trigger] res.1@.contains_key(v) ==> res.1@[v]@.len() > 0 && hops_distinct(res.1@[v]@),
        forall|v: usize| #[trigger]
            res.1@.contains_key(v) && v != start ==> res.1@[v]@[0].0 != start && hop_from_predecessor(
                topology_edges(*graph),
                start as int,
                res.0@,
                first_entries(res.1@),
                v,
            ),
        forall|v: usize, i: int|
            res.1@.contains_key(v) && 0 <= i < res.1@[v]@.len() ==> is_first_hop(
                topology_edges(*graph),
                start as int,
                v as int,
                (#[trigger] res.1@[v]@[i]).0 as int,
                res.1@[v]@[i].1 as int,
            ) && (v != start || i > 0 ==> res.1@[v]@[i].1 >= 1),
        forall|v: usize, p: Seq<int>|
            #[trigger] is_shortest_walk(topology_edges(*graph), p, start as int, v as int) && avoids_return(
                topology_edges(*graph),
                start as int,
                p,
            ) && p.len() > 0 ==> res.1@.contains_key(v) && lists_hop(
                res.1@[v]@,
                dst(topology_edges(*graph), p[0]),
            ),
        res.1@[start]@ == seq![(start, 0usize)],
{
    let ghost g = topology_edges(*graph);
    let (scores, tree) = shortest_path_tree(graph, start);
    let hops = equal_cost_hops(graph, start, &scores);
    let ghost ds = scores@;
    let ghost ts = tree@;
    let ghost ls = hops@;
    let n = scores.len();
    let mut lists: Vec<Vec<(usize, usize)>> = Vec::new();
    let mut v: usize = 0;
    while v < n
        invariant
            n == ds.len(),
            ts.len() == n,
            ls.len() == n,
            hops@ == ls,
            tree@ == ts,
            v <= n,
            lists@.len() == v,
            forall|w: int|
                0 <= w < v ==> (ts[w] is None ==> (#[trigger] lists@[w])@.len() == 0) && (ts[w] is Some
                    ==> headed_list(ts[w].unwrap(), ls[w]@, lists@[w]@)),
        decreases n - v,
    {
        match tree[v] {
            Some(first) => {
                let mut l = vec![first];
                let ghost l0 = l@;
                merge_hops(&mut l, &hops[v]);
                proof {
                    assert(l@.subrange(0, 1) == l0);
                    assert(l@[0] == l@.subrange(0, 1)[0]);
                    assert(hops_distinct(l0));
                }
                lists.push(l);
            },
            None => {
                lists.push(Vec::new());
            },
        }
        proof {
            assert forall|w: int| 0 <= w < v + 1 implies (ts[w] is None ==> (#[trigger] lists@[w])@.len() == 0) && (ts[w] is Some
                ==> headed_list(ts[w].unwrap(), ls[w]@, lists@[w]@)) by {}
        }
        v = v + 1;
    }
    let ghost all = lists@;
    let score_map = into_node_map(scores);
    let hop_map = into_list_map(lists);
    let res = (score_map, hop_map);
    proof {
        assert(res.0@ == present_entries(ds));
        assert(res.1@ == nonempty_lists(all));
        assert forall|w: usize| res.1@.contains_key(w) <==> res.0@.contains_key(w) by {
            if w < n {
                assert(ts[w as int] is Some <==> ds[w as int] is Some);
                if ts[w as int] is Some {
                    assert(headed_list(ts[w as int].unwrap(), ls[w as int]@, all[w as int]@));
                }
            }
        }
        assert(res.1@.dom() =~= res.0@.dom());
        assert(first_entries(res.1@) =~= present_entries(ts)) by {
            assert forall|w: usize| first_entries(res.1@).contains_key(w) <==> present_entries(ts).contains_key(w) by {
                if w < n {
                    assert(ts[w as int] is Some <==> ds[w as int] is Some);
                    if ts[w as int] is Some {
                        assert(headed_list(ts[w as int].unwrap(), ls[w as int]@, all[w as int]@));
                    }
                }
            }
            assert forall|w: usize| #[trigger] first_entries(res.1@).contains_key(w) implies first_entries(res.1@)[w] == present_entries(ts)[w] by {
                assert(headed_list(ts[w as int].unwrap(), ls[w as int]@, all[w as int]@));
            }
        }
        assert forall|w: usize| #[trigger] reachable(g, start as int, w as int) implies res.0@.contains_key(w) by {
            assert(ds[w as int] is Some);
        }
        assert forall|w: usize| #[trigger] res.0@.contains_key(w) implies is_distance(g, start as int, w as int, res.0@[w] as int) by {
            assert(ds[w as int] is Some);
        }
        assert(ds[start as int] is Some);
        assert(headed_list(ts[start as int].unwrap(), ls[start as int]@, all[start as int]@));
        assert forall|w: usize| #[trigger] res.1@.contains_key(w) implies res.1@[w]@.len() > 0 && hops_distinct(res.1@[w]@) by {
            assert(headed_list(ts[w as int].unwrap(), ls[w as int]@, all[w as int]@));
        }
        assert forall|w: usize| #[trigger] res.1@.contains_key(w) && w != start implies res.1@[w]@[0].0 != start
            && hop_from_predecessor(g, start as int, res.0@, first_entries(res.1@), w) by {
            assert(headed_list(ts[w as int].unwrap(), ls[w as int]@, all[w as int]@));
            assert(ds[w as int] is Some);
            lemma_tree_keyed(g, start as int, ds, ts, w);
        }
        assert forall|w: usize, i: int|
            res.1@.contains_key(w) && 0 <= i < res.1@[w]@.len() implies is_first_hop(
                g,
                start as int,
                w as int,
                (#[trigger] res.1@[w]@[i]).0 as int,
                res.1@[w]@[i].1 as int,
            ) && (w != start || i > 0 ==> res.1@[w]@[i].1 >= 1) by {
            let l = all[w as int]@;
            assert(headed_list(ts[w as int].unwrap(), ls[w as int]@, l));
            assert(ds[w as int] is Some);
            if i == 0 {
                assert(l[0] == ts[w as int].unwrap());
                if w != start {
                    lemma_tree_keyed(g, start as int, ds, ts, w);
                }
            } else {
                let k = choose|k: int| 0 <= k < ls[w as int]@.len() && l[i] == #[trigger] ls[w as int]@[k];
                assert(ls[w as int]@[k] == hops@[w as int]@[k]);
            }
        }
        assert forall|w: usize, p: Seq<int>|
            #[trigger] is_shortest_walk(g, p, start as int, w as int) && avoids_return(g, start as int, p) && p.len() > 0 implies res.1@.contains_key(w)
                && lists_hop(res.1@[w]@, dst(g, p[0])) by {
            assert(lists_hop(ls[w as int]@, dst(g, p[0])));
            let k = choose|k: int| 0 <= k < ls[w as int]@.len() && (#[trigger] ls[w as int]@[k]).0 == dst(g, p[0]);
            assert(reachable(g, start as int, w as int));
            assert(ds[w as int] is Some);
            assert(headed_list(ts[w as int].unwrap(), ls[w as int]@, all[w as int]@));
            assert(lists_hop(all[w as int]@, ls[w as int]@[k].0 as int));
        }
        let l = all[start as int]@;
        if l.len() > 1 {
            let k = choose|k: int| 0 <= k < ls[start as int]@.len() && l[1] == #[trigger] ls[start as int]@[k];
        }
        assert(l =~= seq![(start, 0usize)]);
    }
    res
}

} // verus!
