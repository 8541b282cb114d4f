//! Dijkstra's search from one node of the topology: the least cost of
//! reaching each node, and a tree of least-cost ways that records, for each
//! node reached, the first hop of its way and the way's number of edges.
use crate::digraph::{
    is_visited, node_count, outgoing_edges, topology_edges, topology_node_count, visit, visit_map,
    visit_map_len, visited_nodes,
};
use crate::scored::{pop_min, MinScored};
use crate::search::{
    edges_within, lemma_node_set_len, lemma_pop_settled, lemma_pop_unsettled, lemma_relax_improves,
    lemma_relax_keeps, lemma_search_done, lemma_settle, lemma_settled_count, lemma_start, relax_inv,
    score, search_inv, unscored,
};
use crate::walks::{
    avoids_return, dst, first_hop_of, lemma_avoids_push, is_distance, is_first_hop, is_shortest_walk, lemma_cost_bound,
    lemma_walk_push, reachable, src, weight, EdgeList,
};
use petgraph::graph::DiGraph;
use vstd::prelude::*;

verus! {

/// `dist` holds the least cost of reaching each of the nodes `0 .. n` from
/// `s`, and nothing for the nodes that cannot be reached.
pub open spec fn distances(g: EdgeList, n: int, s: int, dist: Seq<Option<u64>>) -> bool {
    &&& 0 <= s < n
    &&& dist.len() == n
    &&& edges_within(g, n)
    &&& forall|v: int| #[trigger] reachable(g, s, v) ==> 0 <= v < n
    &&& forall|v: int| 0 <= v < n ==> ((#[trigger] dist[v]) is Some <==> reachable(g, s, v))
    &&& forall|v: int|
        0 <= v < n && (#[trigger] dist[v]) is Some ==> is_distance(g, s, v, dist[v].unwrap() as int)
}

/// Edge `e` brings `v` its hop: it enters `v` from a node `u` whose cost plus
/// the edge's weight is `v`'s cost, and `v`'s hop is `v` itself one edge away
/// when `u` is the start `s`, else `u`'s hop one edge further.
pub open spec fn tree_edge(
    g: EdgeList,
    s: int,
    dist: Seq<Option<u64>>,
    hop: Seq<Option<(usize, usize)>>,
    v: int,
    e: int,
) -> bool {
    let u = src(g, e);
    &&& 0 <= e < g.len()
    &&& dst(g, e) == v
    &&& 0 <= u < dist.len()
    &&& 0 <= v < dist.len()
    &&& dist[u] is Some
    &&& dist[v] is Some
    &&& hop[u] is Some
    &&& hop[v] is Some
    &&& dist[u].unwrap() + weight(g, e) == dist[v].unwrap()
    &&& if u == s {
        hop[v].unwrap() == (v as usize, 1usize)
    } else {
        hop[v].unwrap().0 == hop[u].unwrap().0 && hop[v].unwrap().1 == hop[u].unwrap().1 + 1
    }
}

/// Some edge brings `v` its hop.
pub open spec fn hop_in_tree(
    g: EdgeList,
    s: int,
    dist: Seq<Option<u64>>,
    hop: Seq<Option<(usize, usize)>>,
    v: int,
) -> bool {
    exists|e: int| #[trigger] tree_edge(g, s, dist, hop, v, e)
}

/// Some edge out of a node of `frozen` brings `v` its hop.
pub open spec fn hop_from(
    g: EdgeList,
    s: int,
    dist: Seq<Option<u64>>,
    hop: Seq<Option<(usize, usize)>>,
    frozen: Set<int>,
    v: int,
) -> bool {
    exists|e: int| #[trigger] tree_edge(g, s, dist, hop, v, e) && frozen.contains(src(g, e))
}

/// The hops form a tree rooted at `s`: `s` has hop `(s, 0)`, and every other
/// scored node has a hop that is not `s` and that an edge out of a node of
/// `frozen` brings it.
pub open spec fn tree_inv(
    g: EdgeList,
    s: int,
    dist: Seq<Option<u64>>,
    hop: Seq<Option<(usize, usize)>>,
    frozen: Set<int>,
) -> bool {
    &&& hop.len() == dist.len()
    &&& 0 <= s < dist.len()
    &&& hop[s] == Some((s as usize, 0usize))
    &&& forall|v: int| 0 <= v < dist.len() ==> ((#[trigger] hop[v]) is Some <==> dist[v] is Some)
    &&& forall|x: int| #[trigger] frozen.contains(x) ==> 0 <= x < dist.len() && dist[x] is Some
    &&& forall|v: int|
        0 <= v < dist.len() && v != s && (#[trigger] dist[v]) is Some ==> hop[v].unwrap().0 != s
            && hop_from(g, s, dist, hop, frozen, v)
}

/// Each scored node's ghost walk never comes back to `s`, and its hop
/// describes that walk.
pub open spec fn hops_describe_walks(
    g: EdgeList,
    s: int,
    dist: Seq<Option<u64>>,
    hop: Seq<Option<(usize, usize)>>,
    wit: Seq<Seq<int>>,
) -> bool {
    &&& hop.len() == dist.len()
    &&& forall|v: int| 0 <= v < dist.len() && (#[trigger] dist[v]) is Some ==> avoids_return(g, s, wit[v])
    &&& forall|v: int|
        0 <= v < dist.len() && (#[trigger] dist[v]) is Some ==> hop[v].unwrap().0 as int
            == first_hop_of(g, s, wit[v]).0 && hop[v].unwrap().1 as int == first_hop_of(g, s, wit[v]).1
}

/// Freezing one more scored node keeps the tree.
pub proof fn lemma_tree_freeze(
    g: EdgeList,
    s: int,
    dist: Seq<Option<u64>>,
    hop: Seq<Option<(usize, usize)>>,
    frozen: Set<int>,
    u: int,
)
    requires
        tree_inv(g, s, dist, hop, frozen),
        0 <= u < dist.len(),
        dist[u] is Some,
    ensures
        tree_inv(g, s, dist, hop, frozen.insert(u)),
{
    assert forall|v: int|
        0 <= v < dist.len() && v != s && (#[trigger] dist[v]) is Some implies hop_from(
        g,
        s,
        dist,
        hop,
        frozen.insert(u),
        v,
    ) by {
        let e = choose|e: int| #[trigger] tree_edge(g, s, dist, hop, v, e) && frozen.contains(src(g, e));
        assert(tree_edge(g, s, dist, hop, v, e) && frozen.insert(u).contains(src(g, e)));
    }
}

/// Giving `y` a better score through the edge `e` out of the frozen node `u`,
/// with the hop that `e` brings, keeps the tree.
pub proof fn lemma_tree_improve(
    g: EdgeList,
    s: int,
    dist: Seq<Option<u64>>,
    hop: Seq<Option<(usize, usize)>>,
    frozen: Set<int>,
    e: int,
    ns: u64,
    h2: (usize, usize),
)
    requires
        tree_inv(g, s, dist, hop, frozen),
        0 <= e < g.len(),
        frozen.contains(src(g, e)),
        0 <= dst(g, e) < dist.len(),
        !frozen.contains(dst(g, e)),
        dst(g, e) != s,
        dist[src(g, e)].unwrap() + weight(g, e) == ns,
        src(g, e) != s ==> hop[src(g, e)].unwrap().1 < usize::MAX,
        h2 == (if src(g, e) == s {
            (dst(g, e) as usize, 1usize)
        } else {
            (hop[src(g, e)].unwrap().0, (hop[src(g, e)].unwrap().1 + 1) as usize)
        }),
    ensures
        tree_inv(
            g,
            s,
            dist.update(dst(g, e), Some(ns)),
            hop.update(dst(g, e), Some(h2)),
            frozen,
        ),
{
    let y = dst(g, e);
    let u = src(g, e);
    let d2 = dist.update(y, Some(ns));
    let h3 = hop.update(y, Some(h2));
    assert(dist[u] is Some);
    if u != s {
        assert(dist[u] is Some && u != s);
        assert(hop[u].unwrap().0 != s);
    }
    assert forall|v: int|
        0 <= v < d2.len() && v != s && (#[trigger] d2[v]) is Some implies h3[v].unwrap().0 != s
        && hop_from(g, s, d2, h3, frozen, v) by {
        if v == y {
            assert(tree_edge(g, s, d2, h3, v, e) && frozen.contains(src(g, e)));
        } else {
            assert(dist[v] is Some);
            let f = choose|f: int| #[trigger] tree_edge(g, s, dist, hop, v, f) && frozen.contains(src(g, f));
            assert(src(g, f) != y);
            assert(tree_edge(g, s, d2, h3, v, f) && frozen.contains(src(g, f)));
        }
    }
    assert forall|v: int| 0 <= v < d2.len() implies ((#[trigger] h3[v]) is Some <==> d2[v] is Some) by {
        if v != y {
            assert(hop[v] is Some <==> dist[v] is Some);
        }
    }
    assert forall|x: int| #[trigger] frozen.contains(x) implies 0 <= x < d2.len() && d2[x] is Some by {
        assert(x != y);
    }
}

/// Dijkstra's search from `start`: for each node its least cost (nothing for
/// the nodes that cannot be reached), and its hop: `(start, 0)` for `start`,
/// and for any other node reached, the hop that the edge into it on a
/// least-cost way brings from its predecessor.  Each hop is the first hop and
/// number of edges of a least-cost walk.
pub fn shortest_path_tree(graph: &DiGraph<&'static str, u32>, start: usize) -> (res: (
    Vec<Option<u64>>,
    Vec<Option<(usize, usize)>>,
))
    requires
        start < topology_node_count(*graph),
    ensures
        distances(
            topology_edges(*graph),
            topology_node_count(*graph) as int,
            start as int,
            res.0@,
        ),
        res.1@.len() == res.0@.len(),
        forall|v: int| 0 <= v < res.0@.len() ==> ((#[trigger] res.1@[v]) is Some <==> res.0@[v] is Some),
        res.1@[start as int] == Some((start, 0usize)),
        forall|v: int|
            0 <= v < res.0@.len() && v != start && (#[trigger] res.0@[v]) is Some ==> res.1@[v].unwrap().0
                != start && hop_in_tree(topology_edges(*graph), start as int, res.0@, res.1@, v),
        forall|v: int|
            0 <= v < res.0@.len() && (#[trigger] res.0@[v]) is Some ==> is_first_hop(
                topology_edges(*graph),
                start as int,
                v,
                res.1@[v].unwrap().0 as int,
                res.1@[v].unwrap().1 as int,
            ),
{
    let ghost g = topology_edges(*graph);
    let n = node_count(graph);
    let mut visited = visit_map(graph);
    let mut scores: Vec<Option<u64>> = unscored(n);
    let mut first_hop: Vec<Option<(usize, usize)>> = unscored(n);
    scores.set(start, Some(0));
    first_hop.set(start, Some((start, 0)));
    let mut visit_next: Vec<MinScored<u64, usize>> = Vec::new();
    visit_next.push(MinScored(0, start));
    let ghost mut wit: Seq<Seq<int>> = Seq::new(n as nat, |v: int| Seq::<int>::empty());
    proof {
        lemma_start(g, n as int, start as int, scores@, wit);
        assert(visit_next@ =~= seq![MinScored(0u64, start)]);
        assert(visited_nodes(visited) =~= Set::<int>::empty());
        assert forall|v: int| 0 <= v < scores@.len() implies ((#[trigger] first_hop@[v]) is Some
            <==> scores@[v] is Some) by {
            if v != start as int {
                assert(scores@[v] is None);
            }
        }
    }
    loop
        invariant
            g == topology_edges(*graph),
            n == topology_node_count(*graph),
            visit_map_len(visited) == n,
            search_inv(g, n as int, start as int, visited_nodes(visited), scores@, visit_next@, wit),
            hops_describe_walks(g, start as int, scores@, first_hop@, wit),
            tree_inv(g, start as int, scores@, first_hop@, visited_nodes(visited)),
        ensures
            search_inv(g, n as int, start as int, visited_nodes(visited), scores@, Seq::empty(), wit),
            hops_describe_walks(g, start as int, scores@, first_hop@, wit),
            tree_inv(g, start as int, scores@, first_hop@, visited_nodes(visited)),
        decreases n - visited_nodes(visited).len(), visit_next@.len(),
    {
        proof {
            lemma_node_set_len(visited_nodes(visited), n as int);
        }
        let ghost frontier = visit_next@;
        let popped = pop_min(&mut visit_next);
        let (node_score, node) = match popped {
            None => {
                assert(visit_next@ =~= Seq::<MinScored<u64, usize>>::empty());
                break ;
            },
            Some(MinScored(node_score, node)) => (node_score, node),
        };
        let ghost pi = choose|i: int|
            {
                &&& 0 <= i < frontier.len()
                &&& frontier[i] == MinScored(node_score, node)
                &&& visit_next@ == frontier.remove(i)
                &&& forall|j: int| 0 <= j < frontier.len() ==> node_score <= (#[trigger] frontier[j]).0
            };
        proof {
            assert(node < n);
        }
        if is_visited(&visited, node) {
            proof {
                lemma_pop_settled(g, n as int, start as int, visited_nodes(visited), scores@, frontier, wit, pi);
            }
            continue ;
        }
        let ghost vis = visited_nodes(visited);
        proof {
            lemma_pop_unsettled(g, n as int, start as int, vis, scores@, frontier, wit, pi);
            lemma_settled_count(vis, n as int, node as int);
            lemma_cost_bound(g, wit[node as int]);
            assert(wit[node as int].len() * 0xffff_ffffint <= (n - 1) * 0xffff_ffffint) by (nonlinear_arith)
                requires
                    wit[node as int].len() <= n - 1,
                    n <= 0xffff_ffff,
            ;
            assert((n - 1) * 0xffff_ffffint + 0xffff_ffffint <= 0xffff_ffff * 0xffff_ffffint) by (nonlinear_arith)
                requires
                    1 <= n <= 0xffff_ffff,
            ;
            lemma_tree_freeze(g, start as int, scores@, first_hop@, vis, node as int);
        }
        let edges = outgoing_edges(graph, node);
        let ghost mut done: Seq<int> = Seq::empty();
        let mut j: usize = 0;
        while j < edges.len()
            invariant
                g == topology_edges(*graph),
                n == topology_node_count(*graph),
                visit_map_len(visited) == n,
                visited_nodes(visited) == vis,
                vis.len() + 1 <= n,
                node < n,
                node_score == score(scores@, node as int),
                node_score <= (n - 1) * 0xffff_ffffint,
                j <= edges@.len(),
                done.len() == j,
                forall|k: int| 0 <= k < j ==> done[k] == (#[trigger] edges@[k]).0 as int,
                forall|k: int|
                    0 <= k < edges@.len() ==> (#[trigger] edges@[k]).0 < g.len() && g[edges@[k].0 as int]
                        == (node, edges@[k].1, edges@[k].2),
                relax_inv(g, n as int, start as int, vis, node as int, scores@, visit_next@, wit, done),
                hops_describe_walks(g, start as int, scores@, first_hop@, wit),
                tree_inv(g, start as int, scores@, first_hop@, vis.insert(node as int)),
            decreases edges@.len() - j,
        {
            let (eid, next, w) = edges[j];
            let ghost e = eid as int;
            proof {
                assert(src(g, e) == node as int && dst(g, e) == next as int && weight(g, e) == w as int);
                assert(next < n);
            }
            if is_visited(&visited, next) {
                proof {
                    lemma_relax_keeps(g, n as int, start as int, vis, node as int, scores@, visit_next@, wit, done, e);
                }
            } else {
                let next_score = node_score + w as u64;
                let improves = match scores[next] {
                    Some(current) => next_score < current,
                    None => true,
                };
                if improves {
                    // inherit the first hop of `node`, or take this edge as the first hop
                    let hop = if node == start {
                        (next, 0)
                    } else {
                        first_hop[node].unwrap()
                    };
                    proof {
                        lemma_relax_improves(g, n as int, start as int, vis, node as int, scores@, visit_next@, wit, done, e, next_score);
                        lemma_walk_push(g, wit[node as int], start as int, node as int, e);
                        assert(scores@[node as int] is Some);
                        lemma_avoids_push(g, start as int, wit[node as int], e);
                        assert(wit[node as int].len() <= vis.len());
                        assert(hop.1 < n);
                        lemma_tree_improve(g, start as int, scores@, first_hop@, vis.insert(node as int), e, next_score, (hop.0, (hop.1 + 1) as usize));
                    }
                    scores.set(next, Some(next_score));
                    first_hop.set(next, Some((hop.0, hop.1 + 1)));
                    visit_next.push(MinScored(next_score, next));
                    proof {
                        wit = wit.update(next as int, wit[node as int].push(e));
                    }
                } else {
                    proof {
                        lemma_relax_keeps(g, n as int, start as int, vis, node as int, scores@, visit_next@, wit, done, e);
                    }
                }
            }
            proof {
                done = done.push(e);
            }
            j = j + 1;
        }
        proof {
            assert forall|e: int| 0 <= e < g.len() && #[trigger] src(g, e) == node as int implies done.contains(e) by {
                let k = choose|k: int| 0 <= k < edges@.len() && (#[trigger] edges@[k]).0 == e;
                assert(done[k] == e);
            }
            lemma_settle(g, n as int, start as int, vis, node as int, scores@, visit_next@, wit, done);
        }
        visit(&mut visited, node);
    }
    proof {
        lemma_search_done(g, n as int, start as int, visited_nodes(visited), scores@, wit);
        let vis = visited_nodes(visited);
        assert forall|v: int|
            0 <= v < n && v != start && (#[trigger] scores@[v]) is Some implies first_hop@[v].unwrap().0
            != start && hop_in_tree(g, start as int, scores@, first_hop@, v) by {
            let e = choose|e: int| #[trigger] tree_edge(g, start as int, scores@, first_hop@, v, e) && vis.contains(src(g, e));
            assert(tree_edge(g, start as int, scores@, first_hop@, v, e));
        }
        assert forall|v: int| 0 <= v < n && (#[trigger] scores@[v]) is Some implies is_first_hop(
            g,
            start as int,
            v,
            first_hop@[v].unwrap().0 as int,
            first_hop@[v].unwrap().1 as int,
        ) by {
            assert(is_shortest_walk(g, wit[v], start as int, v));
            assert(avoids_return(g, start as int, wit[v]));
        }
        assert forall|v: int| #[trigger] reachable(g, start as int, v) implies 0 <= v < n by {
            assert(scores@[v] is Some);
        }
        assert forall|v: int| 0 <= v < n implies ((#[trigger] scores@[v]) is Some <==> reachable(g, start as int, v)) by {
            if scores@[v] is Some {
                assert(is_shortest_walk(g, wit[v], start as int, v));
            }
        }
    }
    (scores, first_hop)
}

} // verus!
