//! Every equal-cost first hop of every node: once the least costs are known,
//! the first hops are carried along the edges that lie on least-cost ways
//! until no list grows any more.
use crate::digraph::{node_count, outgoing_edges, topology_edges, topology_node_count};
use crate::ecmp::{empty_lists, hops_distinct, lists_hop, lists_node, lists_of};
use crate::path_tree::distances;
use crate::walks::{
    avoids_return, dst, first_hop_of, is_distance, lemma_avoids_push, lemma_no_hop_to_start, is_first_hop, is_shortest_walk, is_walk, lemma_cost_push,
    lemma_walk_push, lemma_walk_take, src, walk_cost, weight, EdgeList,
};
use petgraph::graph::DiGraph;
use vstd::prelude::*;
use vstd::set_lib::{lemma_int_range, lemma_len_subset, set_int_range};

verus! {

/// Edge `e` lies on a least-cost way: both its ends are reached, and its
/// weight makes up the difference of their least costs.
pub open spec fn tight(g: EdgeList, dist: Seq<Option<u64>>, e: int) -> bool {
    &&& 0 <= e < g.len()
    &&& 0 <= src(g, e) < dist.len()
    &&& 0 <= dst(g, e) < dist.len()
    &&& dist[src(g, e)] is Some
    &&& dist[dst(g, e)] is Some
    &&& dist[src(g, e)].unwrap() + weight(g, e) == dist[dst(g, e)].unwrap()
}

/// Edge `e` carries first hops: it lies on a least-cost way and does not
/// enter the start.
pub open spec fn carries(g: EdgeList, s: int, dist: Seq<Option<u64>>, e: int) -> bool {
    tight(g, dist, e) && dst(g, e) != s
}

/// The nodes whose lists name the hop `h`.
pub open spec fn holders(hs: Seq<Seq<(usize, usize)>>, h: int) -> Set<int> {
    Set::new(|x: int| 0 <= x < hs.len() && lists_hop(hs[x], h))
}

/// Entry `i` of the list of `v` names a node, counts at least one edge and no
/// more edges than there are lists naming its hop, and is the first hop and
/// edge count of a least-cost walk from `s` to `v`.
pub open spec fn entry_valid(g: EdgeList, s: int, hs: Seq<Seq<(usize, usize)>>, v: int, i: int) -> bool {
    &&& hs[v][i].0 < hs.len()
    &&& 1 <= hs[v][i].1 <= holders(hs, hs[v][i].0 as int).len()
    &&& is_first_hop(g, s, v, hs[v][i].0 as int, hs[v][i].1 as int)
}

/// The lists of the `n` nodes: no hop repeats within a list and every entry
/// is valid.
pub open spec fn lists_inv(g: EdgeList, n: int, s: int, hs: Seq<Seq<(usize, usize)>>) -> bool {
    &&& hs.len() == n
    &&& forall|v: int| 0 <= v < n ==> hops_distinct(#[trigger] hs[v])
    &&& forall|v: int, i: int|
        #![trigger hs[v][i]]
        0 <= v < n && 0 <= i < hs[v].len() ==> entry_valid(g, s, hs, v, i)
}

/// The target of `e` lists every hop that `e` carries: the target itself
/// when `e` leaves the start, else every hop that the source lists.
pub open spec fn closed_at(g: EdgeList, s: int, hs: Seq<Seq<(usize, usize)>>, e: int) -> bool {
    &&& src(g, e) == s ==> lists_hop(hs[dst(g, e)], dst(g, e))
    &&& src(g, e) != s ==> forall|i: int|
        0 <= i < hs[src(g, e)].len() ==> lists_hop(hs[dst(g, e)], (#[trigger] hs[src(g, e)][i]).0 as int)
}

/// The number of entries of all lists.
pub open spec fn total_len(hs: Seq<Seq<(usize, usize)>>) -> int
    decreases hs.len(),
{
    if hs.len() == 0 {
        0
    } else {
        total_len(hs.drop_last()) + hs.last().len()
    }
}

proof fn lemma_total_update(hs: Seq<Seq<(usize, usize)>>, x: int, l: Seq<(usize, usize)>)
    requires
        0 <= x < hs.len(),
    ensures
        total_len(hs.update(x, l)) == total_len(hs) - hs[x].len() + l.len(),
    decreases hs.len(),
{
    if x == hs.len() - 1 {
        assert(hs.update(x, l).drop_last() =~= hs.drop_last());
    } else {
        lemma_total_update(hs.drop_last(), x, l);
        assert(hs.update(x, l).drop_last() =~= hs.drop_last().update(x, l));
    }
}

proof fn lemma_total_bound(hs: Seq<Seq<(usize, usize)>>, n: int)
    requires
        0 <= n,
        forall|v: int| 0 <= v < hs.len() ==> (#[trigger] hs[v]).len() <= n,
    ensures
        0 <= total_len(hs) <= hs.len() * n,
    decreases hs.len(),
{
    if hs.len() > 0 {
        let h2 = hs.drop_last();
        assert forall|v: int| 0 <= v < h2.len() implies (#[trigger] h2[v]).len() <= n by {
            assert(h2[v] == hs[v]);
        }
        lemma_total_bound(h2, n);
        assert(hs.last().len() <= n);
        assert((hs.len() - 1) * n + n == hs.len() * n) by (nonlinear_arith);
    }
}

/// A list without repeated hops, all among `0 .. n`, has at most `n` entries.
proof fn lemma_list_len(l: Seq<(usize, usize)>, n: int)
    requires
        0 <= n,
        hops_distinct(l),
        forall|i: int| 0 <= i < l.len() ==> (#[trigger] l[i]).0 < n,
    ensures
        l.len() <= n,
{
    let ids = l.map_values(|e: (usize, usize)| e.0 as int);
    assert forall|i: int, j: int| 0 <= i < ids.len() && 0 <= j < ids.len() && i != j implies ids[i] != ids[j] by {
        if i < j {
            assert(l[i].0 != l[j].0);
        } else {
            assert(l[j].0 != l[i].0);
        }
    }
    assert(ids.no_duplicates());
    ids.unique_seq_to_set();
    lemma_int_range(0, n);
    assert forall|h: int| ids.to_set().contains(h) implies set_int_range(0, n).contains(h) by {
        let i = choose|i: int| 0 <= i < ids.len() && ids[i] == h;
        assert(l[i].0 < n);
    }
    lemma_len_subset(ids.to_set(), set_int_range(0, n));
}

/// The nodes naming a hop are finitely many, at most one per list.
proof fn lemma_holders_finite(hs: Seq<Seq<(usize, usize)>>, h: int)
    ensures
        holders(hs, h).finite(),
        holders(hs, h).len() <= hs.len(),
{
    lemma_int_range(0, hs.len() as int);
    assert(holders(hs, h).subset_of(set_int_range(0, hs.len() as int)));
    lemma_len_subset(holders(hs, h), set_int_range(0, hs.len() as int));
}

/// The lists hold at most `n` entries each, so `n * n` in all.
proof fn lemma_lists_total(g: EdgeList, n: int, s: int, hs: Seq<Seq<(usize, usize)>>)
    requires
        lists_inv(g, n, s, hs),
    ensures
        0 <= total_len(hs) <= n * n,
{
    assert forall|v: int| 0 <= v < hs.len() implies (#[trigger] hs[v]).len() <= n by {
        assert forall|i: int| 0 <= i < hs[v].len() implies (#[trigger] hs[v][i]).0 < n by {
            assert(entry_valid(g, s, hs, v, i));
        }
        lemma_list_len(hs[v], n);
    }
    lemma_total_bound(hs, n);
}

/// Appending to the list of `x` an entry whose hop it does not name yet, and
/// whose count is at most one more than the number of lists naming that hop,
/// keeps the lists valid and adds one entry in all.
proof fn lemma_add_entry(
    g: EdgeList,
    n: int,
    s: int,
    hs: Seq<Seq<(usize, usize)>>,
    x: int,
    h: usize,
    l: usize,
)
    requires
        lists_inv(g, n, s, hs),
        0 <= x < n,
        h < n,
        !lists_hop(hs[x], h as int),
        1 <= l <= holders(hs, h as int).len() + 1,
        is_first_hop(g, s, x, h as int, l as int),
    ensures
        lists_inv(g, n, s, hs.update(x, hs[x].push((h, l)))),
        total_len(hs.update(x, hs[x].push((h, l)))) == total_len(hs) + 1,
{
    let hs2 = hs.update(x, hs[x].push((h, l)));
    lemma_total_update(hs, x, hs[x].push((h, l)));
    // a list that named a hop still names it
    assert forall|y: int, k: int| 0 <= y < n && lists_hop(hs[y], k) implies #[trigger] lists_hop(hs2[y], k) by {
        let i = choose|i: int| 0 <= i < hs[y].len() && (#[trigger] hs[y][i]).0 == k;
        assert(hs2[y][i] == hs[y][i]);
    }
    assert(holders(hs2, h as int) =~= holders(hs, h as int).insert(x)) by {
        assert(hs2[x][hs[x].len() as int] == (h, l));
        assert forall|y: int| #[trigger] holders(hs2, h as int).contains(y) implies holders(hs, h as int).insert(x).contains(y) by {
            if y != x {
                assert(hs2[y] == hs[y]);
            }
        }
        assert forall|y: int| #[trigger] holders(hs, h as int).insert(x).contains(y) implies holders(hs2, h as int).contains(y) by {
            if y != x {
                assert(lists_hop(hs[y], h as int));
                assert(lists_hop(hs2[y], h as int));
            }
        }
    }
    lemma_holders_finite(hs, h as int);
    assert forall|v: int| 0 <= v < n implies hops_distinct(#[trigger] hs2[v]) by {
        if v == x {
            assert forall|i: int, j: int| 0 <= i < j < hs2[v].len() implies (#[trigger] hs2[v][i]).0 != (#[trigger] hs2[v][j]).0 by {
                if j == hs[x].len() {
                    assert(hs2[v][i] == hs[x][i]);
                } else {
                    assert(hs2[v][i] == hs[x][i] && hs2[v][j] == hs[x][j]);
                    assert(hops_distinct(hs[x]));
                }
            }
        } else {
            assert(hs2[v] == hs[v]);
        }
    }
    assert forall|v: int, i: int| #![trigger hs2[v][i]] 0 <= v < n && 0 <= i < hs2[v].len() implies entry_valid(g, s, hs2, v, i) by {
        if v == x && i == hs[x].len() {
            assert(hs2[v][i] == (h, l));
        } else {
            assert(hs2[v][i] == hs[v][i]);
            assert(entry_valid(g, s, hs, v, i));
            let k = hs[v][i].0 as int;
            lemma_holders_finite(hs2, k);
            assert(holders(hs, k).subset_of(holders(hs2, k))) by {
                assert forall|y: int| #[trigger] holders(hs, k).contains(y) implies holders(hs2, k).contains(y) by {
                    assert(lists_hop(hs2[y], k));
                }
            }
            lemma_len_subset(holders(hs, k), holders(hs2, k));
        }
    }
}

/// A least-cost walk costs the least cost.
proof fn lemma_shortest_cost(g: EdgeList, n: int, s: int, dist: Seq<Option<u64>>, p: Seq<int>, v: int)
    requires
        distances(g, n, s, dist),
        is_shortest_walk(g, p, s, v),
        0 <= v < n,
    ensures
        dist[v] is Some,
        walk_cost(g, p) == dist[v].unwrap(),
{
    assert(dist[v] is Some);
    assert(is_distance(g, s, v, dist[v].unwrap() as int));
    let r = choose|r: Seq<int>| is_walk(g, r, s, v) && walk_cost(g, r) == dist[v].unwrap();
    assert(walk_cost(g, p) <= walk_cost(g, r));
}

/// A least-cost walk to the source of a tight edge, extended by that edge, is
/// a least-cost walk to its target.
proof fn lemma_extend_hop(
    g: EdgeList,
    n: int,
    s: int,
    dist: Seq<Option<u64>>,
    e: int,
    h: int,
    l: int,
)
    requires
        distances(g, n, s, dist),
        tight(g, dist, e),
        dst(g, e) != s,
        is_first_hop(g, s, src(g, e), h, l),
        l >= 1,
    ensures
        is_first_hop(g, s, dst(g, e), h, l + 1),
{
    let u = src(g, e);
    let x = dst(g, e);
    let p = choose|p: Seq<int>|
        #[trigger] is_shortest_walk(g, p, s, u) && avoids_return(g, s, p) && first_hop_of(g, s, p) == (h, l);
    lemma_shortest_cost(g, n, s, dist, p, u);
    lemma_walk_push(g, p, s, u, e);
    lemma_avoids_push(g, s, p, e);
    assert(is_distance(g, s, x, dist[x].unwrap() as int));
    assert(is_shortest_walk(g, p.push(e), s, x));
}

/// A tight edge out of the start is by itself a least-cost walk to its target.
proof fn lemma_direct_hop(g: EdgeList, n: int, s: int, dist: Seq<Option<u64>>, e: int)
    requires
        distances(g, n, s, dist),
        tight(g, dist, e),
        src(g, e) == s,
        dst(g, e) != s,
    ensures
        is_first_hop(g, s, dst(g, e), dst(g, e), 1),
{
    let x = dst(g, e);
    let p = Seq::<int>::empty();
    assert(is_walk(g, p, s, s));
    lemma_walk_push(g, p, s, s, e);
    lemma_avoids_push(g, s, p, e);
    assert(is_distance(g, s, x, dist[x].unwrap() as int));
    assert(is_shortest_walk(g, p.push(e), s, x));
    assert(first_hop_of(g, s, p.push(e)) == (x, 1int));
}

/// Lists closed at every tight edge that does not enter the start name the
/// first hop of every nonempty least-cost walk that never comes back to the
/// start.
pub proof fn lemma_lists_complete(
    g: EdgeList,
    n: int,
    s: int,
    dist: Seq<Option<u64>>,
    hs: Seq<Seq<(usize, usize)>>,
    v: int,
    p: Seq<int>,
)
    requires
        distances(g, n, s, dist),
        hs.len() == n,
        forall|e: int| #[trigger] carries(g, s, dist, e) ==> closed_at(g, s, hs, e),
        is_shortest_walk(g, p, s, v),
        avoids_return(g, s, p),
        p.len() > 0,
    ensures
        0 <= v < n,
        lists_hop(hs[v], dst(g, p[0])),
    decreases p.len(),
{
    let k = p.len() - 1;
    let e = p[k];
    let q = p.take(k);
    let u = src(g, e);
    assert(0 <= e < g.len());
    assert(v == dst(g, e));
    assert(0 <= u < n && 0 <= v < n);
    lemma_walk_take(g, p, s, v, k);
    assert(is_walk(g, q, s, u));
    assert(q.push(e) =~= p);
    lemma_cost_push(g, q, e);
    lemma_shortest_cost(g, n, s, dist, p, v);
    // `u` is reached; its least cost is that of `q`
    assert(dist[u] is Some);
    assert(is_distance(g, s, u, dist[u].unwrap() as int));
    let r = choose|r: Seq<int>| is_walk(g, r, s, u) && walk_cost(g, r) == dist[u].unwrap();
    lemma_walk_push(g, r, s, u, e);
    assert(dist[u].unwrap() <= walk_cost(g, q));
    assert(walk_cost(g, p) <= walk_cost(g, r.push(e)));
    assert(tight(g, dist, e));
    assert(dst(g, p[k]) != s);
    assert(carries(g, s, dist, e));
    assert(closed_at(g, s, hs, e));
    if k == 0 {
        assert(u == s);
        assert(p[0] == e);
    } else {
        assert forall|q2: Seq<int>| is_walk(g, q2, s, u) implies walk_cost(g, q) <= walk_cost(g, q2) by {}
        assert(is_shortest_walk(g, q, s, u));
        assert(q[k - 1] == p[k - 1]);
        assert(dst(g, p[k - 1]) != s);
        assert(u != s);
        assert forall|i: int| 0 <= i < q.len() implies dst(g, #[trigger] q[i]) != s by {
            assert(q[i] == p[i]);
        }
        lemma_lists_complete(g, n, s, dist, hs, u, q);
        assert(q[0] == p[0]);
        let i = choose|i: int| 0 <= i < hs[u].len() && (#[trigger] hs[u][i]).0 == dst(g, q[0]);
        assert(lists_hop(hs[v], hs[u][i].0 as int));
    }
}

/// Carries the hops over the tight edge `e` from `u` to `x`, which is not the
/// start: `x` itself when `u` is the start, else every hop of `u`, each one
/// edge further; hops that `x` names already are skipped.  Returns whether any entry was added.
fn add_edge_hops(
    hops: &mut Vec<Vec<(usize, usize)>>,
    Ghost(g): Ghost<EdgeList>,
    Ghost(dist): Ghost<Seq<Option<u64>>>,
    n: usize,
    s: usize,
    u: usize,
    x: usize,
    Ghost(e): Ghost<int>,
) -> (grew: bool)
    requires
        distances(g, n as int, s as int, dist),
        lists_inv(g, n as int, s as int, lists_of(old(hops)@)),
        old(hops)@.len() == n,
        tight(g, dist, e),
        src(g, e) == u,
        dst(g, e) == x,
        x != s,
    ensures
        final(hops)@.len() == n,
        lists_inv(g, n as int, s as int, lists_of(final(hops)@)),
        total_len(lists_of(final(hops)@)) >= total_len(lists_of(old(hops)@)),
        grew ==> total_len(lists_of(final(hops)@)) > total_len(lists_of(old(hops)@)),
        !grew ==> final(hops)@ == old(hops)@ && closed_at(g, s as int, lists_of(old(hops)@), e),
{
    let ghost h0 = lists_of(hops@);
    let mut grew = false;
    if u == s {
        if !lists_node(&hops[x], x) {
            proof {
                assert(h0[x as int] == hops@[x as int]@);
                lemma_direct_hop(g, n as int, s as int, dist, e);
                lemma_add_entry(g, n as int, s as int, h0, x as int, x, 1);
            }
            hops[x].push((x, 1));
            proof {
                assert(lists_of(hops@) =~= h0.update(x as int, h0[x as int].push((x, 1usize))));
                assert(lists_of(hops@)[x as int][h0[x as int].len() as int] == (x, 1usize));
            }
            grew = true;
        } else {
            proof {
                assert(h0[x as int] == hops@[x as int]@);
            }
        }
        return grew;
    }
    let ghost h1 = lists_of(hops@);
    let ghost hu = h1[u as int];
    let m = hops[u].len();
    let mut k: usize = 0;
    while k < m
        invariant
            distances(g, n as int, s as int, dist),
            tight(g, dist, e),
            src(g, e) == u,
            dst(g, e) == x,
            u < n,
            x < n,
            x != s,
            hops@.len() == n,
            lists_inv(g, n as int, s as int, lists_of(hops@)),
            m == hu.len(),
            k <= m,
            lists_of(hops@)[u as int].len() >= m,
            forall|i: int| 0 <= i < m ==> #[trigger] lists_of(hops@)[u as int][i] == hu[i],
            total_len(lists_of(hops@)) >= total_len(h0),
            grew ==> total_len(lists_of(hops@)) > total_len(h0),
            !grew ==> hops@ == old(hops)@ && h1 == h0,
            u == s ==> lists_hop(lists_of(hops@)[x as int], x as int),
            forall|i: int| 0 <= i < k ==> lists_hop(lists_of(hops@)[x as int], (#[trigger] hu[i]).0 as int),
        decreases m - k,
    {
        let ghost cur = lists_of(hops@);
        assert(cur[u as int] == hops@[u as int]@);
        assert(cur[x as int] == hops@[x as int]@);
        let (h, l) = hops[u][k];
        assert(cur[u as int][k as int] == (h, l));
        if !lists_node(&hops[x], h) {
            proof {
                assert(entry_valid(g, s as int, cur, u as int, k as int));
                lemma_extend_hop(g, n as int, s as int, dist, e, h as int, l as int);
                lemma_holders_finite(cur, h as int);
                crate::search::lemma_settled_count(holders(cur, h as int), n as int, x as int);
                lemma_add_entry(g, n as int, s as int, cur, x as int, h, (l + 1) as usize);
            }
            hops[x].push((h, l + 1));
            proof {
                let nh = lists_of(hops@);
                assert(nh =~= cur.update(x as int, cur[x as int].push((h, (l + 1) as usize))));
                assert(nh[x as int][cur[x as int].len() as int] == (h, (l + 1) as usize));
                // what `x` named it still names
                assert forall|k2: int| lists_hop(cur[x as int], k2) implies lists_hop(nh[x as int], k2) by {
                    let i = choose|i: int| 0 <= i < cur[x as int].len() && (#[trigger] cur[x as int][i]).0 == k2;
                    assert(nh[x as int][i] == cur[x as int][i]);
                }
                assert forall|i: int| 0 <= i < m implies #[trigger] nh[u as int][i] == hu[i] by {
                    assert(cur[u as int][i] == hu[i]);
                }
                assert forall|i: int| 0 <= i < k + 1 implies lists_hop(nh[x as int], (#[trigger] hu[i]).0 as int) by {
                    if i < k {
                        assert(lists_hop(cur[x as int], hu[i].0 as int));
                    }
                }
                if u == s {
                    assert(lists_hop(cur[x as int], x as int));
                }
            }
            grew = true;
        } else {
            proof {
                assert(hu[k as int].0 == h);
            }
        }
        k = k + 1;
    }
    proof {
        if !grew {
            assert(hu == h0[u as int]);
            assert forall|i: int| 0 <= i < h0[u as int].len() implies lists_hop(h0[x as int], (#[trigger] h0[u as int][i]).0 as int) by {
                assert(hu[i] == h0[u as int][i]);
            }
        }
    }
    grew
}

/// The equal-cost first hops of every node, given the least costs `dist`:
/// for each node, its list names, once each, the first hop of every nonempty
/// least-cost walk from `start` to it that never comes back to `start`, each
/// with the number of edges of such a walk.  The start's own list stays
/// empty.
pub fn equal_cost_hops(graph: &DiGraph<&'static str, u32>, start: usize, dist: &Vec<Option<u64>>) -> (hops: Vec<
    Vec<(usize, usize)>,
>)
    requires
        distances(topology_edges(*graph), topology_node_count(*graph) as int, start as int, dist@),
    ensures
        hops@.len() == topology_node_count(*graph),
        hops@[start as int]@.len() == 0,
        forall|v: int| 0 <= v < hops@.len() ==> hops_distinct(#[trigger] hops@[v]@),
        forall|v: int, i: int|
            0 <= v < hops@.len() && 0 <= i < hops@[v]@.len() ==> (#[trigger] hops@[v]@[i]).1 >= 1
                && is_first_hop(
                topology_edges(*graph),
                start as int,
                v,
                hops@[v]@[i].0 as int,
                hops@[v]@[i].1 as int,
            ),
        forall|v: int, p: Seq<int>|
            #[trigger] is_shortest_walk(topology_edges(*graph), p, start as int, v) && avoids_return(
                topology_edges(*graph),
                start as int,
                p,
            ) && p.len() > 0 ==> 0
                <= v < hops@.len() && lists_hop(hops@[v]@, dst(topology_edges(*graph), p[0])),
{
    let ghost g = topology_edges(*graph);
    let n = node_count(graph);
    let mut hops = empty_lists(n);
    proof {
        let hs = lists_of(hops@);
        assert forall|v: int| 0 <= v < n implies hops_distinct(#[trigger] hs[v]) by {
            assert(hs[v] == hops@[v]@);
        }
        assert forall|v: int, i: int| #![trigger hs[v][i]] 0 <= v < n && 0 <= i < hs[v].len() implies entry_valid(g, start as int, hs, v, i) by {
            assert(hs[v] == hops@[v]@);
        }
        lemma_lists_total(g, n as int, start as int, hs);
    }
    let mut grew = true;
    while grew
        invariant
            g == topology_edges(*graph),
            n == topology_node_count(*graph),
            distances(g, n as int, start as int, dist@),
            hops@.len() == n,
            lists_inv(g, n as int, start as int, lists_of(hops@)),
            0 <= total_len(lists_of(hops@)) <= n * n,
            !grew ==> forall|e: int| #[trigger] carries(g, start as int, dist@, e) ==> closed_at(g, start as int, lists_of(hops@), e),
        decreases n * n - total_len(lists_of(hops@)), if grew { 1int } else { 0int },
    {
        let ghost h0 = lists_of(hops@);
        grew = false;
        let mut u: usize = 0;
        while u < n
            invariant
                g == topology_edges(*graph),
                n == topology_node_count(*graph),
                distances(g, n as int, start as int, dist@),
                u <= n,
                hops@.len() == n,
                lists_inv(g, n as int, start as int, lists_of(hops@)),
                total_len(lists_of(hops@)) >= total_len(h0),
                grew ==> total_len(lists_of(hops@)) > total_len(h0),
                !grew ==> lists_of(hops@) == h0 && forall|e: int|
                    #[trigger] carries(g, start as int, dist@, e) && src(g, e) < u ==> closed_at(g, start as int, h0, e),
            decreases n - u,
        {
            match dist[u] {
                Some(du) => {
                    let edges = outgoing_edges(graph, u);
                    let mut j: usize = 0;
                    while j < edges.len()
                        invariant
                            g == topology_edges(*graph),
                            n == topology_node_count(*graph),
                            distances(g, n as int, start as int, dist@),
                            u < n,
                            dist@[u as int] == Some(du),
                            j <= edges@.len(),
                            forall|k: int|
                                0 <= k < edges@.len() ==> (#[trigger] edges@[k]).0 < g.len() && g[edges@[k].0 as int]
                                    == (u, edges@[k].1, edges@[k].2),
                            hops@.len() == n,
                            lists_inv(g, n as int, start as int, lists_of(hops@)),
                            total_len(lists_of(hops@)) >= total_len(h0),
                            grew ==> total_len(lists_of(hops@)) > total_len(h0),
                            !grew ==> lists_of(hops@) == h0 && (forall|e: int|
                                #[trigger] carries(g, start as int, dist@, e) && src(g, e) < u ==> closed_at(g, start as int, h0, e))
                                && forall|k: int|
                                0 <= k < j && carries(g, start as int, dist@, (#[trigger] edges@[k]).0 as int) ==> closed_at(
                                    g,
                                    start as int,
                                    h0,
                                    edges@[k].0 as int,
                                ),
                        decreases edges@.len() - j,
                    {
                        let (eid, x, w) = edges[j];
                        let ghost e = eid as int;
                        proof {
                            assert(src(g, e) == u as int && dst(g, e) == x as int && weight(g, e) == w as int);
                            assert(x < n);
                        }
                        match dist[x] {
                            Some(dx) => {
                                if x != start && (w as u64) <= dx && dx - (w as u64) == du {
                                    proof {
                                        assert(tight(g, dist@, e));
                                    }
                                    let added = add_edge_hops(&mut hops, Ghost(g), Ghost(dist@), n, start, u, x, Ghost(e));
                                    if added {
                                        grew = true;
                                    }
                                } else {
                                    proof {
                                        assert(!carries(g, start as int, dist@, e));
                                    }
                                }
                            },
                            None => {
                                proof {
                                    assert(!carries(g, start as int, dist@, e));
                                }
                            },
                        }
                        j = j + 1;
                    }
                    proof {
                        if !grew {
                            assert forall|e: int| #[trigger] carries(g, start as int, dist@, e) && src(g, e) < u + 1 implies closed_at(g, start as int, h0, e) by {
                                if src(g, e) == u {
                                    let k = choose|k: int| 0 <= k < edges@.len() && (#[trigger] edges@[k]).0 == e;
                                    assert(carries(g, start as int, dist@, edges@[k].0 as int));
                                }
                            }
                        }
                    }
                },
                None => {
                    proof {
                        if !grew {
                            assert forall|e: int| #[trigger] carries(g, start as int, dist@, e) && src(g, e) < u + 1 implies closed_at(g, start as int, h0, e) by {
                                assert(src(g, e) != u);
                            }
                        }
                    }
                },
            }
            u = u + 1;
        }
        proof {
            lemma_lists_total(g, n as int, start as int, lists_of(hops@));
        }
    }
    proof {
        let hs = lists_of(hops@);
        assert forall|v: int| 0 <= v < hops@.len() implies hops_distinct(#[trigger] hops@[v]@) by {
            assert(hs[v] == hops@[v]@);
        }
        assert forall|v: int, i: int|
            0 <= v < hops@.len() && 0 <= i < hops@[v]@.len() implies (#[trigger] hops@[v]@[i]).1 >= 1
                && is_first_hop(g, start as int, v, hops@[v]@[i].0 as int, hops@[v]@[i].1 as int) by {
            assert(hs[v] == hops@[v]@);
            assert(hs[v][i] == hops@[v]@[i]);
            assert(entry_valid(g, start as int, hs, v, i));
        }
        assert forall|v: int, p: Seq<int>|
            #[trigger] is_shortest_walk(g, p, start as int, v) && avoids_return(g, start as int, p) && p.len() > 0 implies 0 <= v < hops@.len()
                && lists_hop(hops@[v]@, dst(g, p[0])) by {
            lemma_lists_complete(g, n as int, start as int, dist@, hs, v, p);
            assert(hs[v] == hops@[v]@);
        }
        assert(hs[start as int] == hops@[start as int]@);
        if hs[start as int].len() > 0 {
            assert(entry_valid(g, start as int, hs, start as int, 0));
            lemma_no_hop_to_start(g, start as int, hs[start as int][0].0 as int, hs[start as int][0].1 as int);
        }
    }
    hops
}

} // verus!
