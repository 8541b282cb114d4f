//! The state that every search of this crate keeps, and what each of its
//! steps preserves: the scores found so far, the nodes already settled, the
//! frontier of scored nodes still to settle, and (as ghost state) a walk that
//! realises each score.
use crate::scored::MinScored;
use crate::walks::{
    is_distance, is_shortest_walk, lemma_closed_set_holds_walk_end, lemma_walk_push, reachable, is_walk, lemma_cost_nonneg, lemma_cost_push, lemma_exit_edge, lemma_walk_take, src, dst, walk_cost,
    weight, EdgeList,
};
use std::collections::HashMap;
use vstd::prelude::*;
use vstd::set_lib::{lemma_int_range, lemma_len_subset, set_int_range};

verus! {

pub open spec fn scored(dist: Seq<Option<u64>>, v: int) -> bool {
    0 <= v < dist.len() && dist[v] is Some
}

pub open spec fn score(dist: Seq<Option<u64>>, v: int) -> int {
    dist[v].unwrap() as int
}

/// Every edge joins two of the nodes `0 .. n`.
pub open spec fn edges_within(g: EdgeList, n: int) -> bool {
    forall|e: int| 0 <= e < g.len() ==> 0 <= #[trigger] src(g, e) < n && 0 <= dst(g, e) < n
}

/// Each scored node's ghost walk leads from `s` to it, costs its score, and
/// has at most `bound` edges.
pub open spec fn witnessed(
    g: EdgeList,
    s: int,
    dist: Seq<Option<u64>>,
    wit: Seq<Seq<int>>,
    bound: int,
) -> bool {
    forall|v: int|
        0 <= v < dist.len() && (#[trigger] dist[v]) is Some ==> {
            &&& is_walk(g, wit[v], s, v)
            &&& walk_cost(g, wit[v]) == dist[v].unwrap()
            &&& wit[v].len() <= bound
        }
}

/// No walk to a settled node costs less than its score.
pub open spec fn settled_optimal(
    g: EdgeList,
    s: int,
    dist: Seq<Option<u64>>,
    settled: Set<int>,
) -> bool {
    forall|v: int, p: Seq<int>|
        #![trigger settled.contains(v), is_walk(g, p, s, v)]
        settled.contains(v) && is_walk(g, p, s, v) ==> score(dist, v) <= walk_cost(g, p)
}

/// Every edge out of a settled node has been relaxed.
pub open spec fn relaxed(g: EdgeList, dist: Seq<Option<u64>>, settled: Set<int>) -> bool {
    forall|e: int|
        0 <= e < g.len() && settled.contains(#[trigger] src(g, e)) ==> scored(dist, dst(g, e))
            && score(dist, dst(g, e)) <= score(dist, src(g, e)) + weight(g, e)
}

/// Settled nodes score no more than any scored node that is not settled.
pub open spec fn settled_first(dist: Seq<Option<u64>>, settled: Set<int>) -> bool {
    forall|x: int, y: int|
        #![trigger settled.contains(x), dist[y]]
        settled.contains(x) && 0 <= y < dist.len() && dist[y] is Some && !settled.contains(y)
            ==> score(dist, x) <= score(dist, y)
}

/// Every frontier entry names a scored node and scores no less than it.
pub open spec fn frontier_sound(dist: Seq<Option<u64>>, frontier: Seq<MinScored<u64, usize>>) -> bool {
    forall|i: int|
        0 <= i < frontier.len() ==> scored(dist, (#[trigger] frontier[i]).1 as int) && score(
            dist,
            frontier[i].1 as int,
        ) <= frontier[i].0
}

/// Every scored node that is neither settled nor `except` waits in the
/// frontier with its current score.
pub open spec fn frontier_covers(
    dist: Seq<Option<u64>>,
    settled: Set<int>,
    frontier: Seq<MinScored<u64, usize>>,
    except: int,
) -> bool {
    forall|v: int|
        0 <= v < dist.len() && (#[trigger] dist[v]) is Some && !settled.contains(v) && v != except
            ==> exists|i: int|
            0 <= i < frontier.len() && (#[trigger] frontier[i]).0 == dist[v].unwrap() && frontier[i].1
                == v
}

/// The state between two steps of the search from `s`.
pub open spec fn search_inv(
    g: EdgeList,
    n: int,
    s: int,
    vis: Set<int>,
    dist: Seq<Option<u64>>,
    frontier: Seq<MinScored<u64, usize>>,
    wit: Seq<Seq<int>>,
) -> bool {
    &&& 0 <= s < n <= u32::MAX
    &&& dist.len() == n
    &&& wit.len() == n
    &&& edges_within(g, n)
    &&& vis.finite()
    &&& forall|v: int| #[trigger] vis.contains(v) ==> 0 <= v < n && dist[v] is Some
    &&& dist[s] == Some(0u64)
    &&& wit[s].len() == 0
    &&& witnessed(g, s, dist, wit, vis.len() as int)
    &&& settled_optimal(g, s, dist, vis)
    &&& relaxed(g, dist, vis)
    &&& settled_first(dist, vis)
    &&& frontier_sound(dist, frontier)
    &&& frontier_covers(dist, vis, frontier, -1)
    &&& vis.contains(s) || (vis.is_empty() && forall|v: int|
        0 <= v < n && (#[trigger] dist[v]) is Some ==> v == s)
}

/// The state while the edges out of `u` are relaxed; `done` lists the edges
/// relaxed so far.
pub open spec fn relax_inv(
    g: EdgeList,
    n: int,
    s: int,
    vis: Set<int>,
    u: int,
    dist: Seq<Option<u64>>,
    frontier: Seq<MinScored<u64, usize>>,
    wit: Seq<Seq<int>>,
    done: Seq<int>,
) -> bool {
    &&& 0 <= s < n <= u32::MAX
    &&& dist.len() == n
    &&& wit.len() == n
    &&& edges_within(g, n)
    &&& vis.finite()
    &&& forall|v: int| #[trigger] vis.contains(v) ==> 0 <= v < n && dist[v] is Some
    &&& 0 <= u < n
    &&& !vis.contains(u)
    &&& dist[u] is Some
    &&& dist[s] == Some(0u64)
    &&& wit[s].len() == 0
    &&& witnessed(g, s, dist, wit, vis.len() + 1int)
    &&& wit[u].len() <= vis.len()
    &&& settled_optimal(g, s, dist, vis.insert(u))
    &&& relaxed(g, dist, vis)
    &&& forall|j: int|
        0 <= j < done.len() ==> 0 <= #[trigger] done[j] < g.len() && src(g, done[j]) == u
            && scored(dist, dst(g, done[j])) && score(dist, dst(g, done[j])) <= score(dist, u)
            + weight(g, done[j])
    &&& settled_first(dist, vis.insert(u))
    &&& forall|x: int| #[trigger] vis.contains(x) ==> score(dist, x) <= score(dist, u)
    &&& frontier_sound(dist, frontier)
    &&& frontier_covers(dist, vis, frontier, u)
    &&& vis.contains(s) || (u == s && vis.is_empty())
}

/// A set of nodes among `0 .. n` that misses `u` has fewer than `n` members.
pub proof fn lemma_settled_count(vis: Set<int>, n: int, u: int)
    requires
        vis.finite(),
        forall|v: int| #[trigger] vis.contains(v) ==> 0 <= v < n,
        0 <= u < n,
        !vis.contains(u),
    ensures
        vis.len() + 1 <= n,
        vis.insert(u).len() == vis.len() + 1,
{
    lemma_int_range(0, n);
    assert(vis.insert(u).subset_of(set_int_range(0, n)));
    lemma_len_subset(vis.insert(u), set_int_range(0, n));
}

/// A set of nodes among `0 .. n` has at most `n` members.
pub proof fn lemma_node_set_len(vis: Set<int>, n: int)
    requires
        0 <= n,
        vis.finite(),
        forall|v: int| #[trigger] vis.contains(v) ==> 0 <= v < n,
    ensures
        vis.len() <= n,
{
    lemma_int_range(0, n);
    assert(vis.subset_of(set_int_range(0, n)));
    lemma_len_subset(vis, set_int_range(0, n));
}

/// Removing one entry keeps every other entry.
pub proof fn lemma_remove_keeps<A>(f: Seq<A>, i: int, j: int)
    requires
        0 <= i < f.len(),
        0 <= j < f.len(),
        j != i,
    ensures
        f.remove(i)[if j < i {
            j
        } else {
            j - 1
        }] == f[j],
{
}

/// The state a search starts from: only `s` is scored, at zero, by the empty
/// walk, and the frontier holds it alone.
pub proof fn lemma_start(g: EdgeList, n: int, s: int, dist: Seq<Option<u64>>, wit: Seq<Seq<int>>)
    requires
        0 <= s < n <= u32::MAX,
        edges_within(g, n),
        dist.len() == n,
        wit.len() == n,
        forall|v: int| 0 <= v < n ==> #[trigger] dist[v] == if v == s {
            Some(0u64)
        } else {
            None::<u64>
        },
        forall|v: int| 0 <= v < n ==> (#[trigger] wit[v]).len() == 0,
    ensures
        search_inv(
            g,
            n,
            s,
            Set::empty(),
            dist,
            seq![MinScored(0u64, s as usize)],
            wit,
        ),
{
    let f = seq![MinScored(0u64, s as usize)];
    assert(frontier_covers(dist, Set::empty(), f, -1)) by {
        assert forall|v: int|
            0 <= v < dist.len() && (#[trigger] dist[v]) is Some && !Set::<int>::empty().contains(v)
                && v != -1 implies exists|i: int|
            0 <= i < f.len() && (#[trigger] f[i]).0 == dist[v].unwrap() && f[i].1 == v by {
            assert(f[0].1 == v);
        }
    }
    assert(witnessed(g, s, dist, wit, 0)) by {
        assert forall|v: int| 0 <= v < dist.len() && (#[trigger] dist[v]) is Some implies {
            &&& is_walk(g, wit[v], s, v)
            &&& walk_cost(g, wit[v]) == dist[v].unwrap()
            &&& wit[v].len() <= 0
        } by {
            assert(v == s);
            assert(wit[v].len() == 0);
        }
    }
}

/// Taking out a frontier entry of a settled node leaves the state intact.
pub proof fn lemma_pop_settled(
    g: EdgeList,
    n: int,
    s: int,
    vis: Set<int>,
    dist: Seq<Option<u64>>,
    frontier: Seq<MinScored<u64, usize>>,
    wit: Seq<Seq<int>>,
    i: int,
)
    requires
        search_inv(g, n, s, vis, dist, frontier, wit),
        0 <= i < frontier.len(),
        vis.contains(frontier[i].1 as int),
    ensures
        search_inv(g, n, s, vis, dist, frontier.remove(i), wit),
{
    let f2 = frontier.remove(i);
    assert forall|k: int| 0 <= k < f2.len() implies scored(dist, (#[trigger] f2[k]).1 as int) && score(
        dist,
        f2[k].1 as int,
    ) <= f2[k].0 by {
        let j = if k < i {
            k
        } else {
            k + 1
        };
        lemma_remove_keeps(frontier, i, j);
        assert(f2[k] == frontier[j]);
    }
    assert forall|v: int|
        0 <= v < dist.len() && (#[trigger] dist[v]) is Some && !vis.contains(v) && v != -1 implies exists|
        k: int,
    | 0 <= k < f2.len() && (#[trigger] f2[k]).0 == dist[v].unwrap() && f2[k].1 == v by {
        let j = choose|j: int|
            0 <= j < frontier.len() && (#[trigger] frontier[j]).0 == dist[v].unwrap()
                && frontier[j].1 == v;
        lemma_remove_keeps(frontier, i, j);
        let k = if j < i {
            j
        } else {
            j - 1
        };
        assert(f2[k] == frontier[j]);
    }
}

/// Taking out the least frontier entry of a node not yet settled: its score is
/// the least of all nodes waiting, no walk to it costs less, and relaxing its
/// edges may begin.
pub proof fn lemma_pop_unsettled(
    g: EdgeList,
    n: int,
    s: int,
    vis: Set<int>,
    dist: Seq<Option<u64>>,
    frontier: Seq<MinScored<u64, usize>>,
    wit: Seq<Seq<int>>,
    i: int,
)
    requires
        search_inv(g, n, s, vis, dist, frontier, wit),
        0 <= i < frontier.len(),
        !vis.contains(frontier[i].1 as int),
        forall|j: int| 0 <= j < frontier.len() ==> frontier[i].0 <= (#[trigger] frontier[j]).0,
    ensures
        frontier[i].0 == dist[frontier[i].1 as int].unwrap(),
        relax_inv(
            g,
            n,
            s,
            vis,
            frontier[i].1 as int,
            dist,
            frontier.remove(i),
            wit,
            Seq::empty(),
        ),
{
    let u = frontier[i].1 as int;
    let d = frontier[i].0;
    assert(scored(dist, u));
    assert(dist[u] is Some);
    let j0 = choose|j: int|
        0 <= j < frontier.len() && (#[trigger] frontier[j]).0 == dist[u].unwrap() && frontier[j].1
            == u;
    assert(d <= frontier[j0].0);
    assert(d == dist[u].unwrap());
    // u scores no more than any other node waiting
    assert forall|y: int|
        0 <= y < dist.len() && (#[trigger] dist[y]) is Some && !vis.contains(y) implies score(dist, u)
        <= score(dist, y) by {
        let jy = choose|j: int|
            0 <= j < frontier.len() && (#[trigger] frontier[j]).0 == dist[y].unwrap()
                && frontier[j].1 == y;
        assert(d <= frontier[jy].0);
    }
    // no walk to u costs less than its score
    assert forall|v: int, p: Seq<int>|
        #![trigger vis.insert(u).contains(v), is_walk(g, p, s, v)]
        vis.insert(u).contains(v) && is_walk(g, p, s, v) implies score(dist, v) <= walk_cost(g, p) by {
        if v == u {
            if u == s {
                lemma_cost_nonneg(g, p);
            } else {
                assert(vis.contains(s));
                let k = lemma_exit_edge(g, p, s, u, vis);
                let x = src(g, p[k]);
                let y = dst(g, p[k]);
                lemma_walk_take(g, p, s, u, k);
                lemma_walk_take(g, p, s, u, k + 1);
                assert(p.take(k).push(p[k]) =~= p.take(k + 1));
                assert(0 <= p[k] < g.len());
                lemma_cost_push(g, p.take(k), p[k]);
                assert(vis.contains(x));
                assert(score(dist, x) <= walk_cost(g, p.take(k)));
                assert(scored(dist, y));
                assert(dist[y] is Some);
            }
        }
    }
    let f2 = frontier.remove(i);
    assert forall|k: int| 0 <= k < f2.len() implies scored(dist, (#[trigger] f2[k]).1 as int) && score(
        dist,
        f2[k].1 as int,
    ) <= f2[k].0 by {
        let j = if k < i {
            k
        } else {
            k + 1
        };
        lemma_remove_keeps(frontier, i, j);
        assert(f2[k] == frontier[j]);
    }
    assert forall|v: int|
        0 <= v < dist.len() && (#[trigger] dist[v]) is Some && !vis.contains(v) && v != u implies exists|
        k: int,
    | 0 <= k < f2.len() && (#[trigger] f2[k]).0 == dist[v].unwrap() && f2[k].1 == v by {
        let j = choose|j: int|
            0 <= j < frontier.len() && (#[trigger] frontier[j]).0 == dist[v].unwrap()
                && frontier[j].1 == v;
        lemma_remove_keeps(frontier, i, j);
        let k = if j < i {
            j
        } else {
            j - 1
        };
        assert(f2[k] == frontier[j]);
    }
    assert forall|x: int| #[trigger] vis.contains(x) implies score(dist, x) <= score(dist, u) by {
        assert(dist[u] is Some);
    }
    assert(settled_first(dist, vis.insert(u))) by {
        assert forall|x: int, y: int|
            #![trigger vis.insert(u).contains(x), dist[y]]
            vis.insert(u).contains(x) && 0 <= y < dist.len() && dist[y] is Some && !vis.insert(
                u,
            ).contains(y) implies score(dist, x) <= score(dist, y) by {
            if x != u {
                assert(vis.contains(x));
            }
        }
    }
    assert(vis.contains(s) || (u == s && vis.is_empty()));
}

/// Relaxing an edge `e` out of `u` that improves the score of its target `y`:
/// `y` takes the score through `u`, the walk to `u` extended by `e`, and a new
/// frontier entry.
pub proof fn lemma_relax_improves(
    g: EdgeList,
    n: int,
    s: int,
    vis: Set<int>,
    u: int,
    dist: Seq<Option<u64>>,
    frontier: Seq<MinScored<u64, usize>>,
    wit: Seq<Seq<int>>,
    done: Seq<int>,
    e: int,
    next_score: u64,
)
    requires
        relax_inv(g, n, s, vis, u, dist, frontier, wit, done),
        0 <= e < g.len(),
        src(g, e) == u,
        !vis.contains(dst(g, e)),
        next_score == score(dist, u) + weight(g, e),
        dist[dst(g, e)] is None || next_score < dist[dst(g, e)].unwrap(),
    ensures
        dst(g, e) != u,
        dst(g, e) != s,
        relax_inv(
            g,
            n,
            s,
            vis,
            u,
            dist.update(dst(g, e), Some(next_score)),
            frontier.push(MinScored(next_score, dst(g, e) as usize)),
            wit.update(dst(g, e), wit[u].push(e)),
            done.push(e),
        ),
{
    let y = dst(g, e);
    let d2 = dist.update(y, Some(next_score));
    let f2 = frontier.push(MinScored(next_score, y as usize));
    let w2 = wit.update(y, wit[u].push(e));
    let done2 = done.push(e);
    assert(0 <= y < n);
    assert(y != u);
    assert(y != s);
    lemma_walk_push(g, wit[u], s, u, e);
    assert(witnessed(g, s, d2, w2, vis.len() + 1int)) by {
        assert forall|v: int| 0 <= v < d2.len() && (#[trigger] d2[v]) is Some implies {
            &&& is_walk(g, w2[v], s, v)
            &&& walk_cost(g, w2[v]) == d2[v].unwrap()
            &&& w2[v].len() <= vis.len() + 1int
        } by {
            if v != y {
                assert(dist[v] is Some);
            }
        }
    }
    assert(settled_optimal(g, s, d2, vis.insert(u))) by {
        assert forall|v: int, p: Seq<int>|
            #![trigger vis.insert(u).contains(v), is_walk(g, p, s, v)]
            vis.insert(u).contains(v) && is_walk(g, p, s, v) implies score(d2, v) <= walk_cost(g, p) by {
            assert(v != y);
        }
    }
    assert(relaxed(g, d2, vis)) by {
        assert forall|f: int| 0 <= f < g.len() && vis.contains(#[trigger] src(g, f)) implies scored(
            d2,
            dst(g, f),
        ) && score(d2, dst(g, f)) <= score(d2, src(g, f)) + weight(g, f) by {
            assert(src(g, f) != y);
        }
    }
    assert forall|j: int| 0 <= j < done2.len() implies 0 <= #[trigger] done2[j] < g.len() && src(
        g,
        done2[j],
    ) == u && scored(d2, dst(g, done2[j])) && score(d2, dst(g, done2[j])) <= score(d2, u) + weight(
        g,
        done2[j],
    ) by {
        if j < done.len() {
            assert(done2[j] == done[j]);
        }
    }
    assert(settled_first(d2, vis.insert(u))) by {
        assert forall|x: int, z: int|
            #![trigger vis.insert(u).contains(x), d2[z]]
            vis.insert(u).contains(x) && 0 <= z < d2.len() && d2[z] is Some && !vis.insert(u).contains(
                z,
            ) implies score(d2, x) <= score(d2, z) by {
            assert(x != y);
            if z != y {
                assert(dist[z] is Some);
            } else if x != u {
                assert(vis.contains(x));
            }
        }
    }
    assert forall|x: int| #[trigger] vis.contains(x) implies score(d2, x) <= score(d2, u) by {
        assert(x != y);
    }
    assert(frontier_sound(d2, f2)) by {
        assert forall|i: int| 0 <= i < f2.len() implies scored(d2, (#[trigger] f2[i]).1 as int) && score(
            d2,
            f2[i].1 as int,
        ) <= f2[i].0 by {
            if i < frontier.len() {
                assert(f2[i] == frontier[i]);
            }
        }
    }
    assert(frontier_covers(d2, vis, f2, u)) by {
        assert forall|v: int|
            0 <= v < d2.len() && (#[trigger] d2[v]) is Some && !vis.contains(v) && v != u implies exists|
            i: int,
        | 0 <= i < f2.len() && (#[trigger] f2[i]).0 == d2[v].unwrap() && f2[i].1 == v by {
            if v == y {
                assert(f2[frontier.len() as int] == MinScored(next_score, y as usize));
            } else {
                assert(dist[v] is Some);
                let j = choose|j: int|
                    0 <= j < frontier.len() && (#[trigger] frontier[j]).0 == dist[v].unwrap()
                        && frontier[j].1 == v;
                assert(f2[j] == frontier[j]);
            }
        }
    }
}

/// Relaxing an edge `e` out of `u` whose target is settled or scores no more
/// than the way through `u` changes nothing but the list of relaxed edges.
pub proof fn lemma_relax_keeps(
    g: EdgeList,
    n: int,
    s: int,
    vis: Set<int>,
    u: int,
    dist: Seq<Option<u64>>,
    frontier: Seq<MinScored<u64, usize>>,
    wit: Seq<Seq<int>>,
    done: Seq<int>,
    e: int,
)
    requires
        relax_inv(g, n, s, vis, u, dist, frontier, wit, done),
        0 <= e < g.len(),
        src(g, e) == u,
        vis.contains(dst(g, e)) || (dist[dst(g, e)] is Some && dist[dst(g, e)].unwrap() <= score(
            dist,
            u,
        ) + weight(g, e)),
    ensures
        relax_inv(g, n, s, vis, u, dist, frontier, wit, done.push(e)),
{
    let done2 = done.push(e);
    assert(0 <= dst(g, e) < n);
    assert forall|j: int| 0 <= j < done2.len() implies 0 <= #[trigger] done2[j] < g.len() && src(
        g,
        done2[j],
    ) == u && scored(dist, dst(g, done2[j])) && score(dist, dst(g, done2[j])) <= score(dist, u)
        + weight(g, done2[j]) by {
        if j < done.len() {
            assert(done2[j] == done[j]);
        } else {
            if vis.contains(dst(g, e)) {
                assert(score(dist, dst(g, e)) <= score(dist, u));
            }
        }
    }
}

/// Once every edge out of `u` is relaxed, `u` is settled.
pub proof fn lemma_settle(
    g: EdgeList,
    n: int,
    s: int,
    vis: Set<int>,
    u: int,
    dist: Seq<Option<u64>>,
    frontier: Seq<MinScored<u64, usize>>,
    wit: Seq<Seq<int>>,
    done: Seq<int>,
)
    requires
        relax_inv(g, n, s, vis, u, dist, frontier, wit, done),
        forall|e: int| 0 <= e < g.len() && #[trigger] src(g, e) == u ==> done.contains(e),
    ensures
        search_inv(g, n, s, vis.insert(u), dist, frontier, wit),
        vis.insert(u).len() == vis.len() + 1,
{
    lemma_settled_count(vis, n, u);
    let vis2 = vis.insert(u);
    assert(relaxed(g, dist, vis2)) by {
        assert forall|f: int| 0 <= f < g.len() && vis2.contains(#[trigger] src(g, f)) implies scored(
            dist,
            dst(g, f),
        ) && score(dist, dst(g, f)) <= score(dist, src(g, f)) + weight(g, f) by {
            if src(g, f) == u {
                assert(done.contains(f));
                let j = choose|j: int| 0 <= j < done.len() && done[j] == f;
                assert(0 <= done[j] < g.len());
            } else {
                assert(vis.contains(src(g, f)));
            }
        }
    }
    assert forall|v: int| #[trigger] vis2.contains(v) implies 0 <= v < n && dist[v] is Some by {
        if v != u {
            assert(vis.contains(v));
        }
    }
    assert(frontier_covers(dist, vis2, frontier, -1)) by {
        assert forall|v: int|
            0 <= v < dist.len() && (#[trigger] dist[v]) is Some && !vis2.contains(v) && v != -1 implies exists|
            i: int,
        | 0 <= i < frontier.len() && (#[trigger] frontier[i]).0 == dist[v].unwrap() && frontier[i].1
            == v by {
            assert(!vis.contains(v) && v != u);
        }
    }
}

/// When the frontier runs empty, the scored nodes are exactly those reachable
/// from `s`, all settled, each scored with its least cost and witnessed by a
/// walk of that cost.
pub proof fn lemma_search_done(
    g: EdgeList,
    n: int,
    s: int,
    vis: Set<int>,
    dist: Seq<Option<u64>>,
    wit: Seq<Seq<int>>,
)
    requires
        search_inv(g, n, s, vis, dist, Seq::empty(), wit),
    ensures
        forall|v: int| reachable(g, s, v) ==> 0 <= v < n && #[trigger] dist[v] is Some,
        forall|v: int|
            0 <= v < n && #[trigger] dist[v] is Some ==> vis.contains(v) && is_shortest_walk(
                g,
                wit[v],
                s,
                v,
            ) && walk_cost(g, wit[v]) == dist[v].unwrap() && is_distance(
                g,
                s,
                v,
                dist[v].unwrap() as int,
            ),
{
    let f: Seq<MinScored<u64, usize>> = Seq::empty();
    assert forall|v: int| 0 <= v < n && #[trigger] dist[v] is Some implies vis.contains(v) by {
        if !vis.contains(v) {
            assert(v != -1);
            let i = choose|i: int|
                0 <= i < f.len() && (#[trigger] f[i]).0 == dist[v].unwrap() && f[i].1 == v;
        }
    }
    assert(dist[s] is Some);
    assert(vis.contains(s));
    assert forall|v: int| reachable(g, s, v) implies 0 <= v < n && #[trigger] dist[v] is Some by {
        let p = choose|p: Seq<int>| is_walk(g, p, s, v);
        assert forall|e: int| 0 <= e < g.len() && vis.contains(#[trigger] src(g, e)) implies vis.contains(
            dst(g, e),
        ) by {
            assert(scored(dist, dst(g, e)));
            assert(dist[dst(g, e)] is Some);
        }
        lemma_closed_set_holds_walk_end(g, p, s, v, vis);
    }
    assert forall|v: int| 0 <= v < n && #[trigger] dist[v] is Some implies vis.contains(v)
        && is_shortest_walk(g, wit[v], s, v) && walk_cost(g, wit[v]) == dist[v].unwrap() && is_distance(
        g,
        s,
        v,
        dist[v].unwrap() as int,
    ) by {
        assert(vis.contains(v));
        assert forall|q: Seq<int>| is_walk(g, q, s, v) implies walk_cost(g, wit[v]) <= walk_cost(g, q) by {
            assert(vis.contains(v) && is_walk(g, q, s, v));
        }
        assert(is_walk(g, wit[v], s, v));
    }
}

/// The map from each index of `vals` that holds a value to that value.
pub open spec fn present_entries<V>(vals: Seq<Option<V>>) -> Map<usize, V> {
    Map::new(|k: usize| k < vals.len() && vals[k as int] is Some, |k: usize| vals[k as int].unwrap())
}

/// Moves the values that a node-indexed vector holds into a map keyed by node.
pub fn into_node_map<V>(vals: Vec<Option<V>>) -> (m: HashMap<usize, V>)
    ensures
        m@ == present_entries(vals@),
{
    broadcast use vstd::std_specs::hash::group_hash_axioms;

    let ghost all = vals@;
    let mut vals = vals;
    let mut m: HashMap<usize, V> = HashMap::new();
    while vals.len() > 0
        invariant
            vals@ == all.subrange(0, vals@.len() as int),
            vals@.len() <= all.len(),
            m@ == Map::new(
                |k: usize| vals@.len() <= k < all.len() && all[k as int] is Some,
                |k: usize| all[k as int].unwrap(),
            ),
        decreases vals@.len(),
    {
        let k = vals.len() - 1;
        let last = vals.pop();
        match last {
            Some(Some(v)) => {
                m.insert(k, v);
            },
            _ => {},
        }
        assert(m@ =~= Map::new(
            |j: usize| vals@.len() <= j < all.len() && all[j as int] is Some,
            |j: usize| all[j as int].unwrap(),
        ));
    }
    assert(m@ =~= present_entries(all));
    m
}

/// A node-indexed vector with no value for any of the `n` nodes.
pub fn unscored<V>(n: usize) -> (vals: Vec<Option<V>>)
    ensures
        vals@.len() == n,
        forall|v: int| 0 <= v < n ==> #[trigger] vals@[v] is None,
{
    let mut vals: Vec<Option<V>> = Vec::new();
    let mut i: usize = 0;
    while i < n
        invariant
            i <= n,
            vals@.len() == i,
            forall|v: int| 0 <= v < i ==> #[trigger] vals@[v] is None,
        decreases n - i,
    {
        vals.push(None);
        i = i + 1;
    }
    vals
}

} // verus!
