//! The mathematical model of a weighted directed graph: walks as sequences of
//! edge indices, their costs, reachability and shortest distances.
use vstd::prelude::*;

verus! {

/// A graph's edges in index order, each as (source, target, weight).
pub type EdgeList = Seq<(usize, usize, u32)>;

pub open spec fn src(g: EdgeList, e: int) -> int {
    g[e].0 as int
}

pub open spec fn dst(g: EdgeList, e: int) -> int {
    g[e].1 as int
}

pub open spec fn weight(g: EdgeList, e: int) -> int {
    g[e].2 as int
}

/// `p` is a walk from `from` to `to`: a chain of edges, each starting where the
/// one before it ends.  The empty walk stays where it is.
pub open spec fn is_walk(g: EdgeList, p: Seq<int>, from: int, to: int) -> bool {
    &&& forall|i: int| 0 <= i < p.len() ==> 0 <= #[trigger] p[i] < g.len()
    &&& forall|i: int| 0 < i < p.len() ==> #[trigger] src(g, p[i]) == dst(g, p[i - 1])
    &&& if p.len() == 0 {
        from == to
    } else {
        src(g, p[0]) == from && dst(g, p[p.len() - 1]) == to
    }
}

/// The sum of the weights of a walk's edges.
pub open spec fn walk_cost(g: EdgeList, p: Seq<int>) -> int
    decreases p.len(),
{
    if p.len() == 0 {
        0
    } else {
        walk_cost(g, p.drop_last()) + weight(g, p.last())
    }
}

pub open spec fn reachable(g: EdgeList, s: int, v: int) -> bool {
    exists|p: Seq<int>| is_walk(g, p, s, v)
}

/// `d` is the least cost of a walk from `s` to `v`.
pub open spec fn is_distance(g: EdgeList, s: int, v: int, d: int) -> bool {
    &&& exists|p: Seq<int>| is_walk(g, p, s, v) && walk_cost(g, p) == d
    &&& forall|p: Seq<int>| is_walk(g, p, s, v) ==> d <= walk_cost(g, p)
}

/// `p` is a walk from `s` to `v` that no other walk between them undercuts.
pub open spec fn is_shortest_walk(g: EdgeList, p: Seq<int>, s: int, v: int) -> bool {
    &&& is_walk(g, p, s, v)
    &&& forall|q: Seq<int>| is_walk(g, q, s, v) ==> walk_cost(g, p) <= walk_cost(g, q)
}

/// The node a walk from `s` steps to first, with the walk's number of edges;
/// the empty walk stays at `s`.
pub open spec fn first_hop_of(g: EdgeList, s: int, p: Seq<int>) -> (int, int) {
    if p.len() == 0 {
        (s, 0)
    } else {
        (dst(g, p[0]), p.len() as int)
    }
}

/// No edge of `p` enters `s`: a walk from `s` along `p` never comes back to it.
pub open spec fn avoids_return(g: EdgeList, s: int, p: Seq<int>) -> bool {
    forall|i: int| 0 <= i < p.len() ==> dst(g, #[trigger] p[i]) != s
}

/// `(h, len)` describes a least-cost walk from `s` to `v` that never comes
/// back to `s`: its first hop and its number of edges.
pub open spec fn is_first_hop(g: EdgeList, s: int, v: int, h: int, len: int) -> bool {
    exists|p: Seq<int>|
        #[trigger] is_shortest_walk(g, p, s, v) && avoids_return(g, s, p) && first_hop_of(g, s, p) == (h, len)
}

/// A walk that never comes back to `s`, extended by an edge that does not
/// enter `s`, still never comes back to it.
pub proof fn lemma_avoids_push(g: EdgeList, s: int, p: Seq<int>, e: int)
    requires
        avoids_return(g, s, p),
        dst(g, e) != s,
    ensures
        avoids_return(g, s, p.push(e)),
{
    assert forall|i: int| 0 <= i < p.push(e).len() implies dst(g, #[trigger] p.push(e)[i]) != s by {
        if i < p.len() {
            assert(p.push(e)[i] == p[i]);
        }
    }
}

/// A nonempty walk to `s` comes back to `s`, so `s` itself is described only
/// by the empty walk.
pub proof fn lemma_no_hop_to_start(g: EdgeList, s: int, h: int, len: int)
    requires
        len >= 1,
    ensures
        !is_first_hop(g, s, s, h, len),
{
    if is_first_hop(g, s, s, h, len) {
        let p = choose|p: Seq<int>|
            #[trigger] is_shortest_walk(g, p, s, s) && avoids_return(g, s, p) && first_hop_of(g, s, p) == (h, len);
        assert(dst(g, p[p.len() - 1]) != s);
    }
}

pub proof fn lemma_cost_nonneg(g: EdgeList, p: Seq<int>)
    ensures
        walk_cost(g, p) >= 0,
    decreases p.len(),
{
    if p.len() > 0 {
        lemma_cost_nonneg(g, p.drop_last());
    }
}

pub proof fn lemma_cost_push(g: EdgeList, p: Seq<int>, e: int)
    ensures
        walk_cost(g, p.push(e)) == walk_cost(g, p) + weight(g, e),
{
    assert(p.push(e).drop_last() =~= p);
}

/// A walk extended by an edge that leaves its end is a walk to that edge's target.
pub proof fn lemma_walk_push(g: EdgeList, p: Seq<int>, from: int, to: int, e: int)
    requires
        is_walk(g, p, from, to),
        0 <= e < g.len(),
        src(g, e) == to,
    ensures
        is_walk(g, p.push(e), from, dst(g, e)),
        walk_cost(g, p.push(e)) == walk_cost(g, p) + weight(g, e),
        first_hop_of(g, from, p.push(e)) == (if p.len() == 0 {
            (dst(g, e), 1)
        } else {
            (first_hop_of(g, from, p).0, first_hop_of(g, from, p).1 + 1)
        }),
{
    lemma_cost_push(g, p, e);
    let q = p.push(e);
    assert forall|i: int| 0 < i < q.len() implies #[trigger] src(g, q[i]) == dst(g, q[i - 1]) by {
        if i < p.len() {
            assert(q[i] == p[i] && q[i - 1] == p[i - 1]);
        }
    }
}

/// A prefix of a walk is a walk to the node where the prefix ends, and costs
/// no more than the walk.
pub proof fn lemma_walk_take(g: EdgeList, p: Seq<int>, from: int, to: int, k: int)
    requires
        is_walk(g, p, from, to),
        0 <= k <= p.len(),
    ensures
        is_walk(g, p.take(k), from, if k == 0 { from } else { dst(g, p[k - 1]) }),
        k < p.len() ==> is_walk(g, p.take(k), from, src(g, p[k])),
        walk_cost(g, p.take(k)) <= walk_cost(g, p),
        k > 0 ==> first_hop_of(g, from, p.take(k)).0 == first_hop_of(g, from, p).0,
    decreases p.len() - k,
{
    let t = p.take(k);
    assert forall|i: int| 0 < i < t.len() implies #[trigger] src(g, t[i]) == dst(g, t[i - 1]) by {
        assert(t[i] == p[i] && t[i - 1] == p[i - 1]);
    }
    if k == p.len() {
        assert(t =~= p);
    } else {
        lemma_walk_take(g, p, from, to, k + 1);
        assert(p.take(k + 1).drop_last() =~= t);
        assert(p.take(k + 1).last() == p[k]);
        assert(0 <= p[k] < g.len());
        if k > 0 {
            assert(src(g, p[k]) == dst(g, p[k - 1]));
        }
    }
}

/// A walk from inside a node set to outside it has an edge that leaves the set.
pub proof fn lemma_exit_edge(g: EdgeList, p: Seq<int>, from: int, to: int, s: Set<int>) -> (k: int)
    requires
        is_walk(g, p, from, to),
        s.contains(from),
        !s.contains(to),
    ensures
        0 <= k < p.len(),
        s.contains(src(g, p[k])),
        !s.contains(dst(g, p[k])),
    decreases p.len(),
{
    let last = p.len() - 1;
    if s.contains(src(g, p[last])) {
        last
    } else {
        let q = p.drop_last();
        assert(last > 0);
        assert(src(g, p[last]) == dst(g, p[last - 1]));
        assert forall|i: int| 0 < i < q.len() implies #[trigger] src(g, q[i]) == dst(g, q[i - 1]) by {
            assert(q[i] == p[i] && q[i - 1] == p[i - 1]);
        }
        assert(is_walk(g, q, from, src(g, p[last])));
        lemma_exit_edge(g, q, from, src(g, p[last]), s)
    }
}

/// A node set that holds `from` and every target of an edge leaving it holds
/// the end of every walk from `from`.
pub proof fn lemma_closed_set_holds_walk_end(g: EdgeList, p: Seq<int>, from: int, to: int, s: Set<int>)
    requires
        is_walk(g, p, from, to),
        s.contains(from),
        forall|e: int| 0 <= e < g.len() && s.contains(#[trigger] src(g, e)) ==> s.contains(dst(g, e)),
    ensures
        s.contains(to),
{
    if !s.contains(to) {
        let k = lemma_exit_edge(g, p, from, to, s);
        assert(0 <= p[k] < g.len());
    }
}

/// A walk of `k` edges costs at most `k` times the largest `u32`.
pub proof fn lemma_cost_bound(g: EdgeList, p: Seq<int>)
    ensures
        walk_cost(g, p) <= p.len() * 0xffff_ffff,
    decreases p.len(),
{
    if p.len() > 0 {
        lemma_cost_bound(g, p.drop_last());
        assert(weight(g, p.last()) <= 0xffff_ffff);
        assert((p.len() - 1) * 0xffff_ffff + 0xffff_ffff == p.len() * 0xffff_ffff) by (nonlinear_arith);
    }
}

} // verus!
