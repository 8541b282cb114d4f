//! Properties that relate the searches' results to each other and to the
//! graph, proved from the searches' contracts.
use crate::ecmp::lists_hop;
use crate::scored::{reverse_score_order, MinScored};
use crate::walks::{
    avoids_return, dst, first_hop_of, is_distance, is_first_hop, is_shortest_walk, is_walk,
    lemma_cost_nonneg, lemma_walk_push, reachable, src, walk_cost, weight, EdgeList,
};
use core::cmp::Ordering;
use vstd::prelude::*;
use vstd::std_specs::cmp::{PartialEqSpec, PartialOrdSpec};

verus! {

/// `MinScored` orders pairs in reverse of their scores' numeric order: the
/// pair with the lesser score is the greater one, whatever the nodes, so a
/// max-priority frontier hands out the least score first.  This holds of
/// `cmp` (whose result is `reverse_score_order` of the scores) and of
/// `partial_cmp`, `<` and `>`, which always give `Some` of that result.
pub proof fn law_min_scored_reverses_scores<T>(a: u64, b: u64, x: T, y: T)
    ensures
        a < b ==> reverse_score_order(a, b) == Ordering::Greater,
        a < b ==> reverse_score_order(b, a) == Ordering::Less,
        a == b ==> reverse_score_order(a, b) == Ordering::Equal,
        a < b ==> MinScored(a, x).partial_cmp_spec(&MinScored(b, y)) == Some(Ordering::Greater),
        a < b ==> MinScored(b, y).partial_cmp_spec(&MinScored(a, x)) == Some(Ordering::Less),
        a == b ==> MinScored(a, x).partial_cmp_spec(&MinScored(b, y)) == Some(Ordering::Equal),
        MinScored(a, x).partial_cmp_spec(&MinScored(b, y)) is Some,
        MinScored(a, x).partial_cmp_spec(&MinScored(b, y)) == Some(reverse_score_order(a, b)),
{
}

/// `MinScored`'s `==` compares the scores alone: two pairs are equal exactly
/// when their scores are, whatever the nodes, which is exactly when `cmp`
/// finds them `Equal`.
pub proof fn law_min_scored_eq_by_score<T>(a: u64, b: u64, x: T, y: T)
    ensures
        MinScored(a, x).eq_spec(&MinScored(b, y)) <==> a == b,
        MinScored(a, x).eq_spec(&MinScored(b, y)) <==> reverse_score_order(a, b) == Ordering::Equal,
{
}

/// `MinScored`'s order is a total order: two scores compare equal exactly
/// when they are equal, a score equals itself, swapping them reverses the
/// outcome, and it is transitive.
pub proof fn law_min_scored_total_order(a: u64, b: u64, c: u64)
    ensures
        (reverse_score_order(a, b) == Ordering::Equal) <==> a == b,
        reverse_score_order(a, a) == Ordering::Equal,
        reverse_score_order(a, b) != Ordering::Greater && reverse_score_order(b, c) != Ordering::Greater
            ==> reverse_score_order(a, c) != Ordering::Greater,
        reverse_score_order(a, b) == Ordering::Less <==> reverse_score_order(b, a) == Ordering::Greater,
        reverse_score_order(a, b) == Ordering::Less && reverse_score_order(b, c) == Ordering::Less
            ==> reverse_score_order(a, c) == Ordering::Less,
        reverse_score_order(a, b) == Ordering::Greater && reverse_score_order(b, c)
            == Ordering::Greater ==> reverse_score_order(a, c) == Ordering::Greater,
{
}

/// The start is at distance zero from itself.
pub proof fn law_start_distance_zero(g: EdgeList, s: int, d: int)
    requires
        is_distance(g, s, s, d),
    ensures
        d == 0,
{
    assert(is_walk(g, Seq::<int>::empty(), s, s));
    assert(walk_cost(g, Seq::<int>::empty()) == 0);
    let p = choose|p: Seq<int>| is_walk(g, p, s, s) && walk_cost(g, p) == d;
    lemma_cost_nonneg(g, p);
}

/// A node has one distance: any two searches that report distances agree.
pub proof fn law_distance_unique(g: EdgeList, s: int, v: int, d1: int, d2: int)
    requires
        is_distance(g, s, v, d1),
        is_distance(g, s, v, d2),
    ensures
        d1 == d2,
{
    let p1 = choose|p: Seq<int>| is_walk(g, p, s, v) && walk_cost(g, p) == d1;
    let p2 = choose|p: Seq<int>| is_walk(g, p, s, v) && walk_cost(g, p) == d2;
    assert(d1 <= walk_cost(g, p2));
    assert(d2 <= walk_cost(g, p1));
}

/// Distances obey the triangle inequality along every edge: the target of an
/// edge is no farther than its source plus the edge's weight.
pub proof fn law_distance_triangle(g: EdgeList, s: int, e: int, dx: int, dy: int)
    requires
        0 <= e < g.len(),
        is_distance(g, s, src(g, e), dx),
        is_distance(g, s, dst(g, e), dy),
    ensures
        dy <= dx + weight(g, e),
{
    let p = choose|p: Seq<int>| is_walk(g, p, s, src(g, e)) && walk_cost(g, p) == dx;
    lemma_walk_push(g, p, s, src(g, e), e);
}

/// The first hop of any least-cost walk to a node other than the start (such
/// as the one `dijkstra_with_first_hop` reports) is among the hops that an
/// equal-cost search lists for that node.
pub proof fn law_first_hop_among_equal_cost_hops(
    g: EdgeList,
    s: int,
    v: usize,
    h: int,
    len: int,
    lists: Map<usize, Vec<(usize, usize)>>,
)
    requires
        v != s,
        is_first_hop(g, s, v as int, h, len),
        forall|w: usize, p: Seq<int>|
            #[trigger] is_shortest_walk(g, p, s, w as int) && avoids_return(g, s, p) && p.len() > 0 ==> lists.contains_key(w)
                && lists_hop(lists[w]@, dst(g, p[0])),
    ensures
        lists.contains_key(v),
        lists_hop(lists[v]@, h),
{
    let p = choose|p: Seq<int>| #[trigger] is_shortest_walk(g, p, s, v as int) && avoids_return(g, s, p) && first_hop_of(g, s, p) == (h, len);
    assert(p.len() > 0);
    assert(is_shortest_walk(g, p, s, v as int) && avoids_return(g, s, p) && p.len() > 0);
}

/// Two equal-cost searches from `s` name the same first hops for every node
/// other than the start, when each lists only first hops of nonempty
/// least-cost walks and lists the first hop of every such walk (as both
/// `dijkstra_with_all_first_hops` promise).
pub proof fn law_equal_cost_searches_agree(
    g: EdgeList,
    s: int,
    v: usize,
    h: int,
    a: Map<usize, Vec<(usize, usize)>>,
    b: Map<usize, Vec<(usize, usize)>>,
)
    requires
        v != s,
        forall|w: usize, i: int|
            a.contains_key(w) && 0 <= i < a[w]@.len() && w != s ==> (#[trigger] a[w]@[i]).1 >= 1
                && is_first_hop(g, s, w as int, a[w]@[i].0 as int, a[w]@[i].1 as int),
        forall|w: usize, i: int|
            b.contains_key(w) && 0 <= i < b[w]@.len() && w != s ==> (#[trigger] b[w]@[i]).1 >= 1
                && is_first_hop(g, s, w as int, b[w]@[i].0 as int, b[w]@[i].1 as int),
        forall|w: usize, p: Seq<int>|
            #[trigger] is_shortest_walk(g, p, s, w as int) && avoids_return(g, s, p) && p.len() > 0 ==> a.contains_key(w) && lists_hop(
                a[w]@,
                dst(g, p[0]),
            ),
        forall|w: usize, p: Seq<int>|
            #[trigger] is_shortest_walk(g, p, s, w as int) && avoids_return(g, s, p) && p.len() > 0 ==> b.contains_key(w) && lists_hop(
                b[w]@,
                dst(g, p[0]),
            ),
    ensures
        (a.contains_key(v) && lists_hop(a[v]@, h)) <==> (b.contains_key(v) && lists_hop(b[v]@, h)),
{
    if a.contains_key(v) && lists_hop(a[v]@, h) {
        let i = choose|i: int| 0 <= i < a[v]@.len() && (#[trigger] a[v]@[i]).0 == h;
        let p = choose|p: Seq<int>| #[trigger] is_shortest_walk(g, p, s, v as int) && avoids_return(g, s, p) && first_hop_of(g, s, p) == (a[v]@[i].0 as int, a[v]@[i].1 as int);
        assert(is_shortest_walk(g, p, s, v as int) && avoids_return(g, s, p) && p.len() > 0);
    }
    if b.contains_key(v) && lists_hop(b[v]@, h) {
        let i = choose|i: int| 0 <= i < b[v]@.len() && (#[trigger] b[v]@[i]).0 == h;
        let p = choose|p: Seq<int>| #[trigger] is_shortest_walk(g, p, s, v as int) && avoids_return(g, s, p) && first_hop_of(g, s, p) == (b[v]@[i].0 as int, b[v]@[i].1 as int);
        assert(is_shortest_walk(g, p, s, v as int) && avoids_return(g, s, p) && p.len() > 0);
    }
}

/// A reported first hop is a neighbour of the start: an edge leads from the
/// start to it, and the way through it has at least one edge.  Only the start
/// itself is reported with no edges, as its own hop.
pub proof fn law_first_hop_is_neighbour(g: EdgeList, s: int, v: int, h: int, len: int)
    requires
        is_first_hop(g, s, v, h, len),
    ensures
        len == 0 ==> v == s && h == s,
        len != 0 ==> len >= 1 && exists|e: int| 0 <= e < g.len() && src(g, e) == s && #[trigger] dst(g, e) == h,
{
    let p = choose|p: Seq<int>| #[trigger] is_shortest_walk(g, p, s, v) && avoids_return(g, s, p) && first_hop_of(g, s, p) == (h, len);
    if p.len() > 0 {
        assert(0 <= p[0] < g.len());
        assert(dst(g, p[0]) == h);
    }
}

/// The two topologies have the same edges, joining the same nodes.
pub open spec fn same_ends(g1: EdgeList, g2: EdgeList) -> bool {
    &&& g1.len() == g2.len()
    &&& forall|e: int|
        #![trigger src(g2, e)]
        #![trigger dst(g2, e)]
        0 <= e < g1.len() ==> src(g2, e) == src(g1, e) && dst(g2, e) == dst(g1, e)
}

/// The second topology has the same edges as the first, none of them heavier.
pub open spec fn lighter(g1: EdgeList, g2: EdgeList) -> bool {
    &&& same_ends(g1, g2)
    &&& forall|e: int| 0 <= e < g1.len() ==> #[trigger] weight(g2, e) <= weight(g1, e)
}

/// The second topology has the same edges as the first, each `c` times as heavy.
pub open spec fn scaled(g1: EdgeList, g2: EdgeList, c: int) -> bool {
    &&& same_ends(g1, g2)
    &&& forall|e: int| 0 <= e < g1.len() ==> #[trigger] weight(g2, e) == c * weight(g1, e)
}

proof fn lemma_same_walks(g1: EdgeList, g2: EdgeList, p: Seq<int>, from: int, to: int)
    requires
        same_ends(g1, g2),
    ensures
        is_walk(g1, p, from, to) <==> is_walk(g2, p, from, to),
{
    if is_walk(g1, p, from, to) {
        assert forall|i: int| 0 < i < p.len() implies #[trigger] src(g2, p[i]) == dst(g2, p[i - 1]) by {
            assert(src(g1, p[i]) == dst(g1, p[i - 1]));
        }
        if p.len() > 0 {
            assert(src(g2, p[0]) == src(g1, p[0]));
            assert(dst(g2, p[p.len() - 1]) == dst(g1, p[p.len() - 1]));
        }
    }
    if is_walk(g2, p, from, to) {
        assert forall|i: int| 0 < i < p.len() implies #[trigger] src(g1, p[i]) == dst(g1, p[i - 1]) by {
            assert(src(g2, p[i]) == dst(g2, p[i - 1]));
        }
        if p.len() > 0 {
            assert(src(g2, p[0]) == src(g1, p[0]));
            assert(dst(g2, p[p.len() - 1]) == dst(g1, p[p.len() - 1]));
        }
    }
}

proof fn lemma_lighter_cost(g1: EdgeList, g2: EdgeList, p: Seq<int>)
    requires
        lighter(g1, g2),
        forall|i: int| 0 <= i < p.len() ==> 0 <= #[trigger] p[i] < g1.len(),
    ensures
        walk_cost(g2, p) <= walk_cost(g1, p),
    decreases p.len(),
{
    if p.len() > 0 {
        let q = p.drop_last();
        assert forall|i: int| 0 <= i < q.len() implies 0 <= #[trigger] q[i] < g1.len() by {
            assert(q[i] == p[i]);
        }
        lemma_lighter_cost(g1, g2, q);
        assert(0 <= p.last() < g1.len());
        assert(weight(g2, p.last()) <= weight(g1, p.last()));
    }
}

proof fn lemma_scaled_cost(g1: EdgeList, g2: EdgeList, c: int, p: Seq<int>)
    requires
        scaled(g1, g2, c),
        forall|i: int| 0 <= i < p.len() ==> 0 <= #[trigger] p[i] < g1.len(),
    ensures
        walk_cost(g2, p) == c * walk_cost(g1, p),
    decreases p.len(),
{
    if p.len() > 0 {
        let q = p.drop_last();
        assert forall|i: int| 0 <= i < q.len() implies 0 <= #[trigger] q[i] < g1.len() by {
            assert(q[i] == p[i]);
        }
        lemma_scaled_cost(g1, g2, c, q);
        assert(0 <= p.last() < g1.len());
        assert(weight(g2, p.last()) == c * weight(g1, p.last()));
        let a = walk_cost(g1, q);
        let w = weight(g1, p.last());
        assert(c * a + c * w == c * (a + w)) by (nonlinear_arith);
    }
}

/// Making edges lighter never makes a node dearer: the same nodes are
/// reachable, and each least cost in the lighter topology is at most the one
/// in the heavier.
pub proof fn law_lighter_weights_lower_scores(g1: EdgeList, g2: EdgeList, s: int, v: int, d1: int, d2: int)
    requires
        lighter(g1, g2),
    ensures
        reachable(g1, s, v) <==> reachable(g2, s, v),
        is_distance(g1, s, v, d1) && is_distance(g2, s, v, d2) ==> d2 <= d1,
{
    if reachable(g1, s, v) {
        let p = choose|p: Seq<int>| is_walk(g1, p, s, v);
        lemma_same_walks(g1, g2, p, s, v);
    }
    if reachable(g2, s, v) {
        let p = choose|p: Seq<int>| is_walk(g2, p, s, v);
        lemma_same_walks(g1, g2, p, s, v);
    }
    if is_distance(g1, s, v, d1) && is_distance(g2, s, v, d2) {
        let p = choose|p: Seq<int>| is_walk(g1, p, s, v) && walk_cost(g1, p) == d1;
        lemma_same_walks(g1, g2, p, s, v);
        lemma_lighter_cost(g1, g2, p);
    }
}

/// Scaling every edge weight by the same positive factor scales every least
/// cost by it and keeps the first hops of least-cost walks, and so the hops
/// that an equal-cost search lists.  (Which of several tied hops a search
/// that reports one picks is not covered.)
pub proof fn law_scaled_weights_keep_first_hops(
    g1: EdgeList,
    g2: EdgeList,
    c: int,
    s: int,
    v: int,
    d: int,
    h: int,
    len: int,
)
    requires
        scaled(g1, g2, c),
        c > 0,
    ensures
        is_distance(g1, s, v, d) ==> is_distance(g2, s, v, c * d),
        is_first_hop(g1, s, v, h, len) <==> is_first_hop(g2, s, v, h, len),
{
    // walks are the same in both, and their costs scale
    assert forall|p: Seq<int>, x: int|
        #[trigger] is_walk(g1, p, s, x) <==> is_walk(g2, p, s, x) by {
        lemma_same_walks(g1, g2, p, s, x);
    }
    assert forall|p: Seq<int>, x: int| #[trigger] is_walk(g1, p, s, x) implies walk_cost(g2, p) == c * walk_cost(g1, p) by {
        lemma_scaled_cost(g1, g2, c, p);
    }
    assert forall|p: Seq<int>, x: int| #[trigger] is_shortest_walk(g1, p, s, x) <==> is_shortest_walk(g2, p, s, x) by {
        if is_shortest_walk(g1, p, s, x) {
            assert(walk_cost(g2, p) == c * walk_cost(g1, p));
            assert forall|q: Seq<int>| is_walk(g2, q, s, x) implies walk_cost(g2, p) <= walk_cost(g2, q) by {
                assert(is_walk(g1, q, s, x));
                assert(walk_cost(g2, q) == c * walk_cost(g1, q));
                let a = walk_cost(g1, p);
                let b = walk_cost(g1, q);
                assert(a <= b);
                assert(c * a <= c * b) by (nonlinear_arith)
                    requires
                        c > 0,
                        a <= b,
                ;
            }
        }
        if is_shortest_walk(g2, p, s, x) {
            assert(is_walk(g1, p, s, x));
            assert(walk_cost(g2, p) == c * walk_cost(g1, p));
            assert forall|q: Seq<int>| is_walk(g1, q, s, x) implies walk_cost(g1, p) <= walk_cost(g1, q) by {
                assert(is_walk(g2, q, s, x));
                assert(walk_cost(g2, q) == c * walk_cost(g1, q));
                let a = walk_cost(g1, p);
                let b = walk_cost(g1, q);
                assert(c * a <= c * b);
                assert(a <= b) by (nonlinear_arith)
                    requires
                        c > 0,
                        c * a <= c * b,
                ;
            }
        }
    }
    if is_distance(g1, s, v, d) {
        let p = choose|p: Seq<int>| is_walk(g1, p, s, v) && walk_cost(g1, p) == d;
        assert(is_walk(g2, p, s, v));
        assert(walk_cost(g2, p) == c * walk_cost(g1, p));
        assert forall|q: Seq<int>| is_walk(g2, q, s, v) implies c * d <= walk_cost(g2, q) by {
            assert(is_walk(g1, q, s, v));
            assert(walk_cost(g2, q) == c * walk_cost(g1, q));
            let b = walk_cost(g1, q);
            assert(d <= b);
            assert(c * d <= c * b) by (nonlinear_arith)
                requires
                    c > 0,
                    d <= b,
            ;
        }
    }
    if is_first_hop(g1, s, v, h, len) {
        let p = choose|p: Seq<int>|
            #[trigger] is_shortest_walk(g1, p, s, v) && avoids_return(g1, s, p) && first_hop_of(g1, s, p) == (h, len);
        assert(is_shortest_walk(g2, p, s, v));
        assert(avoids_return(g2, s, p)) by {
            assert forall|i: int| 0 <= i < p.len() implies dst(g2, #[trigger] p[i]) != s by {
                assert(dst(g1, p[i]) != s);
            }
        }
        if p.len() > 0 {
            assert(dst(g2, p[0]) == dst(g1, p[0]));
        }
        assert(first_hop_of(g2, s, p) == (h, len));
    }
    if is_first_hop(g2, s, v, h, len) {
        let p = choose|p: Seq<int>|
            #[trigger] is_shortest_walk(g2, p, s, v) && avoids_return(g2, s, p) && first_hop_of(g2, s, p) == (h, len);
        assert(is_shortest_walk(g1, p, s, v));
        assert(avoids_return(g1, s, p)) by {
            assert forall|i: int| 0 <= i < p.len() implies dst(g1, #[trigger] p[i]) != s by {
                assert(dst(g2, p[i]) != s);
            }
        }
        if p.len() > 0 {
            assert(dst(g2, p[0]) == dst(g1, p[0]));
        }
        assert(first_hop_of(g1, s, p) == (h, len));
    }
}

} // verus!
