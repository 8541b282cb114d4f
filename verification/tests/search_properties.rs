use easytier_graph::peers::graph_algo as legacy;
use easytier_graph::peers::route::graph_algo::{
    dijkstra_with_all_first_hops, dijkstra_with_first_hop, MinScored,
};
use easytier_graph::digraph::has_node;
use easytier_graph::scored::pop_min;
use petgraph::graph::DiGraph;
use std::cmp::Ordering;

fn sample_graph() -> (DiGraph<&'static str, u32>, Vec<usize>) {
    // a -1-> b -2-> d -1-> e
    // a -2-> c -1-> d
    // a -7-> e
    // f is not reachable from a
    let mut graph = DiGraph::<&str, u32>::new();
    let a = graph.add_node("a");
    let b = graph.add_node("b");
    let c = graph.add_node("c");
    let d = graph.add_node("d");
    let e = graph.add_node("e");
    let f = graph.add_node("f");
    graph.extend_with_edges([(a, b, 1), (b, d, 2), (a, c, 2), (c, d, 1), (d, e, 1), (a, e, 7), (f, a, 1)]);
    (graph, vec![a.index(), b.index(), c.index(), d.index(), e.index(), f.index()])
}

#[test]
fn unreachable_nodes_get_no_score() {
    let (graph, n) = sample_graph();
    let (scores, first_hop) = dijkstra_with_first_hop(&graph, n[0]);
    assert_eq!(scores.len(), 5);
    assert!(!scores.contains_key(&n[5]));
    assert!(!first_hop.contains_key(&n[5]));
    assert_eq!(scores[&n[4]], 4);
    assert_eq!(first_hop.len(), 5);
}

#[test]
fn start_scores_zero_with_itself_as_first_hop() {
    let (graph, n) = sample_graph();
    let (scores, first_hop) = dijkstra_with_first_hop(&graph, n[0]);
    assert_eq!(scores[&n[0]], 0);
    assert_eq!(first_hop[&n[0]], (n[0], 0));

    let (scores, hops) = dijkstra_with_all_first_hops(&graph, n[0]);
    assert_eq!(scores[&n[0]], 0);
    assert!(!hops.contains_key(&n[0]));

    let (scores, hops) = legacy::dijkstra_with_all_first_hops(&graph, n[0]);
    assert_eq!(scores[&n[0]], 0);
    assert_eq!(hops[&n[0]], vec![(n[0], 0)]);
}

#[test]
fn isolated_start_reaches_only_itself() {
    let (graph, n) = sample_graph();
    let (scores, first_hop) = dijkstra_with_first_hop(&graph, n[4]);
    assert_eq!(scores.len(), 1);
    assert_eq!(scores[&n[4]], 0);
    assert_eq!(first_hop[&n[4]], (n[4], 0));
    let (scores, hops) = dijkstra_with_all_first_hops(&graph, n[4]);
    assert_eq!(scores.len(), 1);
    assert!(hops.is_empty());
}

#[test]
fn searches_agree_on_scores() {
    let (graph, n) = sample_graph();
    for &start in &n {
        let (s1, _) = dijkstra_with_first_hop(&graph, start);
        let (s2, _) = dijkstra_with_all_first_hops(&graph, start);
        let (s3, _) = legacy::dijkstra_with_all_first_hops(&graph, start);
        assert_eq!(s1, s2);
        assert_eq!(s1, s3);
    }
}

#[test]
fn scores_obey_triangle_inequality() {
    let (graph, n) = sample_graph();
    for &start in &n {
        let (scores, _) = dijkstra_with_first_hop(&graph, start);
        for edge in graph.raw_edges() {
            let (x, y) = (edge.source().index(), edge.target().index());
            if let Some(dx) = scores.get(&x) {
                assert!(scores[&y] <= dx + edge.weight as u64);
            }
        }
    }
}

#[test]
fn first_hop_is_among_equal_cost_hops() {
    let (graph, n) = sample_graph();
    let (_, first_hop) = dijkstra_with_first_hop(&graph, n[0]);
    let (_, hops) = dijkstra_with_all_first_hops(&graph, n[0]);
    let (_, legacy_hops) = legacy::dijkstra_with_all_first_hops(&graph, n[0]);
    for v in &n[1..5] {
        let ids: Vec<usize> = hops[v].iter().map(|(h, _)| *h).collect();
        assert!(ids.contains(&first_hop[v].0));
        for (h, _) in &legacy_hops[v] {
            assert!(ids.contains(h));
        }
    }
    // d is reached at cost 3 both via b and via c, and e through d
    let mut d_ids: Vec<usize> = hops[&n[3]].iter().map(|(h, _)| *h).collect();
    d_ids.sort();
    assert_eq!(d_ids, vec![n[1], n[2]]);
    let mut e_ids: Vec<usize> = hops[&n[4]].iter().map(|(h, _)| *h).collect();
    e_ids.sort();
    assert_eq!(e_ids, vec![n[1], n[2]]);
    assert!(hops[&n[4]].iter().all(|(_, len)| *len == 3));
}

#[test]
fn parallel_edges_list_one_hop_per_node() {
    let mut graph = DiGraph::<&str, u32>::new();
    let a = graph.add_node("a");
    let b = graph.add_node("b");
    graph.extend_with_edges([(a, b, 1), (a, b, 1), (a, b, 3)]);
    let (_, hops) = dijkstra_with_all_first_hops(&graph, a.index());
    assert_eq!(hops[&b.index()], vec![(b.index(), 1)]);
    let (_, legacy_hops) = legacy::dijkstra_with_all_first_hops(&graph, a.index());
    assert_eq!(legacy_hops[&b.index()], vec![(b.index(), 1)]);
}

#[test]
fn zero_weight_self_loop_at_start() {
    let mut graph = DiGraph::<&str, u32>::new();
    let a = graph.add_node("a");
    let b = graph.add_node("b");
    graph.extend_with_edges([(a, a, 0), (a, b, 1)]);
    let (scores, first_hop) = dijkstra_with_first_hop(&graph, a.index());
    assert_eq!(scores[&a.index()], 0);
    assert_eq!(first_hop[&a.index()], (a.index(), 0));
    // ways that come back to the start through the loop give no hops
    let (_, hops) = dijkstra_with_all_first_hops(&graph, a.index());
    assert!(!hops.contains_key(&a.index()));
    assert_eq!(hops[&b.index()], vec![(b.index(), 1)]);
    let (_, legacy_hops) = legacy::dijkstra_with_all_first_hops(&graph, a.index());
    assert_eq!(legacy_hops[&a.index()], vec![(a.index(), 0)]);
    assert_eq!(legacy_hops[&b.index()], vec![(b.index(), 1)]);
}

#[test]
fn cycle_back_to_start_keeps_start_entry() {
    let mut graph = DiGraph::<&str, u32>::new();
    let a = graph.add_node("a");
    let b = graph.add_node("b");
    graph.extend_with_edges([(a, b, 1), (b, a, 1)]);
    let (scores, first_hop) = dijkstra_with_first_hop(&graph, a.index());
    assert_eq!(scores[&b.index()], 1);
    assert_eq!(first_hop[&a.index()], (a.index(), 0));
    assert_eq!(first_hop[&b.index()], (b.index(), 1));
}

#[test]
fn scores_do_not_overflow_edge_weights() {
    let mut graph = DiGraph::<&str, u32>::new();
    let a = graph.add_node("a");
    let b = graph.add_node("b");
    let c = graph.add_node("c");
    graph.extend_with_edges([(a, b, u32::MAX), (b, c, u32::MAX)]);
    let (scores, first_hop) = dijkstra_with_first_hop(&graph, a.index());
    assert_eq!(scores[&c.index()], 2 * (u32::MAX as u64));
    assert_eq!(first_hop[&c.index()], (b.index(), 2));
}

#[test]
fn removed_edges_leave_a_consistent_search() {
    let mut graph = DiGraph::<&str, u32>::new();
    let a = graph.add_node("a");
    let b = graph.add_node("b");
    let c = graph.add_node("c");
    let ab = graph.add_edge(a, b, 5);
    graph.add_edge(a, c, 1);
    graph.add_edge(c, b, 1);
    graph.add_edge(a, b, 2);
    graph.remove_edge(ab);
    let (scores, first_hop) = dijkstra_with_first_hop(&graph, a.index());
    assert_eq!(scores[&b.index()], 2);
    assert_eq!(scores[&c.index()], 1);
    let (_, hops) = dijkstra_with_all_first_hops(&graph, a.index());
    let mut ids: Vec<usize> = hops[&b.index()].iter().map(|(h, _)| *h).collect();
    ids.sort();
    assert_eq!(ids, vec![b.index(), c.index()]);
    assert!(first_hop[&b.index()] == (b.index(), 1) || first_hop[&b.index()] == (c.index(), 2));
}

#[test]
fn min_scored_orders_by_reversed_score() {
    let low = MinScored(1u64, 'x');
    let high = MinScored(2u64, 'y');
    assert_eq!(low.cmp(&high), Ordering::Greater);
    assert_eq!(high.cmp(&low), Ordering::Less);
    assert_eq!(low.cmp(&MinScored(1u64, 'z')), Ordering::Equal);
    assert_eq!(low.partial_cmp(&high), Some(Ordering::Greater));
    assert!(low > high);
    assert!(low == MinScored(1u64, 'q'));
    assert!(low != high);
}

#[test]
fn pop_min_takes_least_score_first() {
    let mut frontier = vec![
        MinScored(5u64, 0usize),
        MinScored(2, 1),
        MinScored(9, 2),
        MinScored(2, 3),
    ];
    let first = pop_min(&mut frontier).unwrap();
    assert_eq!((first.0, first.1), (2, 1));
    let second = pop_min(&mut frontier).unwrap();
    assert_eq!((second.0, second.1), (2, 3));
    let third = pop_min(&mut frontier).unwrap();
    assert_eq!((third.0, third.1), (5, 0));
    assert_eq!(frontier.len(), 1);
    pop_min(&mut frontier).unwrap();
    assert!(pop_min(&mut frontier).is_none());
}

#[test]
fn first_hops_are_neighbours_of_the_start() {
    let (graph, n) = sample_graph();
    let start = n[0];
    let neighbours: Vec<usize> = graph
        .raw_edges()
        .iter()
        .filter(|e| e.source().index() == start)
        .map(|e| e.target().index())
        .collect();
    let (_, first_hop) = dijkstra_with_first_hop(&graph, start);
    for (v, (h, len)) in &first_hop {
        if *v == start {
            assert_eq!((*h, *len), (start, 0));
        } else {
            assert!(*len >= 1);
            assert!(neighbours.contains(h));
        }
    }
    let (_, hops) = dijkstra_with_all_first_hops(&graph, start);
    let (_, legacy_hops) = legacy::dijkstra_with_all_first_hops(&graph, start);
    for lists in [&hops, &legacy_hops] {
        for (v, list) in lists {
            for (h, len) in list {
                if *len == 0 {
                    assert_eq!((*v, *h), (start, start));
                } else {
                    assert!(neighbours.contains(h));
                }
            }
        }
    }
}

fn sorted_ids(list: &[(usize, usize)]) -> Vec<usize> {
    let mut ids: Vec<usize> = list.iter().map(|(h, _)| *h).collect();
    ids.sort();
    ids
}

#[test]
fn zero_weight_edges_keep_every_equal_cost_hop() {
    // s -1-> a -0-> b -1-> t, and s -1-> b: t is at cost 2 through a and through b
    let mut graph = DiGraph::<&str, u32>::new();
    let s = graph.add_node("s");
    let a = graph.add_node("a");
    let b = graph.add_node("b");
    let t = graph.add_node("t");
    graph.extend_with_edges([(s, a, 1), (s, b, 1), (a, b, 0), (b, t, 1)]);
    let (scores, hops) = dijkstra_with_all_first_hops(&graph, s.index());
    assert_eq!(scores[&t.index()], 2);
    assert_eq!(sorted_ids(&hops[&b.index()]), vec![a.index(), b.index()]);
    assert_eq!(sorted_ids(&hops[&t.index()]), vec![a.index(), b.index()]);
    assert!(!hops.contains_key(&s.index()));
    let (_, legacy_hops) = legacy::dijkstra_with_all_first_hops(&graph, s.index());
    assert_eq!(sorted_ids(&legacy_hops[&t.index()]), vec![a.index(), b.index()]);
    assert_eq!(legacy_hops[&s.index()], vec![(s.index(), 0)]);
}

#[test]
fn legacy_lists_every_hop_past_a_merge_point() {
    // a -1-> b -1-> m -1-> d and a -1-> c -1-> m
    let mut graph = DiGraph::<&str, u32>::new();
    let a = graph.add_node("a");
    let b = graph.add_node("b");
    let c = graph.add_node("c");
    let m = graph.add_node("m");
    let d = graph.add_node("d");
    graph.extend_with_edges([(a, b, 1), (a, c, 1), (b, m, 1), (c, m, 1), (m, d, 1)]);
    let (_, hops) = legacy::dijkstra_with_all_first_hops(&graph, a.index());
    assert_eq!(sorted_ids(&hops[&d.index()]), vec![b.index(), c.index()]);
    assert!(hops[&d.index()].iter().all(|(_, len)| *len == 3));
    assert_eq!(hops[&a.index()], vec![(a.index(), 0)]);
}

#[test]
fn legacy_lists_start_with_the_single_search_hop() {
    let (graph, n) = sample_graph();
    for &start in &n {
        let (_, first_hop) = dijkstra_with_first_hop(&graph, start);
        let (_, lists) = legacy::dijkstra_with_all_first_hops(&graph, start);
        assert_eq!(first_hop.len(), lists.len());
        for (v, hop) in &first_hop {
            assert_eq!(lists[v][0], *hop);
        }
    }
}

#[test]
fn first_hops_continue_a_predecessor_hop() {
    let (graph, n) = sample_graph();
    for &start in &n {
        let (scores, first_hop) = dijkstra_with_first_hop(&graph, start);
        for (v, (h, len)) in &first_hop {
            if *v == start {
                continue;
            }
            assert_ne!(*h, start);
            let found = graph.raw_edges().iter().any(|e| {
                let u = e.source().index();
                e.target().index() == *v
                    && scores.get(&u).map(|su| su + e.weight as u64) == Some(scores[v])
                    && if u == start {
                        (*h, *len) == (*v, 1)
                    } else {
                        first_hop[&u] == (*h, *len - 1)
                    }
            });
            assert!(found);
        }
    }
}

#[test]
fn has_node_tells_nodes_of_the_topology() {
    let (graph, n) = sample_graph();
    assert!(has_node(&graph, n[0]));
    assert!(has_node(&graph, n[5]));
    assert!(!has_node(&graph, 6));
}

#[test]
fn equal_cost_searches_name_the_same_hops() {
    let (graph, n) = sample_graph();
    for &start in &n {
        let (_, hops) = dijkstra_with_all_first_hops(&graph, start);
        let (_, legacy_hops) = legacy::dijkstra_with_all_first_hops(&graph, start);
        for (v, list) in &legacy_hops {
            if *v != start {
                assert_eq!(sorted_ids(list), sorted_ids(&hops[v]));
            }
        }
    }
}

#[test]
fn zero_weight_cycle_through_start_gives_no_hops() {
    // a -1-> b -0-> a, a -1-> c: the way a, b, a, c costs as little as a, c
    let mut graph = DiGraph::<&str, u32>::new();
    let a = graph.add_node("a");
    let b = graph.add_node("b");
    let c = graph.add_node("c");
    graph.extend_with_edges([(a, b, 1), (b, a, 0), (a, c, 1)]);
    let (_, hops) = dijkstra_with_all_first_hops(&graph, a.index());
    assert_eq!(hops[&c.index()], vec![(c.index(), 1)]);
    assert!(!hops.contains_key(&a.index()));
    let (_, legacy_hops) = legacy::dijkstra_with_all_first_hops(&graph, a.index());
    assert_eq!(legacy_hops[&c.index()], vec![(c.index(), 1)]);
    assert_eq!(legacy_hops[&a.index()], vec![(a.index(), 0)]);
}

#[test]
fn lighter_weights_never_raise_a_score() {
    let (graph, n) = sample_graph();
    let lighter = graph.map(|_, w| *w, |_, w| w / 2);
    for &start in &n {
        let (heavy, _) = dijkstra_with_first_hop(&graph, start);
        let (light, _) = dijkstra_with_first_hop(&lighter, start);
        assert_eq!(heavy.len(), light.len());
        for (v, d) in &heavy {
            assert!(light[v] <= *d);
        }
    }
}

#[test]
fn scaled_weights_scale_scores_and_keep_hops() {
    let (graph, n) = sample_graph();
    let scaled = graph.map(|_, w| *w, |_, w| w * 3);
    for &start in &n {
        let (s1, _) = dijkstra_with_first_hop(&graph, start);
        let (s2, _) = dijkstra_with_first_hop(&scaled, start);
        assert_eq!(s1.len(), s2.len());
        for (v, d) in &s1 {
            assert_eq!(s2[v], 3 * d);
        }
        let (_, h1) = dijkstra_with_all_first_hops(&graph, start);
        let (_, h2) = dijkstra_with_all_first_hops(&scaled, start);
        assert_eq!(h1.len(), h2.len());
        for (v, list) in &h1 {
            assert_eq!(sorted_ids(list), sorted_ids(&h2[v]));
        }
    }
}
