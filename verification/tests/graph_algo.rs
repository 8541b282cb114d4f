use easytier_graph::peers::graph_algo as legacy;
use easytier_graph::peers::route::graph_algo::{
    dijkstra_with_all_first_hops, dijkstra_with_first_hop, MinScored,
};
use easytier_graph::scored::pop_min;
use petgraph::graph::DiGraph;
use std::cmp::Ordering;

#[test]
fn test_dijkstra_with_first_hop_4node() {
    let mut graph = DiGraph::<&str, u32>::new();
    let a = graph.add_node("a");
    let b = graph.add_node("b");
    let c = graph.add_node("c");
    let d = graph.add_node("d");

    graph.extend_with_edges([(a, b, 1)]);
    graph.extend_with_edges([(b, c, 1)]);
    graph.extend_with_edges([(c, d, 2)]);

    let (scores, first_hop) = dijkstra_with_first_hop(&graph, a.index());

    assert_eq!(scores[&b.index()], 1);
    assert_eq!(scores[&c.index()], 2);
    assert_eq!(scores[&d.index()], 4);

    assert_eq!(first_hop[&b.index()], (b.index(), 1));
    assert_eq!(first_hop[&c.index()], (b.index(), 2));
    assert_eq!(first_hop[&d.index()], (b.index(), 3));
}

#[test]
fn test_dijkstra_with_first_hop() {
    let mut graph = DiGraph::<&str, u32>::new();
    let a = graph.add_node("a");
    let b = graph.add_node("b");
    let c = graph.add_node("c");
    let d = graph.add_node("d");
    let e = graph.add_node("e");

    graph.extend_with_edges([(a, b, 1), (a, c, 2), (b, d, 1), (c, d, 3), (d, e, 1)]);

    let (scores, first_hop) = dijkstra_with_first_hop(&graph, a.index());

    assert_eq!(scores[&b.index()], 1);
    assert_eq!(scores[&c.index()], 2);
    assert_eq!(scores[&d.index()], 2);
    assert_eq!(scores[&e.index()], 3);

    assert_eq!(first_hop[&b.index()], (b.index(), 1));
    assert_eq!(first_hop[&c.index()], (c.index(), 1));
    assert_eq!(first_hop[&d.index()], (b.index(), 2)); // d is reached via b
    assert_eq!(first_hop[&e.index()], (b.index(), 3)); // e is reached via d
}

#[test]
fn test_multi_hop_diamond() {
    // A --1--> B --1--> D
    // A --1--> C --1--> D
    // Both paths to D cost 2; both B and C should be first-hops for D
    let mut graph = DiGraph::<&str, u32>::new();
    let a = graph.add_node("a");
    let b = graph.add_node("b");
    let c = graph.add_node("c");
    let d = graph.add_node("d");
    graph.extend_with_edges([(a, b, 1), (a, c, 1), (b, d, 1), (c, d, 1)]);

    let (scores, first_hops) = dijkstra_with_all_first_hops(&graph, a.index());

    assert_eq!(scores[&d.index()], 2);
    let mut hops: Vec<_> = first_hops[&d.index()].iter().map(|(n, _)| *n).collect();
    hops.sort();
    let mut expected = vec![b.index(), c.index()];
    expected.sort();
    assert_eq!(hops, expected);
}

#[test]
fn test_multi_hop_asymmetric() {
    // A --1--> B --1--> D
    // A --1--> C --5--> D
    // Only B should be first-hop for D (cost 2 < 6)
    let mut graph = DiGraph::<&str, u32>::new();
    let a = graph.add_node("a");
    let b = graph.add_node("b");
    let c = graph.add_node("c");
    let d = graph.add_node("d");
    graph.extend_with_edges([(a, b, 1), (a, c, 1), (b, d, 1), (c, d, 5)]);

    let (_scores, first_hops) = dijkstra_with_all_first_hops(&graph, a.index());

    assert_eq!(first_hops[&d.index()].len(), 1);
    assert_eq!(first_hops[&d.index()][0].0, b.index());
}

#[test]
fn test_multi_hop_propagates_past_branch() {
    // A --1--> B --1--> M --1--> D
    // A --1--> C --1--> M --1--> D
    // D should have both B and C as first-hops (via M)
    let mut graph = DiGraph::<&str, u32>::new();
    let a = graph.add_node("a");
    let b = graph.add_node("b");
    let c = graph.add_node("c");
    let m = graph.add_node("m");
    let d = graph.add_node("d");
    graph.extend_with_edges([(a, b, 1), (a, c, 1), (b, m, 1), (c, m, 1), (m, d, 1)]);

    let (scores, first_hops) = dijkstra_with_all_first_hops(&graph, a.index());

    assert_eq!(scores[&d.index()], 3);
    let mut hops: Vec<_> = first_hops[&d.index()].iter().map(|(n, _)| *n).collect();
    hops.sort();
    let mut expected = vec![b.index(), c.index()];
    expected.sort();
    assert_eq!(hops, expected);
}

#[test]
fn test_multi_hop_single_path() {
    // A --1--> B --1--> C (no alternatives)
    let mut graph = DiGraph::<&str, u32>::new();
    let a = graph.add_node("a");
    let b = graph.add_node("b");
    let c = graph.add_node("c");
    graph.extend_with_edges([(a, b, 1), (b, c, 1)]);

    let (_scores, first_hops) = dijkstra_with_all_first_hops(&graph, a.index());

    assert_eq!(first_hops[&b.index()].len(), 1);
    assert_eq!(first_hops[&b.index()][0].0, b.index());
    assert_eq!(first_hops[&c.index()].len(), 1);
    assert_eq!(first_hops[&c.index()][0].0, b.index());
}

#[test]
fn graph_algo_test_dijkstra_with_first_hop_4node() {
    let mut graph = DiGraph::<&str, u32>::new();
    let a = graph.add_node("a");
    let b = graph.add_node("b");
    let c = graph.add_node("c");
    let d = graph.add_node("d");

    graph.extend_with_edges([(a, b, 1)]);
    graph.extend_with_edges([(b, c, 1)]);
    graph.extend_with_edges([(c, d, 2)]);

    let (scores, first_hop) = legacy::dijkstra_with_first_hop(&graph, a.index());

    assert_eq!(scores[&b.index()], 1);
    assert_eq!(scores[&c.index()], 2);
    assert_eq!(scores[&d.index()], 4);

    assert_eq!(first_hop[&b.index()], (b.index(), 1));
    assert_eq!(first_hop[&c.index()], (b.index(), 2));
    assert_eq!(first_hop[&d.index()], (b.index(), 3));
}

#[test]
fn graph_algo_test_dijkstra_with_first_hop() {
    let mut graph = DiGraph::<&str, u32>::new();
    let a = graph.add_node("a");
    let b = graph.add_node("b");
    let c = graph.add_node("c");
    let d = graph.add_node("d");
    let e = graph.add_node("e");

    graph.extend_with_edges([(a, b, 1), (a, c, 2), (b, d, 1), (c, d, 3), (d, e, 1)]);

    let (scores, first_hop) = legacy::dijkstra_with_first_hop(&graph, a.index());

    assert_eq!(scores[&b.index()], 1);
    assert_eq!(scores[&c.index()], 2);
    assert_eq!(scores[&d.index()], 2);
    assert_eq!(scores[&e.index()], 3);

    assert_eq!(first_hop[&b.index()], (b.index(), 1));
    assert_eq!(first_hop[&c.index()], (c.index(), 1));
    assert_eq!(first_hop[&d.index()], (b.index(), 2)); // d is reached via b
    assert_eq!(first_hop[&e.index()], (b.index(), 3)); // e is reached via d
}

#[test]
fn test_dijkstra_with_all_first_hops_diamond() {
    // Diamond topology: a -> b -> d, a -> c -> d (both paths cost 2)
    let mut graph = DiGraph::<&str, u32>::new();
    let a = graph.add_node("a");
    let b = graph.add_node("b");
    let c = graph.add_node("c");
    let d = graph.add_node("d");

    graph.extend_with_edges([(a, b, 1), (a, c, 1), (b, d, 1), (c, d, 1)]);

    let (scores, first_hops) = legacy::dijkstra_with_all_first_hops(&graph, a.index());

    assert_eq!(scores[&a.index()], 0);
    assert_eq!(scores[&b.index()], 1);
    assert_eq!(scores[&c.index()], 1);
    assert_eq!(scores[&d.index()], 2);

    // b and c are direct neighbors, each has one first hop
    assert_eq!(first_hops[&b.index()].len(), 1);
    assert_eq!(first_hops[&b.index()][0].0, b.index());
    assert_eq!(first_hops[&c.index()].len(), 1);
    assert_eq!(first_hops[&c.index()][0].0, c.index());

    // d has two equal-cost first hops: b and c
    assert_eq!(first_hops[&d.index()].len(), 2);
    let hop_ids: Vec<_> = first_hops[&d.index()].iter().map(|(id, _)| *id).collect();
    assert!(hop_ids.contains(&b.index()));
    assert!(hop_ids.contains(&c.index()));
}

#[test]
fn test_dijkstra_with_all_first_hops_asymmetric() {
    // Asymmetric costs: only one path is optimal
    let mut graph = DiGraph::<&str, u32>::new();
    let a = graph.add_node("a");
    let b = graph.add_node("b");
    let c = graph.add_node("c");
    let d = graph.add_node("d");

    // a->b costs 1, a->c costs 10, b->d costs 1, c->d costs 1
    graph.extend_with_edges([(a, b, 1), (a, c, 10), (b, d, 1), (c, d, 1)]);

    let (scores, first_hops) = legacy::dijkstra_with_all_first_hops(&graph, a.index());

    assert_eq!(scores[&d.index()], 2); // a -> b -> d = 2
    // Only b is the optimal first hop (a->c->d would cost 11)
    assert_eq!(first_hops[&d.index()].len(), 1);
    assert_eq!(first_hops[&d.index()][0].0, b.index());
}

#[test]
fn test_dijkstra_with_all_first_hops_single_path() {
    // Linear topology: a -> b -> c -> d (only one path)
    let mut graph = DiGraph::<&str, u32>::new();
    let a = graph.add_node("a");
    let b = graph.add_node("b");
    let c = graph.add_node("c");
    let d = graph.add_node("d");

    graph.extend_with_edges([(a, b, 1), (b, c, 1), (c, d, 1)]);

    let (scores, first_hops) = legacy::dijkstra_with_all_first_hops(&graph, a.index());

    assert_eq!(scores[&d.index()], 3);
    assert_eq!(first_hops[&d.index()].len(), 1);
    assert_eq!(first_hops[&d.index()][0].0, b.index());
    assert_eq!(first_hops[&d.index()][0].1, 3); // path length = 3
}

#[test]
fn test_dijkstra_with_all_first_hops_multiple_equal_cost_intermediate() {
    // a -> b -> d (cost 3), a -> c -> d (cost 3), but b and c have different intermediate costs
    // This tests that equal total cost paths are both collected
    let mut graph = DiGraph::<&str, u32>::new();
    let a = graph.add_node("a");
    let b = graph.add_node("b");
    let c = graph.add_node("c");
    let d = graph.add_node("d");

    // a->b costs 2, a->c costs 1, b->d costs 1, c->d costs 2
    // Both paths a->b->d and a->c->d cost 3
    graph.extend_with_edges([(a, b, 2), (a, c, 1), (b, d, 1), (c, d, 2)]);

    let (scores, first_hops) = legacy::dijkstra_with_all_first_hops(&graph, a.index());

    assert_eq!(scores[&d.index()], 3);
    // Both b and c should be first hops for d (equal total cost)
    assert_eq!(first_hops[&d.index()].len(), 2);
    let hop_ids: Vec<_> = first_hops[&d.index()].iter().map(|(id, _)| *id).collect();
    assert!(hop_ids.contains(&b.index()));
    assert!(hop_ids.contains(&c.index()));
}
