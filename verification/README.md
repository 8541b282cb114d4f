# easytier_graph

Verified shortest-path searches over a peer routing topology held in a
`petgraph` directed graph whose edge weights are the link costs.

- `dijkstra_with_first_hop` returns, for every node reachable from the start,
  its least cost and the first hop (with the number of edges) of a least-cost
  way there.
- `peers::route::graph_algo::dijkstra_with_all_first_hops` lists every
  distinct first hop of the least-cost ways that do not come back to the
  start (equal-cost multi-path routing).
- `peers::graph_algo::dijkstra_with_all_first_hops` lists the same hops,
  headed by the start's `(start, 0)` or by the hop that
  `dijkstra_with_first_hop` describes.

The library is written in Verus; `src/` is verified, `tests/` runs it.
