# macro_traffic_sim_core

The discrete core of a macroscopic (four-step) traffic demand model,
verified with Verus, with the floating-point steps beside it. The crate
does not run the four steps end to end: it provides the network, the
indexed graph, path reconstruction, zone connectivity, the input checks,
progress events and the assignment methods that such a run is built from.

## Layout

- `src/` — the verified library:
  - `gmns/` — the mesoscopic network (nodes, links, zone centroids), its
    classification enums, link defaults and graph errors;
  - `assignment/indexed_graph.rs` — the dense CSR form of a network that
    the assignment algorithms run on;
  - `assignment/shortest_path.rs` — reading a path back from a tree of
    predecessor links;
  - `assignment/lua_vdf.rs` — the budgets and the instruction watchdog of
    the Lua volume-delay sandbox;
  - `od/zone_matrix.rs` — the zone-indexed, row-major storage of
    origin-destination matrices;
  - `pipeline/` — strongly-connected components of zone centroids
    (union-find over reachability), the input checks that run before
    the model, progress events and error messages;
  - `text.rs`, `sorted_ids.rs` — decimal and list rendering of IDs,
    sorted ID lists.
- `tests/` — tests of the library.
- `app/` — the floating-point parts: link attributes, OD matrices,
  volume-delay functions, Dijkstra by cost, Frank-Wolfe, MSA, gradient
  projection, multi-class assignment, the Lua volume-delay function and
  mode choice. They call the library for the network, the indexed
  graph, path walks and the input checks.

Every function in `src/` carries a contract that Verus proves; the
public proof functions named `law_*` state properties that relate
several operations (what a lookup returns after an insertion, that the
components partition the centroid zones, that per-link values survive a
round trip through a map keyed by link ID, that a path read back from
a shortest-path tree is a connected route, that a matrix cell reads back
what was set).
