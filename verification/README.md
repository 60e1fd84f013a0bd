# obzenflow_topology

Flow topology graphs — stages, directed edges, and the rules a flow graph
must obey — written in Verus, with every operation of the library proved
against its contract.

## Layout

- `src/` — the verified library.
  - `ids.rs`, `ulid.rs`: stage identifiers and ULIDs (bytes, text, decoding,
    clock-driven generation).
  - `stage_type.rs`, `status.rs`, `typing.rs`, `annotations.rs`,
    `stage_info.rs`, `edge.rs`, `shape.rs`: the value types of a topology
    document.
  - `graph.rs`: reachability over adjacency lists, strongly connected
    components, cycle extraction and longest simple paths.
  - `order.rs`: a verified sort of distinct keys, used for canonical orders.
  - `validation.rs`: structural, connection and reachability rules, SCCs,
    acyclicity.
  - `index.rs`: hash indexes keyed by stage id values (stage positions,
    edge pair keys, downstream and upstream lists).
  - `boundary.rs`: the composite-boundary rules (port bindings of edges
    that cross a composite, payload ownership of its ports).
  - `topology.rs`: the `Topology` type (well-formed by type invariant), its
    validation levels, queries, metrics, fingerprint, and the laws that
    relate them.
  - `builder.rs`: incremental construction.
- `tests/` — executable tests of the library.
- `app/` — process-level glue: global id sources, serde document types,
  `Display` forms and a `std::error::Error` form of `TopologyError`.

Structural and connection validation, stage lookups, `has_edge` and the
upstream/downstream queries go through hash indexes (expected `O(V + E)`
for validation, expected constant time plus the output for a query).
Strongly connected components are computed from a reachability matrix
(one search per stage): `O(V·(V+E))` time and `O(V²)` space.
