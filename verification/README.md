# baml_vis

A renderer-agnostic graph model for diagrams of source headers, and the builder
that derives the graph from an index of headers. Written in Verus: contracts and
proofs stand next to the code.

- `src/index.rs`, `src/span.rs`, `src/order.rs`: the headers of a source, their
  positions, and the orders by which positions are compared.
- `src/prelude.rs`, `src/merge.rs`, `src/tops.rs`: lookup tables, merging of
  headers by position, and the top-level scopes in order.
- `src/graph.rs`, `src/ids.rs`: nodes, edges, clusters, their identifiers, and the
  spans of nodes.
- `src/model.rs`: what the graph of an index is, as a function of the index.
- `src/builder.rs`, `src/calls.rs`: the builder, proved to compute that function.
  `build` is for indexes that can be laid out; `try_build` takes any index and
  tells whether it can.
- `src/depth.rs`, `src/fuel.rs`: how deep headers can be nested in an index that
  can be laid out, which is what `try_build` goes by.
- `src/nesting.rs`, `src/cycles.rs`, `src/progress.rs`: indexes in which no header
  is nested below itself, the proof that they can be laid out, and how headers
  follow each other in them.
- `src/invariants.rs`, `src/flow.rs`, `src/memory.rs`, `src/hiding.rs`,
  `src/trees.rs`, `src/laws.rs`: what holds of every graph.
- `app/`: paths, serialised spans and textual identifiers for renderers.
