# saan

Data lineage in Verus: SQL sources are shaved into strands of nodes and
edges, staged, interlaced (transitive edges), applied to a graph store,
inspected (orphans, external references, cycles), queried and drawn as SVG.

- `src/` is the verified library. Public functions state their results in
  their `ensures`; where a result comes from an outside crate or from a
  user's shaver behind a trait object, the contract names it or says what
  holds of it, and the doc comment says what is left open. The laws the
  library keeps (interlacing is idempotent, escaped markup is inert, CSV
  and JSON escaping read back losslessly, tables are rectangular, reports
  are determined by the graph, and others) are public proof functions.
- `app/` is the command-line program, the DuckDB store, directory walking,
  the floating-point circular layout, and the WebAssembly and Python entry
  points. It hands plain values to the library and prints or stores what
  comes back.
- `tests/` exercises the library on concrete values.
