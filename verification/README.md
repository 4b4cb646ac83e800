# kgdb

A verified core for an RDF knowledge-graph store and its tooling.

- `src/` is the library, written in Verus: RDF terms and quads, the index
  key encoding and decoding, an in-memory key-value store and the quad store
  on top of it, query patterns, tries and joins over terms, the client update builder,
  the query server's request routing, the
  ontology schema reader, the vehicle-reasoning vocabulary and rules that do
  not depend on floating point, and the text generators of the command-line
  tools. Verus proves the library's functions against their contracts. The
  calls into outside crates (dashmap, smallvec, rayon, num_cpus) and into a
  few std functions stand behind small trusted wrappers, whose contracts
  Verus takes on trust; each says in its doc comment what it claims.
- `tests/` exercises the library on concrete values.
- `app/` holds what cannot be verified: metrics and logging, the LMDB-backed
  store, the floating-point vehicle rules and simulator bridge, and the
  command-line drivers that read and write files.
