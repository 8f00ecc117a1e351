# cfdb_petgraph

An in-memory fact store: named keyspaces, each a graph of nodes and edges
with string-keyed properties, a label index and declared property indexes,
a Cypher-like query evaluator, a canonical dump, and enrichment passes
(reachability from entry points, git history, document references,
declared concepts, bounded contexts, code metrics).

- `src/` is the library, verified with Verus: every function carries a
  contract over spec models (`Seq`, `Map`, `Set`, views of the types).
  The graph itself lives in a `petgraph` `StableGraph` and an `indexmap`
  id map behind small trusted wrappers (`graph_api.rs`); regular
  expressions go through `regex`, JSON string and array text through
  `serde_json`.
- `app/` reads what the passes need from the file system and a git
  repository, and converts the library's types to and from JSON and TOML.
- `tests/` exercises the library through its public API.
