# loom_topo

A deterministic code-topography library: it parses Rust, TypeScript/TSX and Python
sources with tree-sitter, keeps the symbols and their dependencies in a graph, and
answers reachability, shortest-path, blast-radius and dead-code questions over it.

The library in `src/` is written in Verus, and its behaviour is stated in contracts:

- `id` — 128-bit symbol identifiers derived with BLAKE3, and their hexadecimal form.
- `symbol`, `edge`, `error` — the data carried by the graph.
- `digraph` — the contracts of the petgraph operations the graph is built on.
- `graph` — the code graph: upsert, edges, removal, file invalidation, neighbour queries.
- `reach`, `traversal` — walks and distances; breadth-first traversals and shortest paths.
- `blast_radius`, `dead_code` — impact analysis and unreachable-symbol detection.
- `parser` — languages, tree-sitter queries, and symbol and call extraction.
- `syntax` — the boundary to tree-sitter: parsing, compiling a query, collecting its matches.
- `pipeline` — reconciling parsed files into the graph, singly and in batches; edges into a
  re-indexed file's symbols from other files are restored.
- `laws` — properties that relate several operations, proved over their contracts.
- `text` — the string helpers the rest relies on.

`app/` holds the daemon around the library: command-line handling, file reading, the
parallel batch parse, the filesystem watcher, the floating-point risk score, and the
serializable and displayable copies of the library's types. `tests/` exercises the
library from outside.
