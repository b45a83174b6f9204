# meta-ast

A polyglot static analyzer: it extracts the symbols of a source tree, builds
the cross-file dependency graph, analyses its strongly connected components,
and plans MetaCall deployments (pods, cuts, manifests and the mesh
annotation).

## Layout

- `src/`: the library, verified with Verus. Every public function states what
  it returns in `ensures`; the laws that relate several functions are public
  proof functions. Calls into petgraph, blake3, serde_json and tree-sitter go
  through small trusted wrappers whose contracts name what the outside crate
  returns.
- `tests/`: the test suite of the library.
- `app/`: the command line (`inspect`, `graph`, `deploy`): argument parsing,
  the directory walk, file reads, and writing the documents.
