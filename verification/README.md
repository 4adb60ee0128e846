# ql

`ql` queries a codebase with a small SQL-like language. Source files are parsed with
Tree-sitter, each syntax node is mapped to rows of language-agnostic tables (functions,
calls, imports, structs, variables, comments, fingerprints, call sets), and queries are
parsed, checked and rendered to SQL that DuckDB runs over those rows.

The library under `src/` is written in Verus, and its contracts are proved:

- `sql/` — the lexer, the Pratt parser with error recovery, and diagnostics rendered
  against the query text (lines, columns, snippets).
- `plan.rs` — identifier checks and the SQL text a statement renders to.
- `ast/` — the syntax-tree model, the adapter trait and the walk that reads a
  Tree-sitter tree, the row types, the second pass (test marks, `implements` lists,
  comment attachment) and call sets.
- `adapters/typescript.rs` — the TypeScript (TSX) adapter.
- `format.rs` — table, JSON and CSV output.
- `source.rs`, `query.rs`, `protocol.rs` — snapshots of source files, the `functions`
  columns and query results.

`app/` is the command-line program: argument handling, the file-system walk, the DuckDB
storage and execution, and the floating-point similarity scores.
