# ast_search

Structural code search over tree-sitter syntax trees, with a rewrite engine,
a JSON-RPC server and an interactive screen. The library in `src/` is written
in Verus: its functions carry contracts that Verus proves. The calls into
tree-sitter, the grammar crates, `similar` and a few `String` methods go
through small trusted wrappers whose contracts are assumed; each says in its
doc comment what it claims.

## Layout

- `src/text.rs` — characters, decimal rendering, the whitespace test.
- `src/types.rs` — languages, search configuration, match results, errors.
- `src/order.rs` — the order of results (paths by component), sorting with
  duplicates removed, and its laws.
- `src/template.rs` — rewrite templates and their capture table.
- `src/rewrite.rs` — edits computed from matches and applied to source text;
  unified diffs.
- `src/parser.rs`, `src/query.rs` — grammars, parsing, compiling queries and
  turning captures into results.
- `src/search.rs` — what a search keeps of each file, and its closing report.
- `src/cli.rs` — the command line's checks, language files, warnings.
- `src/mcp.rs`, `src/lookup.rs` — the JSON-RPC server's decisions and the
  steps of a symbol lookup.
- `src/tui.rs` — the state of the interactive screen and its event handling.
- `app/` — the program around the library: arguments, directory walking,
  threads, terminal and standard-input plumbing, JSON encoding.
- `tests/` — tests of the library, run against the real tree-sitter grammars.
