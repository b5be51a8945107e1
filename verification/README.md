# spice_lsp

Language server and formatter for SPICE circuit netlists, with its logic
verified by Verus.

- `src/` is the verified library: line classification and symbol indexing,
  structural and semantic diagnostics, the `.include` / `.lib` walk (as a
  state machine driven by the caller), navigation (definitions, references),
  hover text and the dialect reference corpus, editor position conversion
  and incremental edits, and the formatter. Each public function states its
  result over spec functions; the `law_*` proof functions state properties
  that span several functions.
- `app/` is the executable: the `spice-lsp` command line (`format`
  subcommand and the stdio language server), tree-sitter parsing, file
  access for includes, and loading the JSON reference corpus.
- `tests/` exercises the library on concrete netlists.

The reference corpus is read at start-up from `reference/` beside the
executable (or `SPICE_LSP_REFERENCE_DIR`): `_shared/` plus one directory
per dialect (`hspice`, `ngspice`, `ltspice`), one JSON entry per file.
