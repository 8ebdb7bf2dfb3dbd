# taskfile_lsp

A language server for Taskfiles, whose parser and answers are verified with Verus.

- `src/` — the verified library
  - `text.rs`: characters, trimming, searching, UTF-8 byte columns, line splitting specs
  - `lines.rs`: splitting a document into lines
  - `ast.rs`: the syntax tree and its model
  - `model.rs`: what parsing a Taskfile yields, stated over sequences of characters
  - `parser.rs`: the parser, proved to yield what `model.rs` states
  - `server.rs`: completions, hover, definitions, includes and the outline
  - `laws.rs`: properties that hold for every document
  - `shift.rs`: a newline in front of a document moves every span down one line
- `app/` — the LSP server over stdio (tower-lsp), which keeps the open
  documents and converts the library's answers into LSP messages
- `tests/` — tests of the library
