# koyashi

Detect freeloader struct fields in Rust workspaces: fields that are never
referenced (`unused`), placed but never read (`write-only`), read but never
reassigned after construction (`read-only`), or read only through a derive
macro (`derive-only`). Fields that are both read and written are healthy.

The analysis is a library verified with Verus; the command-line program around
it resolves the workspace with `cargo metadata`, reads the source files,
asks rust-analyzer for every field's references over the Language Server
Protocol, and prints the library's report.

## Layout

- `src/` — the verified library:
  - `model.rs`: classifications, reference kinds, field definitions, findings,
    summary and report.
  - `analysis.rs`: aggregation of reference sites into counts, and the
    classification of a field from its counts.
  - `source.rs`: the parse of a file's text with `syn` into the model the
    analysis reads; the collection of named struct fields and the syntactic
    role of every field access.
  - `commands.rs`: which fields a `check` reports and in what order, the exit
    code, and what `explain` prints.
  - `report.rs`: the textual report and a field's explanation.
  - `config.rs`: the suppressions of `koyashi.toml`.
  - `workspace.rs`: the crates of a workspace.
  - `rust_analyzer.rs`: `file://` URIs and column units of the server.
  - `lsp/`: message framing, the reading of a message body with
    `serde_json` and its sorting into kinds, and what a client waiting for a
    response, a notification or readiness does with each message.
  - `order.rs`, `text.rs`: orderings, stable sorting and text building.
- `app/` — the program: argument parsing, file and process I/O, the
  language-server loop, and JSON output.
- `tests/` — tests of the library.
