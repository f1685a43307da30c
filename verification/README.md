# rhumb_validate

Conformance checks for Rhumb Workflow Protocol (RWP) artifact trees, written
in Verus: every check is an executable function whose contract states, over
a mathematical model, exactly which failures a fixture produces and how the
category's counters move.

## Layout

- `src/lib.rs` — categories, failures, per-category results, the report,
  and the counting discipline (each fixture counts once).
- `src/validators/` — one module per category (`schema`, `template`,
  `workflow`, `adapter`, `grammar`), the shared directory walk over a
  snapshot of the tree (`walk`), path arithmetic and processing order
  (`paths`), and the dispatch table.
- `src/report.rs` — exit codes and the text rendering of a report.
- `src/fixtures.rs` — the fixture blob format, with its round-trip law.
- `src/text.rs` — string helpers with exact contracts.
- `tests/` — behaviour tests of the library.
- `app/` — the `rhumb-validate` command: argument parsing, reading the
  target tree into a snapshot, reading files, YAML decoding of workflow
  documents, timing, and writing the report (text or JSON).

## Canonical inputs

The schema and template checks compare against the RWP JSON schemas and the
canonical templates. The command reads them from an RWP checkout given with
`--fixtures DIR` (`DIR/spec/schemas/*.schema.json`, `DIR/templates/...`);
the library takes their texts as arguments.
