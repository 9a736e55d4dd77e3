# process-rules

Validates categorized TOML rules that map applications to process names and egress regions,
and exports them as Mihomo classical `PROCESS-NAME` rule providers, one per platform and
collection, together with a manifest of every artifact.

## Layout

- `src/` — the library, verified with Verus:
  - `text.rs`, `platform.rs`, `region.rs`, `collection.rs`, `application.rs`: the value types
    and their parsers (process names, Android packages, the region registry, region sets,
    collections, application IDs).
  - `loader.rs`: validation of parsed rule files into a catalog, with every diagnostic, the
    case-insensitive collision check, and the laws about what a successful load yields.
  - `catalog.rs`: selection, case-insensitive deduplication and ordering of names, and
    explain queries.
  - `output.rs`: provider text, SHA-256 digests, and the plan of a complete build.
  - `command.rs`, `error.rs`, `diagnostic.rs`: the decisions and texts of the command line.
  - `outside.rs`: the calls into `unicase`, `sha2` and std whose contracts are trusted.
- `tests/` — tests of the library on concrete values.
- `app/` — the command-line program: argument parsing, reading the rules directory and TOML
  files, writing artifacts through staging directories and temporary files, and JSON output.
