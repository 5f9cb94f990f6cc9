# astdiff

Structural comparison, scope analysis and canonical renaming of JavaScript,
with its logic verified by Verus.

## Layout

- `src/` — the verified library.
  - `syntax.rs`: the library's own syntax tree, built from the parser's
    preorder records; `parser.rs`: the tree-sitter parser behind trusted
    wrappers, and identifier extraction.
  - `scope.rs`: scope analysis, specified as a walk over the tree.
  - `canonicalizer.rs`: canonical names (`fn_1`, `param_1`, `var_1`, ...)
    per scope, and the canonical rendering of a program.
  - `mapping.rs`: mapping files (generate, parse, apply).
  - `pretty.rs`: the pretty printer.
  - `fingerprint.rs`: string, constant and API-call fingerprints of
    functions, their rarity counts, string diffs and identifier rewriting.
  - `diff.rs`: declarations, structural hashes and MinHash signatures, and
    the text views of a diff (lite view, unified diff, function extraction).
  - `matcher.rs`: candidate pairs, the MinHash filter and the greedy
    one-to-one choice of matches; `changes.rs`: the changes that a matching
    shows (changed pairs, removals, additions).
  - `renaming.rs`: programs that differ only in their names are analysed
    and named alike; `determinism.rs`: the same text always gives the same
    canonical text.
  - `dump.rs`: the checks on dump headers (magic, version, checksum) and
    contents.
  - `cli.rs`, `profiling.rs`, `threshold_learning.rs`, `matching_report.rs`:
    command-line modes, timing records and plain report records.
  - `lib.rs`: the canonicalize, generate-mapping and apply-mapping pipelines.
- `tests/` — tests of the library.
- `app/` — the `astdiff` command: argument parsing, file and dump I/O,
  printing, and the floating-point scoring, reporting and threshold
  learning around the library.
