# rusty-detox

Sanitize messy filenames through a configurable filter pipeline, in the
manner of `detox(1)`: percent-escape decoding, Latin-1 and UTF-8
transliteration, unsafe-byte replacement, separator clean-up, length limits
and Windows-reserved names; built-in and `detoxrc`-defined sequences;
collision-safe batch renames; and a strict compatibility mode.

The library under `src/` is written in Verus: each public function states
its result in its contract, and the properties the tool relies on (sorted
tables, an idempotent `default` sequence, collision-free plans, built-in sequences that
a config can replace but never remove, last-wins and grouped flags in strict
mode) are proof functions beside the code.

- `src/filter/` – the seven filters, each a function on bytes with its
  mathematical definition.
- `src/tables.rs` – the transliteration tables and their lookups.
- `src/sequence.rs`, `src/lib.rs` – sequences, `Detox` and its builder.
- `src/planner.rs` – rename planning with `_N` collision suffixes.
- `src/config.rs` – the `detoxrc` grammar and the table of sequences.
- `src/strict.rs`, `src/mode.rs`, `src/session.rs`, `src/output.rs` – the
  command-line decisions and output format.
- `app/` – the program: option parsing (clap), directory walking (walkdir),
  renaming with a cross-device fallback, and printing.
