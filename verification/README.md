# cokekv

A small key-value store over byte strings, verified with Verus.

- `src/` is the verified library: the ordered in-memory table (`table.rs`,
  ordered by `order.rs`), the write-ahead log format with its encoder,
  decoders and replay (`wal.rs`, `bytes.rs`), the in-memory engine
  (`memory.rs`, behind the `Engine` trait of `engine.rs`), and the state and
  compaction decisions of the persistent engine (`persistent.rs`).
- `app/` holds the file work: the log file (`Wal`) and the persistent engine
  that appends to it, recovers from it and rewrites it when compacting.
- `tests/` runs the library on concrete values.
