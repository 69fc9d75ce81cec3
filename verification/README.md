# rdlt_engine

The part of a data-loading engine that decides: how batches fit their tables, how values become
what a destination stores, and what a write-ahead log left behind is worth after a crash.

- `src/` is the library. Every item is verified; contracts are stated over mathematical views of the
  types, and the promises that span functions stand as public proof functions named `law_...`.
  - `wal/`: manifest lines and their checksums, the scan of a manifest, coverage of segments by
    checkpoints, the layout of segment files, the steps of a replay, the log's directory and writer.
  - `table/`: logical types, schema resolution, lowering, conversions, temporal values as text and
    in zones, merge batches, the plans kept per table, child tables, what a commit records.
  - `error.rs`: which part of a run an error comes from, its code and its text.
  - `watch.rs`: a channel that wakes its waiters in the order they began to wait.
- `tests/` runs the library on concrete values.
- `app/` is the ordinary Rust around it: files, sessions, tasks, JSON and Arrow arrays.

What the library takes on trust are the functions of `arrow`, `blake3`, `chrono` and the standard
library that it calls. Each such call stands behind one item whose doc comment says what is claimed
of it.
