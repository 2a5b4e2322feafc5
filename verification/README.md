# arookieofcdb

A small key-value database: a write-ahead log with checkpoints, a log-structured store with
snapshots and expiring keys, an LRU cache in front of it (the hybrid store) with consistency
checks and repairs, a page buffer pool, and a small bean container.

- `src/` is the library. Every function there is verified by Verus against its `requires` and
  `ensures`; the formats (log records, headers, checkpoints, snapshots, keys and values) are
  functions on bytes with exact contracts, and the stores are stated over map views.
- `app/` is the program around it: the REPL, file and directory I/O, the clock, the global
  bean registry. It hands the library bytes and plain values and takes plain values back.
- `tests/` runs the library on concrete inputs.
