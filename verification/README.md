# master_server

A server that spreads the counting of text patterns over many workers. It hands out the files of
large text dumps in batches, takes in counted patterns, keeps the counts in a database, and
compiles them into one binary image.

- `src/` is the library, verified with Verus: everything that decides or computes. Contracts are
  stated over mathematical views; `image_laws.rs`, `task_laws.rs`, `flush_laws.rs` and the `law_..`
  functions of the other modules state what holds across functions.
- `src/outside.rs` and `sort_entries` in `src/image.rs` are the only code whose contracts are not
  proved: each hands its arguments to one function or decoder of another crate or the standard
  library, and hands back what comes out.
- `app/` is the program around the library: HTTP, files, the database, the clock, and the
  floating-point figures of the status page.
- `tests/` runs the library on concrete values.

The image is `[header 24 B][records][footer 16 B]`, all numbers little-endian. The header holds the
number of patterns and the number of records in each of five frequency tiers. The records come tier
by tier, from the most frequent pattern down; patterns of frequency zero have none. The footer holds
the total size of the keys and the size of all that precedes it.
