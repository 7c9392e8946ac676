# xyzdb_engine

The engine of a record store whose records lie together by a *gravity* value, as a
library that Verus verifies.

- `src/` holds the rules: where records are placed and how they are written, changed
  and removed; how filters, scans, searches, aggregates and pipelines are answered;
  and the *ghosts*, indexes over a lobe that are built, kept up, routed to, promoted
  and dropped. Every function carries a contract; what holds across several of them
  is stated in the proof functions whose names begin with `law_`.
- `tests/` runs the library on plain values.
- `app/` is the engine around the library: trees, locks, threads, the clock, and
  floating point.

The data model (hashes, identities, the form of keys and records, vector
arithmetic) is given to the library as functions. A contract that speaks of them
says what is done with their results; it asks of them that they accept every value
and depend on their arguments alone (`sound`).

Floating-point numbers stand in `src/` as their bits. `float.rs` states how the bits
are ordered.

What is taken on trust of outside crates and of std stands in `wire.rs` (the
`postcard` form of numbers and texts), `record_cache.rs` and `ghost_pool.rs`
(`dashmap`'s map and set), and `text.rs` (a few functions on texts).
