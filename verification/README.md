# delta_forge

An incremental computation engine. Named input nodes hold values set by the
user; compute nodes derive their value from the values of their dependencies.
Setting an input marks everything downstream of it dirty, and a recomputation
runs exactly the dirty compute nodes, in dependency order (sequentially, or
layer by layer in parallel), recording each run in a log.

The library under `src/` is written in Verus and verified:

- `graph.rs` — the dependency graph held in petgraph, with the facts the
  engine relies on (edges, cycles, topological orders) and the cycle law.
- `scheduler.rs` — dirty-flag propagation, a breadth-first search.
- `engine.rs` — `DeltaForge`: node registration, dependencies with cycle
  refusal, inputs, reads, sequential and parallel recomputation.
- `log.rs` — the recomputation log and its table rendering.
- `laws.rs` — laws that relate several operations.
- `history.rs` — runs of public calls as sequences of states, and the laws
  that hold over whole runs (reads, the log, incremental recomputation).
- `node.rs`, `timing.rs` — node state and clock readings.

`app/` holds the demo program, the console printing, and the SQLite-backed
value cache (`rusqlite`), which is pure I/O.
