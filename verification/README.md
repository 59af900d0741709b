# cellmesh

A 16x16 mesh of cells that route events hop by hop around failed
neighbours, with the experiments that test how routing and learned local
policies cope with failures. The library in `src/` is verified with Verus.

- `src/rng.rs`: the seeded xorshift* generator.
- `src/grid.rs`: the grid of alive cells, cell ids, neighbours and moves.
- `src/failures.rs`: the central-cluster and random failure patterns.
- `src/routing.rs`: breadth-first shortest routes, proved exact, and the
  laws of routing (full-grid distance, symmetry, failures never shorten a
  route, no walk beats the shortest route).
- `src/episode.rs`: one routing episode: moves, step budget, visit counts.
- `src/metrics.rs`: per-condition tallies and recovery cost.
- `src/local.rs`: what a cell observes of its neighbourhood.
- `app/`: the experiment drivers, whose Q-values and statistics are
  floating point; all but the online-adaptation experiment run on the
  `cellos_rs` fabric.
- `tests/`: executable tests of the library.
