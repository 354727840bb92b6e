# simulation_engine

The discrete core of an artificial-life simulation, verified with Verus:
story-arc detection, biographies and event significance; behaviour-tree
ticking and evolution (crossover, structural mutation, simplification,
depth pruning); memories and their recall; trade routes, role counts and
cultural fingerprints; settlement clusters and production tallies; world
chunks and their manager; terrain and cave grids; the buckets of the spatial
index; storage buildings; viewer deltas; seasons; species hashes;
deterministic per-system random streams; per-system timing statistics;
snapshot compression.

Layout:

- `src/` — the verified library. Each public function states its result in
  `ensures` over mathematical models (`Seq`, `Map`, views of the types);
  the `law_*` proof functions state properties that span calls.
  - `narrative/` — significance scores, biographies, the arc detector and
    its ledgers, the narrative tracker with its searchable history, and
    the check that a tick's events fit the counters.
  - `events/` — simulation events as the narrative reads them, the event
    log, tick summaries.
  - `components/` — behaviour trees (ticking, size, structural operations),
    memories, composites, inventories, species hashes.
  - `civilization/` — trade routes and trips, role detection and
    distribution, the pattern fingerprint, settlement clusters and their
    production.
  - `environment/` — chunks and the chunk manager, seasons, storage
    buildings, terrain and cave grids, the spatial index's cell grid,
    structure kinds.
  - `net/` — tick deltas for viewers and the detail levels.
  - `engine/` — random streams, timing statistics, replay targets, the
    periodic actions of the main loop, compressed snapshot bytes.
- `app/` — the command-line program around the library: arguments, logging,
  configuration and event-stream files, the paced main loop, and the
  real-valued parts (positions and distances, interest and legacy scores,
  percentages, behaviour-tree conditions and parameters, eviction scores,
  crop growth, build progress, food stocks, genome traits and their
  mutation, relationships, signals, noise-generated terrain, settlement
  centroids and defence scores).
- `tests/` — tests of the library on concrete values.

Real numbers do not enter the library: where the simulation compares or sums
floating-point values, the library takes the outcome (a flag, a leaf result,
a score in hundredths, a tension as a fraction) and `app/` computes it.
