# peregrine

Deterministic core of a real-time strategy game, verified with Verus.

- `src/fixed.rs` — fixed-point numbers (16 fractional bits); every operation
  is specified exactly on the raw bits (products, quotients and square roots
  round down).
- `src/flow_field.rs` — cost grid, shortest-walk integration field and the
  per-cell steering direction.
- `src/pathfinding/` — hierarchical navigation: clusters cut into
  rectangular regions, regions grouped into islands (border regions by how
  directly they connect, interior regions to the nearest border island),
  portals across cluster borders (in scan order, one pair per open run),
  routing tables between islands and between regions (each entry the first
  step of a least-cost route), the per-cell navigation lookup, and one tick
  of path following.
- `src/spatial_hash/` — staggered multi-resolution spatial hash with arena
  storage: insertion, removal, moves between grids, rebuilds with headroom,
  compaction, and radius and cell queries.
- `src/simulation.rs`, `src/boids.rs` — physics steps (friction, movement,
  map bounds, collisions, obstacles, force sources, seek) and flocking.
- `app/` — the game around the library: logging, configuration, the ECS
  world and its systems, and the floating-point parts (configuration
  conversion, spatial-hash cell-size merging, the direction for entities
  on one point).
- `tests/` — tests of the library.
