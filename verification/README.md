# pathfind3d

The core of a volumetric pathfinding visualizer, written in Verus: a voxel
world of void, wall and weighted cells, eight search algorithms behind one
stepping loop, hand-drawn route scoring and cell picking, each function
proved against its contract.

## Layout

- `src/domain.rs`: presets, per-axis wrap, the existence mask, index and
  coordinate arithmetic, neighbours.
- `src/terrain.rs`: the seeded mulberry32 generator and the integer parts
  of world generation (walls, scatter, carving endpoints), each stated as
  a function of the generator's state.
- `src/heap.rs`: the frontier's binary min-heap.
- `src/solver.rs`: the search engine, in fixed-point costs (`COST_ONE` is
  one straight step), with its laws: found paths are legal routes, A* and
  Dijkstra find least-cost paths and agree, breadth-first finds fewest-hop
  paths, void cells are never searched, the heuristic is consistent and
  admissible, and the state buffer shows exactly the closed cells, the
  frontier and the found path. A wall under an endpoint is searched as
  weight-1 ground. Searches are deterministic: a new search's state and
  each step are stated exactly, so stepping one at a time, in batches or
  to the end reach the same states.
- `src/route.rs`: route validation, route cost, and the fewest-hop bridge
  between two cells.
- `src/pick.rs`: what a sampled ray hits, and snapping endpoints.
- `src/world.rs`: the world a user edits, searches and draws routes in;
  seeking and rewinding replay the search from zero and land exactly
  where stepping there would.
- `app/`: the `wasm-bindgen` surface and the floating-point parts (cell
  positions in world space, ray marching, terrain blobs).
- `tests/`: behaviour on concrete worlds.
