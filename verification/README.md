# ant_simulation

An ant colony simulation: ants forage in a procedurally generated cave,
following and laying two pheromone channels (home and food).

The crate is split in two:

- `src/` is the verified library. It holds the simulation's discrete logic
  with Verus contracts and proofs:
  - `config` – grid size and integer tuning constants, cell indexing;
  - `grid` – adjacency, open paths and reachability on the cell grid;
  - `flood` – breadth-first flood fill and sealing of unreachable cells;
  - `spawn_cells` – listing open cells with clearance from walls;
  - `cave` – the cellular-automaton smoothing rule and the nearest-open-cell
    search;
  - `world` – the `WorldMap`, grid bounds, and cellular-automaton cave
    generation;
  - `terrain` – border band and centre disc forcing, and terrain maps built
    from a thresholded noise field;
  - `marching` – marching-squares cases and their triangle table;
  - `noise` – Perlin lattice wrapping, corner hashing and gradient choice;
  - `colony` – ant states, pheromone channels, food pickup and delivery,
    stuck detection, colony population counts;
  - `food` – choosing food cluster centres, respawn cells and food placement;
  - `overlay` – pheromone overlay texture layout and pixel encoding.
- `app/` is the Bevy program around it: rendering, input, the ECS systems,
  and everything that computes with floating point (noise interpolation,
  steering, pheromone intensities).

`tests/` exercises the library on concrete grids.
