# game_core

The core of a voxel sandbox: a grid world of tiles with layers of water mass,
sediment and soil moisture, and the passes that simulate water over it.

## Layout

- `src/` — the library, verified with Verus.
  - `tile.rs` — tiles, flow directions, the one-byte packing of a tile.
  - `world.rs`, `world/gravity.rs` — the world, its layers and pending deltas, and
    instant gravity for water tiles.
  - `water/` — the simulation passes: tile-based spread, erosion and sources;
    mass-based flow, erosion and deposition, evaporation, groundwater; weather
    (cloud formation and rain); the level-based cellular model; and the laws on
    what the passes conserve.
  - `terrain.rs` — builds terrain from a height map.
  - `render.rs` — ASCII views of a world.
  - `sweep.rs`, `text.rs` — the sweeps over cells that the passes are specified
    with, and text building.
- `app/` — WebAssembly bindings: the world held for the page, terrain heights from
  noise, clouds, and the tick counters that seed the passes.
- `tests/` — tests of the library.

## Conventions

The random rolls of a pass come from a hash of the cell and a seed; the library
takes the seed as an argument, and `app/` counts ticks to supply it. The flow pass
resets the outflow counters before it moves any water, so that the outflow erosion
reads afterwards is what left each cell during that one tick. The pending deltas and
the atmospheric moisture wrap around on overflow.
