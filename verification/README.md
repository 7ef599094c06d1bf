# planet_pixel

A falling-sand world: pixels of sand, rock, water and plants live in cells of
128 by 128 pixels, cells in regions of 10 by 10 cells, and a window of cells
follows the player across the loaded regions.

- `src/` is the library, verified with Verus: the pixel rules (`pixels`), a
  cell's simulation pass (`cell_update`), terrain generation and the data types
  (`structs`), the window and region bookkeeping when the view scrolls (`shift`),
  painting and the map and screenshot textures (`drawing`), collision lookups
  (`entity`), and the thin trusted edges to `rand` and to `Arc`/`Mutex`
  (`random`, `shared`). A frame's pass over the window of cells is
  `cell_update::simulate_window`.
- `app/` is the game around it: the SDL window and input, the noise that shapes
  terrain and biomes, the player's floating-point physics, reading and writing
  the cells' locks, and the frame loop.
- `tests/` runs the library on concrete worlds.
