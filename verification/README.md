# sandbox

A falling-sand game: a 480 x 270 grid of particles (sand, water, acid, fire,
life, ...) that move, exchange heat and react with each other sixty times a
second, drawn into a window where the player paints with a brush.

- `src/` is the verified library (Verus): the particle kinds and their
  properties, the movement and interaction rules, the temperature exchange,
  the simulation step, the rendering of the grid into an RGBA frame, brush
  placement along Bresenham lines, key handling, the interface colour tables
  and the chunked grid. Random draws go through a few trusted wrappers around
  `rand`/`rand_pcg` in `src/rng.rs`; everything else is proved.
- `tests/` exercises the library on concrete scenes.
- `app/` is the program around it: the window and event loop (`winit`), the
  GPU upload (`pixels`), the Dear ImGui interface, the shimmer noise thread
  (`simdnoise`, `flume`) and the cursor handling, which works on floating
  point window positions.
