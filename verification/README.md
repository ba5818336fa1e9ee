# stardew

The game-world logic of a small tile-based farming game, written in Verus
with its behaviour stated in `requires`/`ensures` contracts and proved.

Layout:

- `src/` — the verified library.
  - `grid.rs`: row-major `Grid<T>` and its two walks (every cell, occupied cells).
  - `position.rs`: world positions as `f32` bit patterns and IEEE-754 comparison on them.
  - `item.rs`, `tile_object.rs`: items, trees and stumps, what using and destroying them sets off.
  - `world.rs`: the world (tile objects, and items on the ground kept in height order).
  - `event.rs`: world events, their effect (`step`), and the queue that works them off (`run`);
    dropped items land at spots drawn from a source the caller passes in.
  - `player.rs`, `system.rs`: inventory, picking items up.
  - `map.rs`: building the tile grid and a forested world from a Tiled map description.
  - `game.rs`: the game state, the axe swing, event processing.
  - `render.rs`, `input.rs`: texture keys, back-to-front drawing order, zoom.
- `tests/` — tests of the library.
- `app/` — the macroquad program: window, input, drawing, loading Tiled
  maps and textures, the random landing spots of dropped items.
