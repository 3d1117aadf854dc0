# ayz

A small roguelike in the style of the "mystery dungeon" games: a generated floor of rooms
and corridors, monsters that chase, attack or wander, items to pick up, use, wield or
throw, hunger, levels, and ten floors to descend. The game logic is a Verus library whose
functions carry contracts that Verus proves; a thin terminal program drives it.

## Layout

- `src/game/` — the rules.
  - `types.rs`, `entity.rs`, `master_data.rs`, `turn.rs`: positions and directions, the
    player, monsters, items and equipment, the master data tables, commands and events.
  - `visibility.rs`: what the player sees (the whole room, or the eight cells around a
    corridor cell) and remembers.
  - `dungeon.rs`: the game state and the steps of a turn (attacks, pickups, items, staffs,
    throwing, hunger, the monsters' phase), each with an exact relational contract.
  - `spawning.rs`: populating a floor and starting a game; every entity stands on its own
    room cell, off the exit, while free room cells remain.
  - `play.rs`: `GameState::process_turn`, composed from the steps above.
  - `laws.rs`: properties that span several operations, stated and proved.
  - `checks.rs`: executable tests of the bounds that the contracts assume.
  - `data_loader.rs`: the consistency check of the master data.
- `src/map/` — the map grid, the BSP floor generator and spawn cells.
  - `generator.rs`: the partition into areas (nine halving cuts, so ten areas, proved to
    tile the map), a room in each, the corridors (proved to join every area to area 0)
    and the drawing of the floor.
  - `links.rs`: the neighbour lists of the partition, which every cut keeps mutual,
    touching and connected.
  - `reach.rs`: walking over open cells; every open cell of a generated floor can be
    reached from the exit.
- `src/ui/`, `src/session.rs` — key mapping, inventory choices, messages, the character
  each map cell shows on screen, and the decisions of the game loop.
- `src/rng.rs` — the two calls into `rand` that everything random goes through.
- `app/` — the terminal program: reading the RON data files, crossterm input and drawing,
  and the loop that feeds commands to the library and writes the screen it is given.
- `tests/` — unit and scenario tests.
