# rust_simulation

A grid-world simulation library. Agents gather resources, craft items from
recipes, build structures and store goods; pigs wander and flee, wolves hunt
and form packs. Every rule lives in `src/` with a contract checked by Verus.

- `src/` — the library: components and inventories (`components`, `counts`),
  the entity world (`ecs`), the map and its chunks (`map`, `map_generator`,
  `roads`), sight (`fov`) and path finding (`pathfinding`), recipes
  (`recipes`), the agents' minds (`brain`, `player`), the systems that carry
  out intents each tick (`systems`, `events`), animals (`animals`) and the
  day and night cycle (`config`).
- `tests/` — tests of the library on concrete worlds.
- `app/` — the console program: configuration and data files, noise-based
  terrain heights and road curves, learned goal preferences, and the tick loop.
