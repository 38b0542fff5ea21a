# sim

The core of a real-time strategy game, verified with Verus: fixed-point
maths, a seeded generator, canonical state hashing, the entity store, the
command queue, map generation, passability and path search, and the
checks and queries of a match.

- `src/` — the library, every function with its contract:
  - `fx`, `fx_order`, `angle`, `vec2` — Q16.16 fixed point, binary angles
    with a sine table, vectors;
  - `rng`, `noise` — `xoshiro256**` seeded through `splitmix64`, and value
    noise drawn from it;
  - `hash` — FNV-1a over each type's canonical bytes;
  - `entity` — the generational entity store;
  - `command` — commands, their validation, and the queue that keeps each
    tick's batch in canonical order whatever order commands arrive in;
  - `kinds`, `tech`, `orders` — the kind and technology tables, unit jobs,
    production queues and player economies;
  - `map`, `mapgen` — terrain and elevation, and seeded map generation;
  - `nav` — passability, components, line of sight, A\*, spreading units
    over tiles;
  - `flow` — the sector grid, the bucketed cost queue and the seed
    tiles that flow fields are built from;
  - `fog`, `formation` — one player's knowledge of the map, and group
    layouts;
  - `simulation`, `replay` — match parameters, setting up a match (map,
    players, starting entities, population), issuing commands, the
    placement and research checks, the invariant check, the state hash,
    the replay record, and replay validation; and, of a tick, the systems
    that run each command as it falls due, reseed farms, send animals
    wandering, keep units off blocked tiles and advance construction. The
    rest of a tick (unit jobs, path planning, movement, separation,
    production) is not part of this crate, and so neither is `step`.
- `tests/` — behaviour on concrete values.
- `app/` — serialisable copies of the saved and replayed types, with
  conversions both ways. The messages a player sees for each refusal are
  the `to_string` methods in `src/`.
