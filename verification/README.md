# redshift

The deterministic core of a lockstep real-time strategy engine, written in
Verus: every function in `src/` carries a contract, and the properties the
engine depends on are stated and proved as lemmas beside the code.

## Layout

- `src/` — the verified library.
  - `value`, `text` — fixed-point and percentage values; decimal text.
  - `traits`, `rules`, `armour`, `checks`, `sorting` — rules as data: loading
    definitions in a canonical order, the armour table, and validation that
    reports every problem.
  - `map`, `setup` — the map format, its validation, and the plan of who
    starts where with what.
  - `command`, `lockstep` — commands and the turn scheduler: when a tick may
    run, in what order its commands execute, hash comparison and desync.
  - `protocol`, `session` — packet framing, what goes into each turn packet
    and what an incoming packet does to the scheduler.
  - `lobby`, `discovery`, `joining` — the host's side of the join handshake,
    the LAN match list, and the client's side of joining.
  - `skill`, `commander`, `outlook` — computer opponents: their pacing, and
    the one decision each thought makes from what they can see of the match
    (defence first, else placing a finished building, else what to build
    next).
  - `interface`, `sidebar`, `minimap`, `ground`, `watch` — the interface's
    rules: selection, control groups, orders, the build panel, the minimap
    picture, the shape of the ground mesh, and noticing rules files change
    on disk.
- `tests/` — scenario tests, run against the compiled library.
- `app/` — the command-line front end: files, sockets, the clock, and the
  serialised forms of the library's types.
