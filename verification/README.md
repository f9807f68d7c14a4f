# resource_collection_simulation

A grid world in which scouts wander and report deposits and obstacles,
collectors fetch one unit at a time from known deposits along shortest
paths, and a base keeps the totals. The logic is written in Verus and
verified; the terminal program around it is ordinary Rust.

- `src/` — the verified library:
  - `types.rs`: positions, tiles, deposits, messages and the map;
  - `collections.rs`: the position-keyed map and set the other modules use;
  - `pathfinding.rs`: neighbours and breadth-first search, proved to return
    the first shortest walk in the order left, right, up, down, or nothing
    exactly when none exists;
  - `collector.rs`: the collector's state machine (a collector waits rather
    than step onto another collector outside the base), with laws over any
    number of steps: no two collectors hold one deposit, and a collector
    carries one unit at a time;
  - `scout.rs`: what a scout reports and where it may move, with a law over
    any number of turns: nothing is reported twice;
  - `base_state.rs`, `communication.rs`: what the base and the display do
    with each message;
  - `map.rs`: map building from an obstacle mask, and its text form;
  - `ui.rs`: what the display draws on each cell;
  - `rng.rs`: the calls into `rand`, with the contracts they are trusted for.
- `app/` — the program: Perlin noise for the obstacles, threads and channels,
  and the terminal display.
- `tests/` — tests of the library.
