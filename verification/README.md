# Steel Core

A factory tower-defence game (drills, conveyors, turrets, waves of enemies
marching on a core), split into a verified rules library and a Bevy front end.

- `src/` — the rules, verified with Verus:
  - `config.rs`: map size, building catalogue (sizes, prices, solidity, names),
    directions and their turning laws, wave counts.
  - `map.rs`: the tile grid (ore, occupancy, solidity), footprint checks,
    marking and clearing buildings, the player's stock.
  - `path.rs`: breadth-first path finding, proved to return a shortest walk to
    the nearest goal (of those, the one whose steps, ranked right, left, up,
    down, come first in lexicographic order), and to return none exactly when
    no goal is reachable.
  - `placement.rs`: the build bar, the build click (site, ore and price checks,
    conveyor dragging), demolition with half refund.
  - `combat.rs`: wave counter, victory and defeat, spawn points on the border,
    the core's footprint as march targets, blocking buildings, turret magazines,
    the loot of a kill.
  - `logistics.rs`: which neighbour takes an item from a drill, and the
    conveyor step: items handed on in order to the core, the next conveyor or a
    turret, proved to neither make nor lose any item.
- `app/` — the Bevy program: rendering, input, timers, movement and every other
  floating-point part of the game, calling the library for the rules.
- `tests/` — tests of the library.
