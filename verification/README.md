# noita_demo

A falling-sand game: a grid of typed atoms (sand, water, acid, fire, smoke,
steam, poison, stone) moved by cellular rules, reacting with their
neighbours, painted and edited by the player, and shaped into levels.

## Layout

- `src/` is the verified library (Verus). Every function there carries a
  contract proved by Verus.
  - `atoms` — the grid (`AtomWorld`, viewed as `Grid`), atom types, and the
    `Kinetics` trait through which the game supplies each atom's
    floating-point state.
  - `rules` — how each atom type moves, the bottom-up sweep over the world,
    planned moves, and the neighbour pairs that push each other.
  - `reactions` — fire, water, acid and sand reactions: every reacting pair
    is found on the world as it was, then each places its products in the
    columns around its first atom and empties both of its cells.
  - `paths` — walks through touching cells, and connectivity.
  - `regions` — the solid regions (stone and sand) that become colliders.
  - `editor` — flood fill, painting, edits recorded for undo and redo, the
    level editor state and its keys and mouse wheel.
  - `level` — the laboratory level, experiments, water, the level cycle.
  - `game` — the brush, the demo terrain and the demo atoms.
  - `magic` — spell perks, costs, spells and casting.
  - `network` — rollback bookkeeping, input buffers, network events.
  - `sound` — counting and sampling cells for reaction and ambient sounds.
  - `touch` — which touches own which on-screen controls (the joystick, the
    buttons, the painting area), and the keys and mouse buttons they stand
    for.
  - `random` — the random draws the rules make.
- `app/` is the game around the library: the Bevy systems, rendering, the
  Rapier physics bridge, and everything computed in floating point.
- `tests/` runs the library on concrete worlds.
