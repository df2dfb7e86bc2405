# disc_golf_man

A maze game in the style of Pac-Man, built on [bevy](https://bevyengine.org/),
whose rules are a library verified with Verus.

- `src/` — the verified library:
  - `board` — the maze: a rectangle of tiles, built from rows or from a text layout.
  - `path` — the grid graph of the maze (rows stop at the edges, columns wrap
    through the tunnel), breadth-first search for the shortest ghost walk and
    for the nearest walkable cell (among equally short walks, the one that tries
    up, down, left, right first), and route planning with tunnel jumps marked.
  - `ghost` — attack and release states, power-up scares, the collision step
    with the ghost chain scoring, and the order in which ghosts leave the cage.
  - `score` — the score, point values and the score's text.
  - `game`, `enums`, `tj`, `ben`, `misc` — the phases of a game, the player's
    controls and movement decision, defaults and end messages.
- `app/` — the bevy program: input, time, floating-point positions, sprites and
  the window, calling the library for every decision.
- `tests/` — tests of the library.
