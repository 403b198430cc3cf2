# advent_lib

Puzzle solutions and the building blocks they share, written in Verus:
every function in `src/` carries a contract that Verus proves.

- `src/` — the verified library: points, vectors and boxes; grids and their
  text form; directions; disjoint sets; compact keys; byte-level parsers;
  graph searches (A*, Dijkstra, depth- and breadth-first traversal); and the
  puzzle computations of the 2022 and 2025 calendars (`aoc2022`, `aoc2025`).
- `tests/` — tests on concrete inputs, including the puzzles' examples.
- `app/` — the command-line program: reads input files, runs the puzzles
  and prints their answers with timings; it also holds what works on
  floating-point numbers or threads, and image output.
