# ogc2026

A scheduler for a block yard: blocks of polygonal shape enter bays by
crane, stay for their processing time and leave, without any crane path
crossing a block that stands in the way. The objective weighs tardiness,
the balance of bay loads and the blocks' bay preferences.

`src/` is the library, verified with Verus:

- `window`, `forbidden`, `slots`, `slot_table`: entry-time windows as sorted
  interval sets, and the first entry time that no forbidden interval covers.
- `grid`, `collision`, `sweep`, `events`, `scanner`: collision grids of
  crane paths, and the sweep over x positions that finds, per row, every
  collision-free placement with its earliest entry time; `feasibility`
  checks a placement against a schedule directly, and the scanner is
  proved to offer only placements that pass that check.
- `solution`, `load`: writing a schedule as timed operations and reading
  it back, with the law that reading undoes writing.
- `precompute`, `admission`, `horizons`, `precedence`, `beam`: per-block tables,
  orders and horizons of the optimizer, entry-time windows under
  precedence constraints, hashes of beam candidates.
- `random`, `tabu`, `profile`, `insert_profile`, `cases`, `pairs`, `presolve`,
  `solver_util`, `trace`, `time`: random sources, tabu lists, statistics
  and smaller helpers.

`app/` is the command-line program: it reads the problem and parameters,
turns shapes into collision grids (floating-point geometry), builds a
schedule greedily with the library's scanner, improves it by simulated
annealing when the parameters ask for it, and prints the solution as JSON.

`tests/` exercises the library on concrete values.
