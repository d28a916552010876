# nonet

A Sudoku solver and generator whose logic is verified with Verus.

- `src/model.rs`: the mathematical model — units (rows, columns, boxes), candidates,
  validity, the set of solutions of a board, and the lemmas about them.
- `src/board.rs`: the board type, parsing and printing, used-value masks, validity check.
- `src/solver.rs`: the backtracking search (most-constrained cell first): `solve`,
  `solve_random`, `count_solutions`, `solve_trace`.
- `src/rng.rs`: a xorshift64 generator and Fisher-Yates shuffle.
- `src/generator.rs`: puzzles with a unique solution.
- `src/render.rs`: the plain-text grid.
- `src/web.rs`: the string-in, string-out entry points used by the browser page.
- `src/play.rs`: the state of the animated replay (steps, speed, keys).
- `app/`: the command line and the terminal UI.
