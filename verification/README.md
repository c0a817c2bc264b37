# rust_2048_solver

A 2048 engine and search bot whose game logic is verified with Verus.

- `src/` — the verified library: the board and its swipes (including the
  packed four-cell fast path), spawning tiles, the `u128` encoding of a
  board, boards up to symmetry, the priority cache, depth limits and the
  schedule that hands deeper searches to searcher threads.
- `tests/` — tests of the library on concrete boards.
- `app/` — the terminal program: the floating-point heuristic and mean-max
  search, the searcher threads, logging and screen handling.
