# Gomoku engine, verified

A Gomoku engine with pair captures (19x19 board, five in a row or ten
captured stones wins, the double-three rule, breakable fives) and an
alpha-beta search, written in Verus: every function carries a contract that
Verus proves.

Layout of `src/`:

- `patterns.rs`: the 3^9-entry table that classifies a nine-cell window
  (fives, fours, open fours, threes, free threes) and scores it; each entry
  is proved equal to its classification.
- `board.rs`: the padded board, captures, Zobrist key, neighbor grid and
  the incremental heuristic accumulator. `play` is specified as a function
  of the board (`play_view`), `undo` likewise; proved laws: undoing a move
  restores the board exactly, and the accumulator always equals a full
  recomputation (modulo 2^32).
- `sums.rs`: finite sums used by the accumulator proofs.
- `zobrist.rs`: the Zobrist key as a hash of the position (stones, capture
  counts, side to move); proved to hold on a new board and after every
  move.
- `rules.rs`: legality (captures, double-three), candidate moves, and the
  end of the game (capture wins, unbreakable fives, draws), each against a
  specification over the cells.
- `eval.rs`: static evaluation from the side to move.
- `search.rs`: transposition table, move ordering, negamax with alpha-beta,
  iterative deepening under a time budget. Each search function is proved
  equal to a specification of the search (`nm`, `root_result`, `id_run`)
  whenever the clock does not cut it short (the budget is compared in
  milliseconds in verified code, and the reading that stopped a search is
  reported); whatever the clock does, the
  board is left as it was and the move returned is a candidate. A move that
  wins at once is returned without searching.

The tests under `tests/` exercise the library on concrete positions.
