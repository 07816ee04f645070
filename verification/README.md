# Othello full search

A library, verified with Verus, and a command-line program that expand the game tree of
8x8 Othello without pruning into a SQLite database. The tree is far too large to finish on
an ordinary machine; the point is that every committed step is correct and that a search
can be stopped and taken up again at any time.

## Layout

`src/` is the verified library.

- `squares`, `side`, `board`, `rules`: bit masks, players, positions, and the laws of the
  moves.
- `key`, `text`, `count`: position keys, numbers as text, unbounded counts.
- `tree`, `perft`: the game tree, the exact value of a position, leaf counts.
- `search`, `run`, `retrograde`: what one step, one run and one analysis do to the
  database, as lists of actions and decisions.
- `tables`, `sums`, `progress`, `results`: a model of the database, the invariant that
  every step keeps, and what follows from it. At any time no count is too large; with an
  empty frontier every count is the exact number of game paths; every stored value is the
  value under best play. The frontier holds exactly the positions with paths to hand on,
  and the order of the steps does not matter.
- `analysis`: retrograde analysis ends, and leaves no position without a value that can be
  given one.
- `cli`, `report`, `error`: the command line, the printed lines, the error messages.

`app/` is the program around it: SQLite, Ctrl+C, files and printing. `tests/` runs the
library on concrete positions.

## What is taken on trust

The arithmetic and text forms of `num_bigint::BigUint` and `String::push` are stated, not proved, next to
the functions in `src/count.rs` and `src/text.rs` that use them. That SQLite performs the
statements in `app/store.rs` as `tables::perform` describes the actions is not proved.
