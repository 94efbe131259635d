# selfplay

The logic of a chess engine that is trained from its own games, verified with Verus: tree
search over many games at once, the queues and batches through which positions reach the
network and answers come back, training rows and their byte formats, matches between
snapshots, ratings, and the choice of the model to serve.

- `src/` is the library.
  - Numbers: `ieee` (reals as bit patterns), `seeds`, `dice`.
  - Search: `tree`, `search`, `policy`, `batch`, `counting`; the traits for arithmetic, boards
    and the network are in `arith`.
  - Games: `game`, `engine` (many games in step), `inflight` (one game as a state machine),
    `cohort` and `choice` (play without search), `replay` and `totals` (games and whole runs go
    the same way again).
  - Plumbing: `queue`, `buckets`, `ring`, `shards`, `consumer`, `setup`, `frame`, `weights`, `cli`.
  - Evaluation: `match_play`, `elo`, `pool`, `evaluation`.
- `app/` holds what surrounds the library: the command line, files, threads, Python bindings,
  floating-point formulas, the network and the graphics card.
- `tests/` runs the library on concrete values.

The rules of chess and the interface to the graphics card are linked in from outside.
