# rfish_engine

A chess engine library with its behaviour stated in contracts and proved by Verus.

- `src/board`: squares, pieces and moves, bitboards and attacks, hash keys, positions, making and
  undoing moves, move generation, static exchange, records of positions, and the threats that a
  move changes.
- `src/eval`: the classical evaluation, and under `nnue` the network evaluation: file formats,
  features, accumulators and layers.
- `src/platform`: the vote of several searches, the partition of a machine's processors, and the
  endgame tablebases under `syzygy`.
- `app`: reading and writing files, the machine's own description, and threads.

Public proof functions whose names begin with `law_` state what holds of several functions
together: that an undone move restores the position, that a written network or record reads back,
that what a move records is the difference it makes.
