# chessbot5

A chess engine for the terminal, with its rules and its search bots verified with Verus.

- `src/backend/` is the engine: the board with move generation, making and taking back
  moves, evaluation and Zobrist hashing (`board.rs`, `rules.rs`, `zobrist.rs`), the
  mathematical model the contracts speak of (`search.rs`, `positions.rs`, `hashing.rs`,
  `pruning.rs`, `move_values.rs`), the bots (`ai/`) and the game a player plays (`gameboard.rs`).
  The bots are minimax and negamax, each also with a memo of searched positions,
  alpha-beta in negamax form, alpha-beta in negamax form with a memo and killer moves, the
  same with a quiescence estimate at the last move, principal variation search, and
  Omikron, the bot the game plays: it answers from the opening book where it can, and
  otherwise runs searches of growing depth, one after the other in one thread, until its
  time is up. The opening book (`ai/structures/`) is read and built here too.
- `src/piece.rs`, `src/movement.rs`, `src/board.rs` and `src/ai/` are the first version of the
  board and of its bots (minimax, alpha-beta and minimax with a memo), kept alongside.
- `src/text.rs` holds the few calls into the standard library that carry a stated contract.
- `tests/` runs the library on concrete games and positions.
- `app/` is the program around the library: the game in the terminal, network play, the
  opening book on disk and matches between bots.

Moves are written in coordinate notation: the square a piece leaves and the square it
reaches, such as `e2e4` or `g1f3`; a promotion adds the letter of the new piece, as in `f7g8Q`.
