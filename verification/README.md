# lib — a verified chess engine core

A UCI chess engine whose rules, move generation, search and protocol
handling are written in Verus and proved against their contracts.

Layout:

- `src/types.rs` — colors, pieces, squares and the 16-bit move encoding.
- `src/bitboard.rs`, `src/tables.rs` — square sets and the attack sets of
  every piece, proved equal to their geometric definitions.
- `src/zobrist.rs` — the SplitMix64 hashing keys.
- `src/position.rs` — the board, `make_move` / `unmake_move` with an
  incrementally kept hash; taking a move back restores the position.
- `src/fen.rs` — reading and writing FEN; writing then reading gives the
  position back.
- `src/movegen.rs` — pseudo-legal and legal move generation; the legal list
  holds exactly the legal moves, once each, grouped by the kind of the
  moving piece (pawns first, castling last).
- `src/perft.rs` — leaf counts of the move tree, the per-move breakdown and
  the hash self-check.
- `src/eval.rs`, `src/search.rs` — material evaluation and an
  iterative-deepening alpha-beta search with a transposition table; the
  score of every node is tied to the scores of the replies searched below it
  (`node_value`), and the principal variation it reports is a line of legal
  moves.
- `src/uci.rs` — the `position`, `go` and `setoption` commands.
- `src/text.rs` — character helpers: whitespace splitting, decimal numbers.
- `app/main.rs` — the command line: the UCI loop over standard input, the
  perft harness and the hash check.
- `tests/engine.rs` — perft counts, FEN round trips, search and protocol cases.
