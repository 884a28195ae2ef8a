# shenyu

The board logic of a UCI chess engine, with its behaviour stated in contracts and proved
with Verus.

- `src/board_state`, `src/move_generation`: a bitboard board with Zobrist hashing and an
  incrementally updated tapered evaluation, FEN reading, move making, attack and pin
  computation, move generation, magic-number search and text output. The generator is
  proved sound: each move follows its piece's way of moving, and in any position where each
  side has one king, the kings do not touch and no pawn stands on a back rank, it leaves
  the mover's king unattacked (`src/move_generation/legality.rs` holds the proof).
- `src/movegen`: a second board representation (per-square piece array, history records
  of the irreversible state) with its own FEN reader, repetition detection and attack sets.
- `src/search`: evaluation tables, static exchange evaluation, MVV/LVA, move ordering data,
  transposition tables, game history, time allotment and score reporting.
- `src/uci.rs`: reading the `go` and `position` commands.
- `src/testing`: perft counting and comparing perft counts with a reference engine.
- `app/main.rs`: the UCI loop and the perft tools (standard input, files, terminal colours).

The engine has no search: `go` answers `bestmove 0000`. The search it is laid out for
(iterative deepening, alpha-beta with principal variation search, transposition-table
cutoffs, null move pruning, late move reductions, futility and late move pruning,
quiescence with SEE pruning, staged move generation) needs pieces this code base does not
contain: a staged generator (`genmoves` with its generation types), make/unmake and null
moves on the `movegen` board (`make_move`, `unmake_move`, `make_nullmove`), the checks
`is_pseudolegal` and `in_check`, an `Action` type for that board, and an evaluation module.

Perft counts are proved against a recursive count (`perft_count` in
`src/testing/perft.rs`); the hashed perft is proved to give the same kind of count
(`tree_count`, which counts only the moves that fit) when its table holds right counts
and, within the tree counted, positions with one key have the same counts.
