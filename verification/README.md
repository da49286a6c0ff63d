# shogi

A shogi board library written in Verus: board states, legal move making and
unmaking, SFEN reading and writing, Zobrist hashing and a packed 256-bit encoding
of board states, each function with a contract proved by the verifier.

Layout of `src/`:

- `color`, `piece_type`, `piece`, `square`, `hand`, `moves`, `error`: the basic
  vocabulary, each type with a mathematical view.
- `bitboard`, `bits`: 81-square bitboards over two 64-bit words and the bit
  algebra (rank, select, deposit, extract) that the packed encoding relies on.
- `attack`: attack sets of every piece, stated over the board model.
- `rules`: the spec of a legal move (nifu, uchifuzume, leaving the king in
  check, forced promotion) and the laws relating legality to move making.
- `state_info`: a board state with its bitboards kept in step with the grid.
- `sfen`, `sfen_roundtrip`: reading and writing SFEN text, and the proof that
  reading what was written gives back the state.
- `zobrist`: hash keys drawn from a seeded ChaCha8 stream.
- `packed_state_info`, `packed_roundtrip`: the 256-bit encoding, and the proof
  that decoding an encoded state gives back the state.
- `position`: a game position with its history, repetition and perpetual check
  rules, and the laws that unmaking undoes making and that the incremental hash
  equals the hash of the state.
- `display`: a text rendering of a position.

The tests under `tests/` run the library on concrete positions.
