# filler

A player for the Filler board game, written in Verus: the logic is proved
against its contracts, the I/O stays thin around it.

- `src/model.rs`: positions, boards, pieces, players and the library's errors.
- `src/placement.rs`: the placement rule and the enumeration of legal moves.
- `src/field.rs`: breadth-first distance fields over the board.
- `src/strategy.rs`: move scoring and selection.
- `src/parser.rs`, `src/text.rs`: the engine's line protocol, read from bytes.
- `src/output.rs`: the move line sent back to the engine.
- `src/visualizer.rs`: match requests and results, their validation and JSON
  framing, and the ordered lists of maps and opponents.
- `src/server.rs`: the visualizer server's command line, request lines and
  headers, routes, file names, events and engine runs.
- `app/`: the player loop over stdin and stdout, and the visualizer's sockets,
  threads, files and containers, which call into the library.
- `tests/`: scenario tests run against the compiled library.
