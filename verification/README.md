# tetris_tui

A terminal Tetris whose game logic is a library verified with Verus.

- `src/shape.rs` — the seven tetrominoes and their quarter-turn rotations.
- `src/board.rs` — the 10x20 playfield, the fit test, and the specification of full rows
  and of collapsing them.
- `src/game.rs` — the game state and its operations (spawn, shift, rotate with wall kicks,
  gravity, hard drop, lock, line clear, scoring and levels, hold, the 7-bag deal, timed
  effects), each with a contract, and the invariant they all keep.
- `src/input.rs` — the key map as one verified transition from key and state to state
  and outcome.
- `src/view.rs` — drawing logic without a terminal: palette, pixel canvas, quadrant tiles.
- `src/laws.rs` — properties that span operations.
- `src/ext.rs` — the trusted boundary: the clock, `rand`'s shuffle and number formatting.
- `app/` — the terminal program (ratatui): the main loop, colour blending and drawing.
