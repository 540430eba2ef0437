# goncharov

A terminal text editor whose core is a verified library.

- `src/piece_table.rs` — the piece table: the document is a sequence of
  byte ranges of a read-only original buffer and an append-only add buffer.
  Inserting text appends it to the add buffer and places one new piece,
  splitting a piece when the insertion point falls inside it.
- `src/text.rs` — layout of UTF-8 text in bytes: lines, soft wrapping,
  cursor positions and offsets, and the rows that fit on the screen.
- `src/editor.rs` — the editor state and its reactions to key presses
  (cursor movement, typing, committing typed text), each specified by a
  function on a mathematical view of the state.
- `src/guards.rs` — run-time tests of the conditions those operations need.
- `src/format.rs` — display strings and terminal colours.
- `src/utf8_facts.rs` — facts about UTF-8 that the proofs use.
- `app/main.rs` — the terminal front end (raw mode, key events, drawing).

The library is proved with Verus; the tests under `tests/` exercise it.
