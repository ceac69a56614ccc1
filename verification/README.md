# minesweeper

The rules of a 20x20 minesweeper board with 60 mines, verified with Verus.

- `src/model.rs` — the mathematical model: a board is a row-major sequence of
  tiles; spec functions say what a flood opening, a middle click, a flag toggle,
  mine laying and numbering make of a board.
- `src/board.rs` — the board and its operations, each proved against the model.
- `src/game.rs` — what a click does (mine placement on the first left click,
  opening, flags, middle click) and the game clock flag.
- `src/input.rs`, `src/visual.rs` — click events, and what a tile shows.
- `src/random.rs` — the calls into `rand` (thread generator, shuffle).
- `src/laws.rs` — properties across operations: the first click is safe and
  opens its 3x3 square, exactly 60 mines are laid, numbers agree with mines,
  clicks never uncover a mine, flag toggling is an involution, flood opening
  is idempotent, and opening several tiles (a middle click among them) is one
  flood from all of them, in any order.
- `app/` — the bevy program around the library: window, sprites, text, mouse
  and the elapsed-time clock.
