# chess_engine

A small chess program: move generation on 8x8 boards of piece codes, two
alpha-beta engines (one on plain boards, one on bitboards), random and human
players, and the game state that a front end drives.

The library under `src/` is written in Verus. Every function in it is verified
against its contract, except two small trusted wrappers around the `rand`
crate (`random_index` in `players::bit_bot`, which draws an index below a bound,
and `choose_move` in `players::random`, which picks an element of a slice); their
contracts state only what holds of every draw:

- `board`: the starting board and the position type.
- `legal_moves`: the moves of each kind of piece, without the moves that leave
  the king attacked; laws on the shape of the moves, where they land and the
  safety of the king.
- `players`: the player record, the dispatch by kind of player, and the players
  themselves (`human`, `random`, `bot`, `bit_bot`).
- `game`: the game state, the material count and the decisions of each turn.
- `ui`: the image file of each square and the square of each button.

`app/` holds the program: printing, the game thread and its waiting loop, and
the floating-point balance of power. `tests/` holds the tests.
