# minesweeper

A terminal Minesweeper whose game logic is a library verified with Verus.

- `src/grid.rs`: the field as a grid, the eight directions, `get_neighbours`.
- `src/cascade.rs`: uncovering a cell and the cascade over empty cells.
- `src/cells.rs`: the set of uncovered cells.
- `src/flags.rs`: counting flags.
- `src/game.rs`: the moves (`handle_user_guess`, `handle_place_flag`).
- `src/mines.rs`: laying mines and counting them in the cells around.
- `src/placement.rs`: choosing where the mines go (with `rand`).
- `src/input.rs`: reading numbers and moves typed by the player.
- `src/render.rs`: the board as text.
- `src/play.rs`: a game in progress and what it keeps.
- `app/main.rs`: the terminal program around the library.
