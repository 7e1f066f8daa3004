# minigames

The rules of five small games, with proofs of what each function does:

- `src/input.rs`: reading a typed move (a decimal `u8` below a bound).
- `src/tic_tac_toe.rs`: the board, its scoring and a minimax opponent.
- `src/connect4.rs`: columns, drops, scoring and two computer players.
- `src/snake.rs`: points, the snake, food and one tick of the game.
- `src/minesweeper.rs`: the grid, neighbours and bomb placement.
- `src/wordle.rs`: a game of wordle and the effect of a guess.
- `src/random.rs`: the calls into `rand`.
- `src/text.rs`: appending to a string.

`app/` holds the console and window front ends (terminal input, file
reading, SDL2 drawing and event handling). Run it with the game's name as
the first argument: `tic_tac_toe` (the default), `connect4`, `snake`,
`minesweeper` or `wordle`.
