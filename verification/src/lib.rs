//! The rules of five small games: tic-tac-toe against a minimax
//! opponent, connect four, snake, minesweeper and wordle, with the typed
//! moves, scores, board updates and computer players of each.
pub mod input;
pub mod tic_tac_toe;
pub mod connect4;
mod random;
mod text;
pub mod snake;
pub mod minesweeper;
pub mod wordle;
