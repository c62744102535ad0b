//! A Minesweeper rules engine: a fixed 10 x 10 grid of cells with random
//! mine placement, adjacency-count computation, cascading reveal of
//! zero-count regions, seal toggling, and win/loss evaluation. A rendering
//! or input front end is expected to sit on top of it and call in through
//! `Grid::expose_cell`, `Grid::toggle_seal` and `Game::update_game_state`.

pub mod board;
pub mod cell;
pub mod game;
pub mod grid;
mod rng;

pub use board::BOMB_COUNT;
pub use board::GRID_SIZE;
pub use cell::Cell;
pub use cell::CellState;
pub use game::Game;
pub use game::GameState;
pub use grid::Grid;
