pub mod board;
pub mod game;
pub mod legal_moves;
pub mod players;
pub mod ui;
