//! Rule engine for the board game Go: stone placement, groups and liberties,
//! captures, the suicide rule and a simplified ko rule, plus a session layer
//! that sequences moves and passes and decides the winner.

pub mod ai;
pub mod board;
pub mod error;
pub mod game;
pub mod model;

pub use ai::{GoAI, RandomAI};
pub use board::{Board, Position, Stone};
pub use error::GoError;
pub use game::Game;

