//! A Reversi (Othello) engine: bitboard primitives, a positional evaluator,
//! a NegaScout mid-game search, an exact end-game solver and an opening book.
pub mod bits;
pub mod board;
pub mod book;
pub mod clock;
pub mod color;
pub mod endgame;
pub mod engine;
pub mod message;
pub mod nega_scout;
pub mod opening;
pub mod ordering;
pub mod score;
pub mod session;
pub mod square;
pub mod strategy;

pub use board::Board;
pub use color::{Color, GameResult, Player};
pub use square::Square;
