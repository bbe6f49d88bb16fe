//! The two sides of the game, and what a finished game reports.
use vstd::prelude::*;

verus! {

/// A side: `Dark` moves first.
#[derive(Clone, Copy, Debug, PartialEq, Eq, Hash, Structural)]
pub enum Color {
    Dark,
    Light,
}

impl Color {
    /// The other side.
    pub open spec fn opp(self) -> Color {
        match self {
            Color::Dark => Color::Light,
            Color::Light => Color::Dark,
        }
    }

    pub fn opposite(&self) -> (r: Color)
        ensures
            r == self.opp(),
            r != *self,
    {
        match self {
            Color::Dark => Color::Light,
            Color::Light => Color::Dark,
        }
    }
}

/// The result of a game, as the server announces it.
#[derive(Clone, Copy, Debug, PartialEq, Eq, Structural)]
pub enum GameResult {
    Win,
    Lose,
    Tie,
}

/// A participant of a match: a name and the side it plays.
pub struct Player {
    pub name: String,
    pub color: Color,
}

} // verus!
