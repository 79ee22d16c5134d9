//! The two sides of a game, and how a game ended.

use vstd::prelude::*;

verus! {

/// A side of the board.
#[derive(Debug, Copy, Clone, PartialEq, Eq, Structural, Hash)]
pub enum Color {
    White,
    Black,
}

impl Color {
    /// The other side.
    pub fn other(self) -> (c: Color)
        ensures
            c != self,
    {
        match self {
            Color::White => Color::Black,
            Color::Black => Color::White,
        }
    }
}

/// One value for each side.
#[derive(Debug, Copy, Clone, PartialEq, Eq, Structural)]
pub struct ByColor<T> {
    pub white: T,
    pub black: T,
}

impl<T> ByColor<T> {
    /// The value for `color`.
    pub open spec fn spec_by_color(self, color: Color) -> T {
        match color {
            Color::White => self.white,
            Color::Black => self.black,
        }
    }

    /// The value for `color`.
    pub fn by_color(&self, color: Color) -> (value: &T)
        ensures
            *value == self.spec_by_color(color),
    {
        match color {
            Color::White => &self.white,
            Color::Black => &self.black,
        }
    }

    /// The value for `color`, given up by `self`.
    pub fn into_color(self, color: Color) -> (value: T)
        ensures
            value == self.spec_by_color(color),
    {
        match color {
            Color::White => self.white,
            Color::Black => self.black,
        }
    }
}

/// How a game ended.
#[derive(Debug, Copy, Clone, PartialEq, Eq, Structural, Hash)]
pub enum Outcome {
    Decisive { winner: Color },
    Draw,
}

impl Outcome {
    /// The outcome of a game that `winner` won, or nobody.
    pub fn from_winner(winner: Option<Color>) -> (outcome: Outcome)
        ensures
            outcome == match winner {
                Some(winner) => Outcome::Decisive { winner },
                None => Outcome::Draw,
            },
    {
        match winner {
            Some(winner) => Outcome::Decisive { winner },
            None => Outcome::Draw,
        }
    }

    /// The side that won, if one did.
    pub fn winner(self) -> (winner: Option<Color>)
        ensures
            winner == match self {
                Outcome::Decisive { winner } => Some(winner),
                Outcome::Draw => None,
            },
    {
        match self {
            Outcome::Decisive { winner } => Some(winner),
            Outcome::Draw => None,
        }
    }
}

} // verus!
