//! What is kept of each game, and for which of its two players it was
//! indexed.

use crate::model::color::{ByColor, Color};
use crate::model::month::Month;
use crate::model::speed::Speed;
use vstd::prelude::*;

verus! {

/// A player of a game, as kept with the game.
#[derive(Debug, Clone)]
pub struct GameInfoPlayer {
    pub name: Option<String>,
    pub rating: Option<u16>,
}

/// The summary of a game.
#[derive(Debug, Clone)]
pub struct GameInfo {
    pub winner: Option<Color>,
    pub speed: Speed,
    pub rated: bool,
    pub month: Month,
    pub players: ByColor<GameInfoPlayer>,
    /// For which side the game went into the index of that player.
    pub indexed: ByColor<bool>,
}

impl GameInfo {
    /// Whether the game went into the index of the player of `color`.
    pub fn is_indexed(&self, color: Color) -> (indexed: bool)
        ensures
            indexed == self.indexed.spec_by_color(color),
    {
        *self.indexed.by_color(color)
    }

    /// Merges what `other` says of the same game into `self`: a side is
    /// indexed where either says so; all else stays as `self` has it.
    pub fn merge(&mut self, other: &GameInfo)
        ensures
            final(self).indexed.white == (old(self).indexed.white || other.indexed.white),
            final(self).indexed.black == (old(self).indexed.black || other.indexed.black),
            final(self).winner == old(self).winner,
            final(self).speed == old(self).speed,
            final(self).rated == old(self).rated,
            final(self).month == old(self).month,
            final(self).players == old(self).players,
    {
        self.indexed.white = self.indexed.white || other.indexed.white;
        self.indexed.black = self.indexed.black || other.indexed.black;
    }
}

/// Whether a game of which `info` is kept, if anything, went into the index
/// of the player of `color`.
pub fn already_indexed(info: &Option<GameInfo>, color: Color) -> (indexed: bool)
    ensures
        indexed == match *info {
            Some(info) => info.indexed.spec_by_color(color),
            None => false,
        },
{
    match info {
        Some(info) => info.is_indexed(color),
        None => false,
    }
}

} // verus!
