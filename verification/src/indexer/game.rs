//! Games as the server streams them, in plain values.

use crate::model::color::{ByColor, Color};
use crate::model::game_id::GameId;
use crate::model::speed::Speed;
use crate::model::user::UserId;
use vstd::prelude::*;

verus! {

/// The rules of a game, as the server names them.
#[derive(Debug, Copy, Clone, PartialEq, Eq, Structural, Hash)]
pub enum LilaVariant {
    Standard,
    Chess960,
    FromPosition,
    Antichess,
    Atomic,
    Crazyhouse,
    Horde,
    KingOfTheHill,
    RacingKings,
    ThreeCheck,
}

/// How far a game has come.
#[derive(Debug, Copy, Clone, PartialEq, Eq, Structural, Hash)]
pub enum GameStatus {
    /// Not over yet.
    Ongoing,
    /// Over, but in a way that keeps the game out of the index: aborted,
    /// not started, ended for a reason that is not known, or ended because
    /// a player was found to cheat.
    Unindexable,
    /// Over.
    Terminated,
}

/// Whether `a` and `b` are the same characters.
fn same_chars(a: &str, b: &str) -> (same: bool)
    ensures
        same == (a@ == b@),
{
    let len: usize = a.unicode_len();
    if len != b.unicode_len() {
        return false;
    }
    let mut i: usize = 0;
    while i < len
        invariant
            i <= len == a@.len(),
            a@.len() == b@.len(),
            forall|k: int| 0 <= k < i ==> a@[k] == b@[k],
        decreases len - i,
    {
        if a.get_char(i) != b.get_char(i) {
            return false;
        }
        i = i + 1;
    }
    assert(a@ =~= b@);
    true
}

/// How far a game has come, by the name that the server gives its status:
/// `created` and `started` are ongoing; `aborted`, `noStart`,
/// `unknownFinish` and `cheat` keep a game out of the index; under every
/// other name the game is over.
pub open spec fn spec_status_of(name: Seq<char>) -> GameStatus {
    if name == "created"@ || name == "started"@ {
        GameStatus::Ongoing
    } else if name == "aborted"@ || name == "noStart"@ || name == "unknownFinish"@ || name
        == "cheat"@ {
        GameStatus::Unindexable
    } else {
        GameStatus::Terminated
    }
}

impl GameStatus {
    /// How far a game has come, by the name of its status, see
    /// [`spec_status_of`].
    pub fn from_name(name: &str) -> (status: GameStatus)
        ensures
            status == spec_status_of(name@),
    {
        if same_chars(name, "created") || same_chars(name, "started") {
            GameStatus::Ongoing
        } else if same_chars(name, "aborted") || same_chars(name, "noStart") || same_chars(
            name,
            "unknownFinish",
        ) || same_chars(name, "cheat") {
            GameStatus::Unindexable
        } else {
            GameStatus::Terminated
        }
    }

    /// Whether the game is not over yet.
    pub fn is_ongoing(self) -> (ongoing: bool)
        ensures
            ongoing == (self == GameStatus::Ongoing),
    {
        match self {
            GameStatus::Ongoing => true,
            _ => false,
        }
    }

    /// Whether the game ended in a way that keeps it out of the index.
    pub fn is_unindexable(self) -> (unindexable: bool)
        ensures
            unindexable == (self == GameStatus::Unindexable),
    {
        match self {
            GameStatus::Unindexable => true,
            _ => false,
        }
    }
}

/// One side of a game: nobody known for an anonymous player or an engine.
#[derive(Debug, Clone)]
pub struct Player {
    pub user: Option<UserId>,
    pub rating: Option<u16>,
}

/// A game of the stream.
#[derive(Debug, Clone)]
pub struct Game {
    pub id: GameId,
    pub rated: bool,
    /// Milliseconds since the Unix epoch.
    pub created_at: u64,
    /// Milliseconds since the Unix epoch.
    pub last_move_at: i64,
    pub status: GameStatus,
    pub variant: LilaVariant,
    pub players: ByColor<Player>,
    pub speed: Speed,
    /// The moves in standard algebraic notation.
    pub moves: Vec<String>,
    pub winner: Option<Color>,
    /// The position from which the game started, where it is not the usual
    /// one of the variant.
    pub initial_fen: Option<String>,
}

/// Whether `player` sits on `color` in a game with `players`.
pub open spec fn spec_plays(players: ByColor<Player>, color: Color, player: UserId) -> bool {
    players.spec_by_color(color).user matches Some(user) && user@ == player@
}

/// The side of `player` in a game with `players`: white where they play
/// both.
pub open spec fn spec_color_of(players: ByColor<Player>, player: UserId) -> Option<Color> {
    if spec_plays(players, Color::White, player) {
        Some(Color::White)
    } else if spec_plays(players, Color::Black, player) {
        Some(Color::Black)
    } else {
        None
    }
}

/// The side of `player` in a game with `players`.
pub fn color_of(players: &ByColor<Player>, player: &UserId) -> (color: Option<Color>)
    ensures
        color == spec_color_of(*players, *player),
{
    let white = match &players.white.user {
        Some(user) => user.same(player),
        None => false,
    };
    if white {
        return Some(Color::White);
    }
    let black = match &players.black.user {
        Some(user) => user.same(player),
        None => false,
    };
    if black {
        Some(Color::Black)
    } else {
        None
    }
}

} // verus!
