//! What indexing one game for one player comes to: whether the game goes
//! into the index at all, and what is then written.

use crate::indexer::game::{color_of, spec_color_of, Game, GameStatus, Player};
use crate::indexer::replay::{
    collapse_repetitions, lists_table, replay, rules_of, spec_replay, spec_table, Ply,
};
use crate::model::color::{ByColor, Color, Outcome};
use crate::model::game_id::GameId;
use crate::model::game_info::{already_indexed, GameInfo, GameInfoPlayer};
use crate::model::month::{spec_month_at, Month};
use crate::model::personal::{spec_new_single, spec_write_entry, PersonalEntry};
use crate::model::speed::{Mode, Speed};
use crate::model::status::PersonalStatus;
use crate::model::uci::UciMove;
use crate::model::user::UserId;
use shakmaty::variant::Variant;
use vstd::prelude::*;

verus! {

/// Why a game stays out of the index of a player.
#[derive(Debug, Copy, Clone, PartialEq, Eq, Structural)]
pub enum SkipReason {
    /// The game is not over.
    Ongoing,
    /// The game ended without a result that counts.
    Unindexable,
    /// One side is anonymous or an engine.
    AnonymousPlayer,
    /// The player is on neither side.
    NotAPlayer,
    /// The time of the last move is no date that chrono knows.
    UnknownTime,
}

/// What is to be done with a game.
#[derive(Debug, Copy, Clone, PartialEq, Eq, Structural)]
pub enum Classified {
    Skip(SkipReason),
    /// The game goes into the index of the player, who had `color`, unless
    /// it is there already.
    Index { color: Color, month: Month, outcome: Outcome },
}

/// One observation to merge into the index of a player: in the position
/// with the hash `zobrist` the player, who had `color`, played `uci`.
#[derive(Debug, Copy, Clone)]
pub struct PersonalMerge {
    pub color: Color,
    pub rules: Variant,
    pub zobrist: u128,
    pub month: Month,
    pub uci: UciMove,
    pub speed: Speed,
    pub mode: Mode,
    pub game_id: GameId,
    pub outcome: Outcome,
}

impl PersonalMerge {
    /// The entry of this one observation.
    pub fn entry(&self) -> (entry: PersonalEntry)
        requires
            self.uci.wf(),
            self.game_id.wf(),
        ensures
            entry.wf(),
            entry@ == spec_new_single(self.uci, self.speed, self.mode, self.game_id, self.outcome),
    {
        PersonalEntry::new_single(self.uci, self.speed, self.mode, self.game_id, self.outcome)
    }

    /// The bytes to merge into the store for this observation: those of
    /// its entry.
    pub fn operand(&self) -> (bytes: Vec<u8>)
        requires
            self.uci.wf(),
            self.game_id.wf(),
        ensures
            bytes@ == spec_write_entry(
                spec_new_single(self.uci, self.speed, self.mode, self.game_id, self.outcome),
            ),
    {
        let entry = self.entry();
        let mut bytes: Vec<u8> = Vec::new();
        entry.write(&mut bytes);
        assert(bytes@ == Seq::<u8>::empty() + spec_write_entry(entry@));
        bytes
    }
}

/// What is written for a game: its summary, and one observation for each
/// position.
#[derive(Debug)]
pub struct IndexedGame {
    pub game_info: GameInfo,
    pub merges: Vec<PersonalMerge>,
}

/// Whether both sides of `players` are known users.
pub open spec fn spec_both_known(players: ByColor<Player>) -> bool {
    players.white.user is Some && players.black.user is Some
}

/// Whether `c` is what is to be done with `game` for `player`.
pub open spec fn spec_classified(player: UserId, game: Game, c: Classified) -> bool {
    match c {
        Classified::Skip(SkipReason::Ongoing) => game.status == GameStatus::Ongoing,
        Classified::Skip(SkipReason::Unindexable) => game.status == GameStatus::Unindexable,
        Classified::Skip(SkipReason::AnonymousPlayer) => game.status == GameStatus::Terminated
            && !spec_both_known(game.players),
        Classified::Skip(SkipReason::NotAPlayer) => game.status == GameStatus::Terminated
            && spec_both_known(game.players) && spec_color_of(game.players, player) is None,
        Classified::Skip(SkipReason::UnknownTime) => game.status == GameStatus::Terminated
            && spec_both_known(game.players) && spec_color_of(game.players, player) is Some
            && spec_month_at(game.last_move_at) is None,
        Classified::Index { color, month, outcome } => game.status == GameStatus::Terminated
            && spec_both_known(game.players) && spec_color_of(game.players, player) == Some(color)
            && spec_month_at(game.last_move_at) == Some(month@) && month.wf() && outcome == (
        match game.winner {
            Some(winner) => Outcome::Decisive { winner },
            None => Outcome::Draw,
        }),
    }
}

/// Takes note of `game` in `status` and says what is to be done with it for
/// `player`: the latest game seen never moves back; of the games that are
/// still going on the first is remembered; and only a game that is over, with
/// a result, between two known users of whom `player` is one, goes on to
/// be indexed.
pub fn classify_game(player: &UserId, game: &Game, status: &mut PersonalStatus) -> (c: Classified)
    ensures
        spec_classified(*player, *game, c),
        final(status).latest_created_at == if game.created_at > old(status).latest_created_at {
            game.created_at
        } else {
            old(status).latest_created_at
        },
        final(status).latest_created_at >= old(status).latest_created_at,
        final(status).revisit_ongoing_created_at == if game.status == GameStatus::Ongoing
            && old(status).revisit_ongoing_created_at is None {
            Some(game.created_at)
        } else {
            old(status).revisit_ongoing_created_at
        },
        final(status).indexed_at == old(status).indexed_at,
        old(status).wf() ==> final(status).wf(),
{
    status.observe(game.created_at, game.status.is_ongoing());
    if game.status.is_ongoing() {
        return Classified::Skip(SkipReason::Ongoing);
    }
    if game.status.is_unindexable() {
        return Classified::Skip(SkipReason::Unindexable);
    }
    if game.players.white.user.is_none() || game.players.black.user.is_none() {
        return Classified::Skip(SkipReason::AnonymousPlayer);
    }
    let color = match color_of(&game.players, player) {
        Some(color) => color,
        None => { return Classified::Skip(SkipReason::NotAPlayer); },
    };
    let month = match Month::from_time_saturating(game.last_move_at) {
        Some(month) => month,
        None => { return Classified::Skip(SkipReason::UnknownTime); },
    };
    let outcome = Outcome::from_winner(game.winner);
    Classified::Index { color, month, outcome }
}

/// Whether `info` is the summary of `game`, indexed for `color` alone.
pub open spec fn spec_is_info_of(
    info: GameInfo,
    game: Game,
    color: Color,
    month: Month,
    outcome: Outcome,
) -> bool {
    &&& info.winner == (match outcome {
        Outcome::Decisive { winner } => Some(winner),
        Outcome::Draw => None,
    })
    &&& info.speed == game.speed
    &&& info.rated == game.rated
    &&& info.month == month
    &&& info.indexed == (ByColor { white: color == Color::White, black: color == Color::Black })
    &&& spec_is_player_of(info.players.white, game.players.white)
    &&& spec_is_player_of(info.players.black, game.players.black)
}

/// Whether `info` has the name and the rating of `player`.
pub open spec fn spec_is_player_of(info: GameInfoPlayer, player: Player) -> bool {
    &&& info.rating == player.rating
    &&& match player.user {
        Some(user) => info.name matches Some(name) && name@ == user@,
        None => info.name is None,
    }
}

fn info_player(player: &Player) -> (info: GameInfoPlayer)
    ensures
        spec_is_player_of(info, *player),
{
    GameInfoPlayer {
        name: match &player.user {
            Some(user) => Some(user.as_str().to_owned()),
            None => None,
        },
        rating: player.rating,
    }
}

/// The summary of `game`, marked as indexed for the side `color`.
pub fn game_info_for(game: &Game, color: Color, month: Month, outcome: Outcome) -> (info: GameInfo)
    ensures
        spec_is_info_of(info, *game, color, month, outcome),
{
    GameInfo {
        winner: outcome.winner(),
        speed: game.speed,
        rated: game.rated,
        month,
        players: ByColor {
            white: info_player(&game.players.white),
            black: info_player(&game.players.black),
        },
        indexed: ByColor {
            white: match color {
                Color::White => true,
                Color::Black => false,
            },
            black: match color {
                Color::White => false,
                Color::Black => true,
            },
        },
    }
}

/// Whether `merge` is the observation of `ply` in `game`.
pub open spec fn spec_is_merge_of(
    merge: PersonalMerge,
    game: Game,
    color: Color,
    month: Month,
    outcome: Outcome,
    ply: Ply,
) -> bool {
    &&& merge.color == color
    &&& merge.rules == rules_of(game.variant)
    &&& merge.zobrist == ply.0
    &&& merge.month == month
    &&& merge.uci == ply.1
    &&& merge.speed == game.speed
    &&& merge.mode == (if game.rated {
        Mode::Rated
    } else {
        Mode::Casual
    })
    &&& merge.game_id == game.id
    &&& merge.outcome == outcome
}

/// Whether `merges` are the observations of `entries` in `game`, one for
/// one.
pub open spec fn spec_are_merges_of(
    merges: Seq<PersonalMerge>,
    game: Game,
    color: Color,
    month: Month,
    outcome: Outcome,
    entries: Seq<Ply>,
) -> bool {
    &&& merges.len() == entries.len()
    &&& forall|i: int|
        0 <= i < merges.len() ==> spec_is_merge_of(
            #[trigger] merges[i],
            game,
            color,
            month,
            outcome,
            entries[i],
        )
}

/// The observations of `game` for the positions and moves of `entries`.
pub fn personal_merges(
    game: &Game,
    color: Color,
    month: Month,
    outcome: Outcome,
    entries: &Vec<Ply>,
) -> (merges: Vec<PersonalMerge>)
    ensures
        spec_are_merges_of(merges@, *game, color, month, outcome, entries@),
{
    let rules = rules_of(game.variant);
    let mode = Mode::from_rated(game.rated);
    let mut merges: Vec<PersonalMerge> = Vec::new();
    let mut i: usize = 0;
    while i < entries.len()
        invariant
            i <= entries@.len(),
            rules == rules_of(game.variant),
            mode == (if game.rated {
                Mode::Rated
            } else {
                Mode::Casual
            }),
            spec_are_merges_of(merges@, *game, color, month, outcome, entries@.take(i as int)),
        decreases entries@.len() - i,
    {
        let ply = entries[i];
        merges.push(
            PersonalMerge {
                color,
                rules,
                zobrist: ply.0,
                month,
                uci: ply.1,
                speed: game.speed,
                mode,
                game_id: game.id,
                outcome,
            },
        );
        i = i + 1;
    }
    assert(entries@.take(i as int) == entries@);
    merges
}

/// The positions and moves of `merges`, in their order.
pub open spec fn spec_entries_of(merges: Seq<PersonalMerge>) -> Seq<Ply> {
    Seq::new(merges.len(), |i: int| (merges[i].zobrist, merges[i].uci))
}

/// The plies of `game`, see [`spec_replay`]; none where shakmaty refuses the
/// starting position.
pub open spec fn spec_plies_of(game: Game) -> Seq<Ply> {
    match spec_replay(game.variant, game.initial_fen, game.moves@) {
        Some(plies) => plies,
        None => Seq::empty(),
    }
}

/// What is written for a game that goes into the index of the player of
/// `color`, of which `info` is kept so far. `None`, and nothing is written,
/// exactly where the game is in that index already. Else the summary of
/// the game, and one observation for each position that the game passed
/// through, however often it did, with the move that was played there last:
/// the observations list the table of the plies of the game, see
/// [`spec_table`], and no two of them are of the same position. A game whose
/// starting position shakmaty refuses has its summary written and no
/// observation.
pub fn index_classified(
    game: &Game,
    color: Color,
    month: Month,
    outcome: Outcome,
    info: &Option<GameInfo>,
) -> (r: Option<IndexedGame>)
    ensures
        r is None <==> (match *info {
            Some(info) => info.indexed.spec_by_color(color),
            None => false,
        }),
        r matches Some(indexed) ==> {
            &&& spec_is_info_of(indexed.game_info, *game, color, month, outcome)
            &&& indexed.merges@.len() <= game.moves@.len()
            &&& lists_table(
                spec_entries_of(indexed.merges@),
                spec_table(spec_plies_of(*game)),
            )
            &&& forall|i: int, j: int|
                0 <= i < j < indexed.merges@.len() ==> (#[trigger] indexed.merges@[i]).zobrist != (
                #[trigger] indexed.merges@[j]).zobrist
            &&& forall|i: int|
                0 <= i < indexed.merges@.len() ==> (#[trigger] indexed.merges@[i]).uci.wf()
                    && spec_is_merge_of(
                    indexed.merges@[i],
                    *game,
                    color,
                    month,
                    outcome,
                    (indexed.merges@[i].zobrist, indexed.merges@[i].uci),
                )
        },
{
    if already_indexed(info, color) {
        return None;
    }
    let game_info = game_info_for(game, color, month, outcome);
    let plies: Vec<Ply> = match replay(game.variant, &game.initial_fen, &game.moves) {
        Some(plies) => plies,
        None => Vec::new(),
    };
    let entries = collapse_repetitions(&plies);
    let merges = personal_merges(game, color, month, outcome, &entries);
    proof {
        assert(spec_entries_of(merges@) =~= entries@);
        assert(plies@ == spec_plies_of(*game));
        assert forall|i: int, j: int| 0 <= i < j < merges@.len() implies (#[trigger] merges@[i]).zobrist
            != (#[trigger] merges@[j]).zobrist by {
            assert(entries@[i].0 != entries@[j].0);
        }
        assert forall|i: int| 0 <= i < merges@.len() implies (#[trigger] merges@[i]).uci.wf()
            && spec_is_merge_of(
            merges@[i],
            *game,
            color,
            month,
            outcome,
            (merges@[i].zobrist, merges@[i].uci),
        ) by {
            assert(entries@[i].1.wf());
        }
    }
    Some(IndexedGame { game_info, merges })
}

/// The latest game seen, after games created at the times `created_at`
/// were taken note of, one after the other.
pub open spec fn spec_latest_after(latest: u64, created_at: Seq<u64>) -> u64
    decreases created_at.len(),
{
    if created_at.len() == 0 {
        latest
    } else {
        spec_latest_after(
            if created_at[0] > latest {
                created_at[0]
            } else {
                latest
            },
            created_at.skip(1),
        )
    }
}

/// Over a run the latest game seen never moves back, in whatever order the
/// games come.
pub proof fn lemma_latest_never_decreases(latest: u64, created_at: Seq<u64>)
    ensures
        spec_latest_after(latest, created_at) >= latest,
        forall|i: int|
            0 <= i < created_at.len() ==> spec_latest_after(latest, created_at)
                >= #[trigger] created_at[i],
    decreases created_at.len(),
{
    if created_at.len() > 0 {
        let next = if created_at[0] > latest {
            created_at[0]
        } else {
            latest
        };
        lemma_latest_never_decreases(next, created_at.skip(1));
        assert forall|i: int| 0 <= i < created_at.len() implies spec_latest_after(
            latest,
            created_at,
        ) >= #[trigger] created_at[i] by {
            if i > 0 {
                assert(created_at.skip(1)[i - 1] == created_at[i]);
            }
        }
    }
}

} // verus!
