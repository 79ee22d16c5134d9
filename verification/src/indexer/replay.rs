//! Replaying the moves of a game with shakmaty, and the table of positions
//! that a game passed through.

use crate::indexer::game::LilaVariant;
use crate::model::fx::{fx_insert, fx_into_vec, fx_new};
use crate::model::uci::{Role, UciMove};
use rustc_hash::FxHashMap;
use shakmaty::fen::Fen;
use shakmaty::san::San;
use shakmaty::uci::Uci;
use shakmaty::variant::{Variant, VariantPosition};
use shakmaty::zobrist::ZobristHash;
use shakmaty::{CastlingMode, Move, Position};
use vstd::prelude::*;

verus! {

#[verifier::external_type_specification]
#[verifier::external_body]
pub struct ExVariantPosition(VariantPosition);

#[verifier::external_type_specification]
#[verifier::external_body]
pub struct ExMove(Move);

#[verifier::external_type_specification]
pub struct ExVariant(Variant);

/// A move as shakmaty names it for UCI, in numbers: squares from 0, roles
/// from 1, and 0 for no promotion.
#[derive(Debug, Copy, Clone, PartialEq, Eq, Structural)]
pub enum RawUci {
    Normal { from: u8, to: u8, promotion: u8 },
    Put { role: u8, to: u8 },
    Null,
}

/// One move of a game: the hash of the position before it, and the move.
pub type Ply = (u128, UciMove);

/// The rules by which shakmaty plays a game of `variant`: those of chess
/// where only the starting position differs.
pub open spec fn spec_rules_of(variant: LilaVariant) -> Variant {
    match variant {
        LilaVariant::Standard | LilaVariant::Chess960 | LilaVariant::FromPosition => Variant::Chess,
        LilaVariant::Antichess => Variant::Antichess,
        LilaVariant::Atomic => Variant::Atomic,
        LilaVariant::Crazyhouse => Variant::Crazyhouse,
        LilaVariant::Horde => Variant::Horde,
        LilaVariant::KingOfTheHill => Variant::KingOfTheHill,
        LilaVariant::RacingKings => Variant::RacingKings,
        LilaVariant::ThreeCheck => Variant::ThreeCheck,
    }
}

/// The rules by which shakmaty plays a game of `variant`.
#[verifier::when_used_as_spec(spec_rules_of)]
pub fn rules_of(variant: LilaVariant) -> (rules: Variant)
    ensures
        rules == spec_rules_of(variant),
{
    match variant {
        LilaVariant::Standard | LilaVariant::Chess960 | LilaVariant::FromPosition => Variant::Chess,
        LilaVariant::Antichess => Variant::Antichess,
        LilaVariant::Atomic => Variant::Atomic,
        LilaVariant::Crazyhouse => Variant::Crazyhouse,
        LilaVariant::Horde => Variant::Horde,
        LilaVariant::KingOfTheHill => Variant::KingOfTheHill,
        LilaVariant::RacingKings => Variant::RacingKings,
        LilaVariant::ThreeCheck => Variant::ThreeCheck,
    }
}

/// The position from which a game of `rules` starts.
pub uninterp spec fn spec_start_position(rules: Variant) -> VariantPosition;

/// The position that `fen` describes for a game of `rules`; `None` where
/// shakmaty cannot read `fen` or refuses the position.
pub uninterp spec fn spec_position_from_fen(rules: Variant, fen: Seq<char>) -> Option<
    VariantPosition,
>;

/// The move that `san` names in `pos`; `None` where `san` is no notation or
/// names no single legal move.
pub uninterp spec fn spec_resolve_san(pos: VariantPosition, san: Seq<char>) -> Option<Move>;

/// The squares and roles by which UCI names `m`, with castling as in
/// Chess960.
pub uninterp spec fn spec_move_to_uci(m: Move) -> RawUci;

/// The Zobrist hash of `pos` in 128 bits.
pub uninterp spec fn spec_zobrist_hash(pos: VariantPosition) -> u128;

/// The position after `m` was played in `pos`; `None` where `m` is not legal
/// there.
pub uninterp spec fn spec_play(pos: VariantPosition, m: Move) -> Option<VariantPosition>;

/// `VariantPosition::new` of shakmaty: the starting position of a variant.
/// Trusted: the position is a function of `rules` alone.
#[verifier::external_body]
fn start_position(rules: Variant) -> (pos: VariantPosition)
    ensures
        pos == spec_start_position(rules),
{
    VariantPosition::new(rules)
}

/// The longest description of a starting position that is handed to
/// shakmaty, in characters.
pub const MAX_FEN_LEN: usize = 271;

/// `VariantPosition::from_setup` of shakmaty, with castling as in Chess960,
/// on what `Fen::from_ascii` reads from `fen`; `None` where either refuses.
/// Trusted: the result is a function of `rules` and the characters of `fen`
/// alone. `Fen::from_ascii` counts the ranks of the board down in eight
/// bits and can overflow after 136 ranks, which take 272 characters:
/// `requires` leaves such input out.
#[verifier::external_body]
fn position_from_fen(rules: Variant, fen: &str) -> (pos: Option<VariantPosition>)
    requires
        fen@.len() <= MAX_FEN_LEN,
    ensures
        pos == spec_position_from_fen(rules, fen@),
{
    match Fen::from_ascii(fen.as_bytes()) {
        Ok(setup) => VariantPosition::from_setup(rules, &setup, CastlingMode::Chess960).ok(),
        Err(_) => None,
    }
}

/// `San::to_move` of shakmaty, on what `San::from_ascii` reads from `san`;
/// `None` where `san` is no notation or names no single legal move.
/// Trusted: the result is a function of the position and the characters of
/// `san` alone; and the move is legal in the position, so that
/// `Position::play` does not refuse it there.
#[verifier::external_body]
fn resolve_san(pos: &VariantPosition, san: &str) -> (m: Option<Move>)
    ensures
        m == spec_resolve_san(*pos, san@),
        m matches Some(legal) ==> spec_play(*pos, legal) is Some,
{
    match San::from_ascii(san.as_bytes()) {
        Ok(san) => san.to_move(pos).ok(),
        Err(_) => None,
    }
}

/// Whether the numbers of `raw` are those of squares and of roles: squares
/// from 0 to 63, roles from 1 to 6, and 0 to 6 for a promotion.
pub open spec fn spec_in_range(raw: RawUci) -> bool {
    match raw {
        RawUci::Normal { from, to, promotion } => from < 64 && to < 64 && promotion <= 6,
        RawUci::Put { role, to } => 1 <= role <= 6 && to < 64,
        RawUci::Null => true,
    }
}

/// Whether `raw` is a normal move that does not leave its square.
pub open spec fn spec_stays(raw: RawUci) -> bool {
    raw matches RawUci::Normal { from, to, promotion } && from == to
}

/// `Move::to_uci` of shakmaty, with castling as in Chess960, its squares
/// and roles as numbers. Trusted: they are a function of the move alone, and
/// are the numbers of shakmaty's squares and roles, see [`spec_in_range`].
#[verifier::external_body]
fn move_to_uci(m: &Move) -> (raw: RawUci)
    ensures
        raw == spec_move_to_uci(*m),
        spec_in_range(raw),
{
    match m.to_uci(CastlingMode::Chess960) {
        Uci::Normal { from, to, promotion } => RawUci::Normal {
            from: u8::from(from),
            to: u8::from(to),
            promotion: promotion.map_or(0, u8::from),
        },
        Uci::Put { role, to } => RawUci::Put { role: u8::from(role), to: u8::from(to) },
        Uci::Null => RawUci::Null,
    }
}

/// `ZobristHash::zobrist_hash` of shakmaty, in 128 bits. Trusted: the hash
/// is a function of the position alone.
#[verifier::external_body]
fn zobrist_hash(pos: &VariantPosition) -> (hash: u128)
    ensures
        hash == spec_zobrist_hash(*pos),
{
    pos.zobrist_hash()
}

/// `Position::play` of shakmaty; `None` where the move is not legal.
/// Trusted: the result is a function of the position and the move alone.
#[verifier::external_body]
fn play(pos: VariantPosition, m: &Move) -> (next: Option<VariantPosition>)
    ensures
        next == spec_play(pos, *m),
{
    pos.play(m).ok()
}

/// The move that the numbers of `raw` name, if they name one: squares on
/// the board, roles from 1 to 6, a normal move leaving its square.
pub open spec fn spec_from_raw(raw: RawUci) -> Option<UciMove> {
    match raw {
        RawUci::Normal { from, to, promotion } => if from < 64 && to < 64 && from != to && (
        promotion == 0 || Role::spec_from_code(promotion as int) is Some) {
            Some(UciMove::Normal { from, to, promotion: Role::spec_from_code(promotion as int) })
        } else {
            None
        },
        RawUci::Put { role, to } => match Role::spec_from_code(role as int) {
            Some(role) => if to < 64 {
                Some(UciMove::Put { role, to })
            } else {
                None
            },
            None => None,
        },
        RawUci::Null => Some(UciMove::Null),
    }
}

/// The move that the numbers of `raw` name, see [`spec_from_raw`].
pub fn from_raw(raw: RawUci) -> (m: Option<UciMove>)
    ensures
        m == spec_from_raw(raw),
        m matches Some(m) ==> m.wf(),
{
    match raw {
        RawUci::Normal { from, to, promotion } => {
            let role = Role::from_code(promotion as u16);
            if promotion != 0 && role.is_none() {
                None
            } else {
                UciMove::normal(from, to, role)
            }
        },
        RawUci::Put { role, to } => match Role::from_code(role as u16) {
            Some(role) => if to < 64 {
                Some(UciMove::Put { role, to })
            } else {
                None
            },
            None => None,
        },
        RawUci::Null => Some(UciMove::Null),
    }
}

/// Whether every move of `plies` is a move with an encoding.
pub open spec fn plies_wf(plies: Seq<Ply>) -> bool {
    forall|i: int| 0 <= i < plies.len() ==> (#[trigger] plies[i]).1.wf()
}

/// What playing `san` in `pos` gives: the hash of `pos` with the move, and
/// the position after it; `None` where shakmaty does not accept `san` in
/// `pos`, or the move has no encoding.
pub open spec fn spec_next_ply(pos: VariantPosition, san: Seq<char>) -> Option<
    (Ply, VariantPosition),
> {
    match spec_resolve_san(pos, san) {
        None => None,
        Some(m) => match spec_from_raw(spec_move_to_uci(m)) {
            None => None,
            Some(uci) => match spec_play(pos, m) {
                None => None,
                Some(next) => Some(((spec_zobrist_hash(pos), uci), next)),
            },
        },
    }
}

/// The plies of `moves` played from `pos`, up to the first that
/// [`spec_next_ply`] does not give.
pub open spec fn spec_replay_from(pos: VariantPosition, moves: Seq<String>) -> Seq<Ply>
    decreases moves.len(),
{
    if moves.len() == 0 {
        Seq::empty()
    } else {
        match spec_next_ply(pos, moves[0]@) {
            None => Seq::empty(),
            Some((ply, next)) => seq![ply] + spec_replay_from(next, moves.skip(1)),
        }
    }
}

/// The position from which a game starts: the one that `initial_fen`
/// describes, where there is one, it has at most [`MAX_FEN_LEN`] characters
/// and shakmaty accepts it; that of the variant, where there is none.
pub open spec fn spec_start(variant: LilaVariant, initial_fen: Option<String>) -> Option<
    VariantPosition,
> {
    match initial_fen {
        Some(fen) => if fen@.len() <= MAX_FEN_LEN {
            spec_position_from_fen(spec_rules_of(variant), fen@)
        } else {
            None
        },
        None => Some(spec_start_position(spec_rules_of(variant))),
    }
}

/// The plies of a game: those of its moves played from its starting
/// position; `None` where shakmaty refuses that position.
pub open spec fn spec_replay(
    variant: LilaVariant,
    initial_fen: Option<String>,
    moves: Seq<String>,
) -> Option<Seq<Ply>> {
    match spec_start(variant, initial_fen) {
        Some(pos) => Some(spec_replay_from(pos, moves)),
        None => None,
    }
}

/// The position after the first `k` of `moves` were played from `pos`;
/// `None` where one of them gives no ply.
pub open spec fn spec_position_after(pos: VariantPosition, moves: Seq<String>, k: int) -> Option<
    VariantPosition,
>
    decreases k,
{
    if k <= 0 {
        Some(pos)
    } else if moves.len() == 0 {
        None
    } else {
        match spec_next_ply(pos, moves[0]@) {
            Some((ply, next)) => spec_position_after(next, moves.skip(1), k - 1),
            None => None,
        }
    }
}

/// Whether the move at place `k` of `moves`, in the position that the moves
/// before it lead to from `pos`, is one at which a game is cut off: a
/// notation that shakmaty refuses there, or a move that does not leave its
/// square and so has no encoding.
pub open spec fn spec_cut_off(pos: VariantPosition, moves: Seq<String>, k: int) -> bool {
    &&& 0 <= k < moves.len()
    &&& match spec_position_after(pos, moves, k) {
        Some(reached) => match spec_resolve_san(reached, moves[k]@) {
            None => true,
            Some(m) => spec_stays(spec_move_to_uci(m)),
        },
        None => false,
    }
}

/// One more ply leads from the position after `k` moves to that after
/// `k + 1`.
proof fn lemma_position_after_step(
    pos: VariantPosition,
    moves: Seq<String>,
    k: int,
    reached: VariantPosition,
    ply: Ply,
    next: VariantPosition,
)
    requires
        0 <= k < moves.len(),
        spec_position_after(pos, moves, k) == Some(reached),
        spec_next_ply(reached, moves[k]@) == Some((ply, next)),
    ensures
        spec_position_after(pos, moves, k + 1) == Some(next),
    decreases k,
{
    if k == 0 {
        assert(spec_position_after(next, moves.skip(1), 0) == Some(next));
    } else {
        let first = match spec_next_ply(pos, moves[0]@) {
            Some((played, after)) => after,
            None => pos,
        };
        assert(moves.skip(1)[k - 1] == moves[k]);
        lemma_position_after_step(first, moves.skip(1), k - 1, reached, ply, next);
    }
}

/// Numbers of squares and roles name a move unless it is a normal move
/// that does not leave its square.
proof fn lemma_from_raw_in_range(raw: RawUci)
    requires
        spec_in_range(raw),
        spec_from_raw(raw) is None,
    ensures
        spec_stays(raw),
{
}

/// The plies of a game are no more than its moves, and each of their moves
/// has an encoding.
pub proof fn lemma_replay_from(pos: VariantPosition, moves: Seq<String>)
    ensures
        spec_replay_from(pos, moves).len() <= moves.len(),
        plies_wf(spec_replay_from(pos, moves)),
    decreases moves.len(),
{
    if moves.len() > 0 {
        if let Some((ply, next)) = spec_next_ply(pos, moves[0]@) {
            lemma_replay_from(next, moves.skip(1));
            let tail = spec_replay_from(next, moves.skip(1));
            let all = seq![ply] + tail;
            assert forall|i: int| 0 <= i < all.len() implies (#[trigger] all[i]).1.wf() by {
                if i > 0 {
                    assert(all[i] == tail[i - 1]);
                }
            }
        }
    }
}

/// Plays the moves of a game from its starting position and gives, for
/// each move played, the hash of the position before it and the move, as
/// [`spec_replay`] says. The game is cut off before the first move that
/// shakmaty does not resolve in its position, or that does not leave its
/// square and so has no encoding, and nowhere else. `None` where shakmaty
/// refuses the starting position, or its description is longer than
/// [`MAX_FEN_LEN`] characters; a game without one of its own starts from that
/// of its variant, which is never refused.
pub fn replay(variant: LilaVariant, initial_fen: &Option<String>, moves: &Vec<String>) -> (r: Option<
    Vec<Ply>,
>)
    ensures
        match spec_replay(variant, *initial_fen, moves@) {
            Some(plies) => r matches Some(played) && played@ == plies,
            None => r is None,
        },
        initial_fen is None ==> r is Some,
        r matches Some(plies) ==> plies@.len() <= moves@.len() && plies_wf(plies@),
        match r {
            Some(plies) => plies@.len() < moves@.len() ==> spec_cut_off(
                spec_start(variant, *initial_fen)->0,
                moves@,
                plies@.len() as int,
            ),
            None => true,
        },
{
    let rules = rules_of(variant);
    let start = match initial_fen {
        Some(fen) => if fen.as_str().unicode_len() <= MAX_FEN_LEN {
            position_from_fen(rules, fen.as_str())
        } else {
            None
        },
        None => Some(start_position(rules)),
    };
    let mut pos = match start {
        Some(pos) => pos,
        None => { return None; },
    };
    let ghost first = pos;
    let mut plies: Vec<Ply> = Vec::new();
    let mut i: usize = 0;
    proof {
        lemma_replay_from(first, moves@);
        assert(moves@.skip(0) == moves@);
        assert(plies@ + spec_replay_from(pos, moves@.skip(0)) == spec_replay_from(first, moves@));
    }
    while i < moves.len()
        invariant_except_break
            i <= moves@.len(),
            plies@.len() == i,
            spec_position_after(first, moves@, i as int) == Some(pos),
            plies@ + spec_replay_from(pos, moves@.skip(i as int)) == spec_replay_from(first, moves@),
        ensures
            plies@ == spec_replay_from(first, moves@),
            plies@.len() < moves@.len() ==> spec_cut_off(first, moves@, plies@.len() as int),
        decreases moves@.len() - i,
    {
        let ghost before = pos;
        let ghost done = plies@;
        let ghost rest = moves@.skip(i as int);
        assert(rest[0] == moves@[i as int]);
        assert(rest.skip(1) == moves@.skip(i + 1));
        let m = match resolve_san(&pos, moves[i].as_str()) {
            Some(m) => m,
            None => {
                assert(spec_replay_from(before, rest) == Seq::<Ply>::empty());
                assert(done + Seq::<Ply>::empty() == done);
                break ;
            },
        };
        let uci = match from_raw(move_to_uci(&m)) {
            Some(uci) => uci,
            None => {
                proof {
                    lemma_from_raw_in_range(spec_move_to_uci(m));
                }
                assert(spec_replay_from(before, rest) == Seq::<Ply>::empty());
                assert(done + Seq::<Ply>::empty() == done);
                break ;
            },
        };
        let hash: u128 = zobrist_hash(&pos);
        pos = match play(pos, &m) {
            Some(next) => next,
            None => {
                assert(spec_replay_from(before, rest) == Seq::<Ply>::empty());
                assert(done + Seq::<Ply>::empty() == done);
                break ;
            },
        };
        plies.push((hash, uci));
        proof {
            lemma_position_after_step(first, moves@, i as int, before, (hash, uci), pos);
            let tail = spec_replay_from(pos, moves@.skip(i + 1));
            assert(spec_replay_from(before, rest) == seq![(hash, uci)] + tail);
            assert(done.push((hash, uci)) + tail == done + (seq![(hash, uci)] + tail));
        }
        i = i + 1;
    }
    Some(plies)
}

/// The table of a game: for each position that it passed through, the move
/// that was played there last.
pub open spec fn spec_table(plies: Seq<Ply>) -> Map<u128, UciMove>
    decreases plies.len(),
{
    if plies.len() == 0 {
        Map::empty()
    } else {
        spec_table(plies.drop_last()).insert(plies.last().0, plies.last().1)
    }
}

/// Whether the game passed through the position with the hash `hash`.
pub open spec fn passes_through(plies: Seq<Ply>, hash: u128) -> bool {
    exists|i: int| 0 <= i < plies.len() && (#[trigger] plies[i]).0 == hash
}

/// The table holds the positions of the game and no others; it is finite,
/// with no more positions than the game has moves; and where every move of
/// the game has an encoding, every move of the table has one.
pub proof fn lemma_table_positions(plies: Seq<Ply>)
    ensures
        spec_table(plies).dom().finite(),
        spec_table(plies).dom().len() <= plies.len(),
        forall|hash: u128| #[trigger]
            spec_table(plies).contains_key(hash) <==> passes_through(plies, hash),
        plies_wf(plies) ==> forall|hash: u128| #[trigger]
            spec_table(plies).contains_key(hash) ==> spec_table(plies)[hash].wf(),
    decreases plies.len(),
{
    if plies.len() > 0 {
        let front = plies.drop_last();
        let last = plies.last();
        lemma_table_positions(front);
        let table = spec_table(plies);
        assert forall|hash: u128| #[trigger]
            table.contains_key(hash) <==> passes_through(plies, hash) by {
            if table.contains_key(hash) {
                if hash == last.0 {
                    assert(plies[plies.len() - 1].0 == hash);
                } else {
                    assert(spec_table(front).contains_key(hash));
                    assert(passes_through(front, hash));
                    let i = choose|i: int| 0 <= i < front.len() && (#[trigger] front[i]).0 == hash;
                    assert(plies[i].0 == hash);
                }
            }
            if passes_through(plies, hash) {
                let i = choose|i: int| 0 <= i < plies.len() && (#[trigger] plies[i]).0 == hash;
                if i < front.len() {
                    assert(front[i].0 == hash);
                    assert(passes_through(front, hash));
                }
            }
        }
        if plies_wf(plies) {
            assert(plies[plies.len() - 1].1.wf());
            assert forall|i: int| 0 <= i < front.len() implies (#[trigger] front[i]).1.wf() by {
                assert(front[i] == plies[i]);
            }
        }
    }
}

/// The table holds for a position the move of the last time that the game
/// passed through it.
pub proof fn lemma_table_last_wins(plies: Seq<Ply>, i: int)
    requires
        0 <= i < plies.len(),
        forall|j: int| i < j < plies.len() ==> (#[trigger] plies[j]).0 != plies[i].0,
    ensures
        spec_table(plies).contains_key(plies[i].0),
        spec_table(plies)[plies[i].0] == plies[i].1,
    decreases plies.len(),
{
    let front = plies.drop_last();
    if i < front.len() {
        assert(plies[plies.len() - 1].0 != plies[i].0);
        assert(front[i] == plies[i]);
        assert forall|j: int| i < j < front.len() implies (#[trigger] front[j]).0 != front[i].0 by {
            assert(front[j] == plies[j]);
        }
        lemma_table_last_wins(front, i);
    }
}

/// The table of a game, see [`spec_table`].
pub fn build_table(plies: &Vec<Ply>) -> (table: FxHashMap<u128, UciMove>)
    ensures
        table@ == spec_table(plies@),
{
    let mut table: FxHashMap<u128, UciMove> = fx_new();
    let mut i: usize = 0;
    assert(plies@.take(0) == Seq::<Ply>::empty());
    while i < plies.len()
        invariant
            i <= plies@.len(),
            table@ == spec_table(plies@.take(i as int)),
        decreases plies@.len() - i,
    {
        let ply = plies[i];
        fx_insert(&mut table, ply.0, ply.1);
        assert(plies@.take(i + 1).drop_last() == plies@.take(i as int));
        i = i + 1;
    }
    assert(plies@.take(i as int) == plies@);
    table
}

/// Whether `entries` lists `table`: each position once, with its move, and
/// nothing else.
pub open spec fn lists_table(entries: Seq<Ply>, table: Map<u128, UciMove>) -> bool {
    &&& forall|i: int|
        0 <= i < entries.len() ==> table.contains_key((#[trigger] entries[i]).0)
            && table[entries[i].0] == entries[i].1
    &&& forall|i: int, j: int|
        0 <= i < j < entries.len() ==> (#[trigger] entries[i]).0 != (#[trigger] entries[j]).0
    &&& forall|hash: u128|
        table.contains_key(hash) ==> exists|i: int|
            0 <= i < entries.len() && (#[trigger] entries[i]).0 == hash
}

/// The positions of a game, each once however often the game passed through
/// it, with the move that was played there last. Their order is that of the
/// hash map and is not stated.
pub fn collapse_repetitions(plies: &Vec<Ply>) -> (entries: Vec<Ply>)
    ensures
        lists_table(entries@, spec_table(plies@)),
        entries@.len() <= plies@.len(),
        plies_wf(plies@) ==> plies_wf(entries@),
{
    let table = build_table(plies);
    proof {
        lemma_table_positions(plies@);
    }
    let entries = fx_into_vec(table);
    proof {
        if plies_wf(plies@) {
            assert forall|i: int| 0 <= i < entries@.len() implies (#[trigger] entries@[i]).1.wf() by {
                assert(spec_table(plies@).contains_key(entries@[i].0));
            }
        }
    }
    entries
}

} // verus!
