//! Statistics of one position in the games of one player: for each move,
//! speed and mode the results and a sample of recent games. The encoding is
//! made so that appending the bytes of one entry to those of another gives
//! the bytes of the merged entry; a game that comes again is kept once.

use crate::model::fx::{fx_get, fx_insert, fx_new};
use crate::model::game_id::{spec_read_game_id, spec_write_game_id, GameId};
use crate::model::game_refs::{
    game_refs, refs_extend, refs_get, refs_len, refs_new, refs_push, GameRefs,
};
use crate::model::lichess::{
    delta_of, games_wf, idx_of, lemma_games_wf, lemma_raise_select, raised, spec_delta,
    spec_idx, spec_kept, spec_raise, spec_select, spec_top, spec_write_refs, spec_written,
    GroupModel,
};
use crate::model::color::Outcome;
use crate::model::reader::{read_result, spec_read_u8, ByteReader, CodecError};
use crate::model::speed::{ByMode, BySpeed, Mode, Speed};
use crate::model::stats::{spec_read_stats, spec_write_stats, Stats};
use crate::model::uci::{
    lemma_code_round_trip, read_uci, spec_read_uci, spec_write_uci, write_uci, UciMove,
};
use crate::model::uint::{
    lemma_read_uint_len, read_uint, spec_read_uint, spec_write_uint, write_uint,
};
use rustc_hash::FxHashMap;
use vstd::prelude::*;

verus! {

/// How far behind the newest game a game may lie and still be written,
/// unless it is the only one of its group.
pub const MAX_PERSONAL_GAMES: u64 = 15;

/// The number of groups of a move: one for each speed and mode.
pub const GROUP_SLOTS: usize = 12;

/// What stands before the statistics of a group, or ends a move.
#[derive(Debug, Copy, Clone, PartialEq, Eq, Structural)]
pub enum PersonalHeader {
    Group { mode: Mode, speed: Speed, num_games: u64 },
    End,
}

/// What an entry holds for one move: the groups by slot, see [`group_slot`].
pub struct SubEntryModel {
    pub uci: UciMove,
    pub groups: Seq<GroupModel>,
}

/// What an entry holds: the moves in the order in which they first came,
/// and the highest game index seen.
pub struct EntryModel {
    pub subs: Seq<SubEntryModel>,
    pub max_game_idx: u64,
}

/// The slot of the group for `speed` and `mode`.
pub open spec fn group_slot(speed: Speed, mode: Mode) -> int {
    speed.spec_index() * 2 + mode.spec_index()
}

/// The speed of the groups in `slot`.
pub open spec fn slot_speed(slot: int) -> Speed {
    Speed::spec_from_index(slot / 2)
}

/// The mode of the groups in `slot`.
pub open spec fn slot_mode(slot: int) -> Mode {
    Mode::spec_from_index(slot % 2)
}

/// Twelve groups without games.
pub open spec fn spec_empty_groups() -> Seq<GroupModel> {
    Seq::new(GROUP_SLOTS as nat, |slot: int| GroupModel::spec_empty())
}

impl SubEntryModel {
    pub open spec fn wf(self, max: u64) -> bool {
        &&& self.uci.wf()
        &&& self.groups.len() == GROUP_SLOTS
        &&& forall|slot: int| 0 <= slot < GROUP_SLOTS ==> (#[trigger] self.groups[slot]).wf(max)
    }
}

impl EntryModel {
    /// The entry without moves.
    pub open spec fn spec_empty() -> EntryModel {
        EntryModel { subs: Seq::empty(), max_game_idx: 0 }
    }

    /// Whether each move stands once, and every group is valid with no
    /// game index above the highest seen.
    pub open spec fn wf(self) -> bool {
        &&& forall|i: int| 0 <= i < self.subs.len() ==> (#[trigger] self.subs[i]).wf(self.max_game_idx)
        &&& forall|i: int, j: int|
            0 <= i < j < self.subs.len() ==> (#[trigger] self.subs[i]).uci != (
            #[trigger] self.subs[j]).uci
    }

    /// Whether the entry holds `uci`.
    pub open spec fn has(self, uci: UciMove) -> bool {
        exists|i: int| 0 <= i < self.subs.len() && (#[trigger] self.subs[i]).uci == uci
    }

    /// The place of `uci` among the moves of an entry that holds it.
    pub open spec fn position(self, uci: UciMove) -> int {
        choose|i: int| 0 <= i < self.subs.len() && (#[trigger] self.subs[i]).uci == uci
    }

    /// This entry, with `uci` added after the other moves, without games,
    /// unless the entry holds it.
    pub open spec fn with_sub(self, uci: UciMove) -> EntryModel {
        if self.has(uci) {
            self
        } else {
            EntryModel {
                subs: self.subs.push(SubEntryModel { uci, groups: spec_empty_groups() }),
                ..self
            }
        }
    }
}

/// The first byte of the header of a group: the speed from 1 in bits 0 to
/// 2, the mode in bit 3, and in bits 4 to 7 the number of games, or 15 for
/// fifteen or more.
pub open spec fn spec_header_byte(speed: Speed, mode: Mode, num_games: u64) -> int {
    speed.spec_index() + 1 + 8 * mode.spec_index() + 16 * (if num_games < 15 {
        num_games as int
    } else {
        15
    })
}

/// The bytes that write `header`: one byte, and after it the number of
/// games where they are fifteen or more.
pub open spec fn spec_write_header(header: PersonalHeader) -> Seq<u8> {
    match header {
        PersonalHeader::End => seq![0u8],
        PersonalHeader::Group { mode, speed, num_games } => seq![
            spec_header_byte(speed, mode, num_games) as u8,
        ] + (if num_games >= 15 {
            spec_write_uint(num_games as nat)
        } else {
            Seq::empty()
        }),
    }
}

/// What reading a header off `s` gives. A byte with speed 0 ends the move,
/// whatever its other bits; speed 7 is invalid.
pub open spec fn spec_read_header(s: Seq<u8>) -> Result<(PersonalHeader, nat), CodecError> {
    match spec_read_u8(s) {
        Err(e) => Err(e),
        Ok((byte, n)) => if byte % 8 == 0 {
            Ok((PersonalHeader::End, n))
        } else if byte % 8 == 7 {
            Err(CodecError::InvalidData)
        } else {
            let speed = Speed::spec_from_index(byte % 8 - 1);
            let mode = Mode::spec_from_index((byte / 8 % 2) as int);
            if byte / 16 >= 15 {
                match spec_read_uint(s.skip(n as int)) {
                    Err(e) => Err(e),
                    Ok((num_games, n2)) => Ok(
                        (PersonalHeader::Group { mode, speed, num_games }, n + n2),
                    ),
                }
            } else {
                Ok(
                    (
                        PersonalHeader::Group { mode, speed, num_games: (byte / 16) as u64 },
                        n,
                    ),
                )
            }
        },
    }
}

/// Whether `games` holds the game `id`, under whatever index.
pub open spec fn spec_holds(games: Seq<(u64, GameId)>, id: GameId) -> bool {
    exists|i: int| 0 <= i < games.len() && (#[trigger] games[i]).1 == id
}

/// Reads `num` games off `s` and appends to `acc` those that it does not
/// hold yet. Each is written as the distance of its index from `base + 1`,
/// see [`spec_idx`], then its identifier; `max` follows the highest index,
/// also of a game that is passed over.
pub open spec fn spec_read_games(
    acc: Seq<(u64, GameId)>,
    base: u64,
    max: u64,
    num: nat,
    s: Seq<u8>,
) -> Result<(Seq<(u64, GameId)>, u64, Seq<u8>), CodecError>
    decreases num,
{
    if num == 0 {
        Ok((acc, max, s))
    } else {
        match spec_read_uint(s) {
            Err(e) => Err(e),
            Ok((delta, n)) => {
                let idx = spec_idx(base, delta);
                match spec_read_game_id(s.skip(n as int)) {
                    Err(e) => Err(e),
                    Ok((id, n2)) => spec_read_games(
                        if spec_holds(acc, id) {
                            acc
                        } else {
                            acc.push((idx, id))
                        },
                        base,
                        if idx > max {
                            idx
                        } else {
                            max
                        },
                        (num - 1) as nat,
                        s.skip((n + n2) as int),
                    ),
                }
            },
        }
    }
}

/// Reads the groups of a move off `s`, up to the header that ends it, and
/// adds each to the group of its slot in `groups`: its results, and those of
/// its games that the group does not hold yet. Statistics whose sum with
/// those of the slot does not fit are invalid.
pub open spec fn spec_read_groups(groups: Seq<GroupModel>, base: u64, max: u64, s: Seq<u8>) -> Result<
    (Seq<GroupModel>, u64, Seq<u8>),
    CodecError,
>
    decreases s.len(),
{
    match spec_read_header(s) {
        Err(e) => Err(e),
        Ok((PersonalHeader::End, n)) => Ok((groups, max, s.skip(n as int))),
        Ok((PersonalHeader::Group { mode, speed, num_games }, n)) => match spec_read_stats(
            s.skip(n as int),
        ) {
            Err(e) => Err(e),
            Ok((stats, n2)) => match spec_read_games(
                groups[group_slot(speed, mode)].games,
                base,
                max,
                num_games as nat,
                s.skip((n + n2) as int),
            ) {
                Err(e) => Err(e),
                Ok((games, max2, rest)) => {
                    let slot = group_slot(speed, mode);
                    if !groups[slot].stats.can_add(stats) {
                        Err(CodecError::InvalidData)
                    } else {
                        proof {
                            lemma_read_header_len(s);
                            lemma_read_stats_len(s.skip(n as int));
                            lemma_read_games_len(
                                groups[group_slot(speed, mode)].games,
                                base,
                                max,
                                num_games as nat,
                                s.skip((n + n2) as int),
                            );
                        }
                        spec_read_groups(
                            groups.update(
                                slot,
                                GroupModel { stats: groups[slot].stats.spec_add(stats), games },
                            ),
                            base,
                            max2,
                            rest,
                        )
                    }
                },
            },
        },
    }
}

/// Reads one move and its groups off `s` into `e`.
pub open spec fn spec_read_sub_entry(e: EntryModel, s: Seq<u8>) -> Result<
    (EntryModel, Seq<u8>),
    CodecError,
> {
    match spec_read_uci(s) {
        Err(err) => Err(err),
        Ok((uci, n)) => {
            let with = e.with_sub(uci);
            let pos = with.position(uci);
            match spec_read_groups(
                with.subs[pos].groups,
                e.max_game_idx,
                e.max_game_idx,
                s.skip(n as int),
            ) {
                Err(err) => Err(err),
                Ok((groups, max, rest)) => Ok(
                    (
                        EntryModel {
                            subs: with.subs.update(pos, SubEntryModel { uci, groups }),
                            max_game_idx: max,
                        },
                        rest,
                    ),
                ),
            }
        },
    }
}

/// Reads moves off `s` into `e` until fewer than two bytes are left.
#[verifier::opaque]
pub open spec fn spec_extend(e: EntryModel, s: Seq<u8>) -> Result<EntryModel, CodecError>
    decreases s.len(),
{
    if s.len() < 2 {
        Ok(e)
    } else {
        match spec_read_sub_entry(e, s) {
            Err(err) => Err(err),
            Ok((e2, rest)) => {
                proof {
                    lemma_read_sub_entry_len(e, s);
                }
                spec_extend(e2, rest)
            },
        }
    }
}

/// A header that is read took at least one byte, and no more than there are.
pub proof fn lemma_read_header_len(s: Seq<u8>)
    ensures
        spec_read_header(s) matches Ok((h, n)) ==> 1 <= n <= s.len(),
{
    if s.len() >= 1 {
        lemma_read_uint_len(s.skip(1));
    }
}

/// Statistics that are read took no more bytes than there are.
pub proof fn lemma_read_stats_len(s: Seq<u8>)
    ensures
        spec_read_stats(s) matches Ok((stats, n)) ==> 4 <= n <= s.len(),
{
    lemma_read_uint_len(s);
    if let Ok((a, n1)) = spec_read_uint(s) {
        lemma_read_uint_len(s.skip(n1 as int));
        if let Ok((b, n2)) = spec_read_uint(s.skip(n1 as int)) {
            lemma_read_uint_len(s.skip((n1 + n2) as int));
            if let Ok((c, n3)) = spec_read_uint(s.skip((n1 + n2) as int)) {
                lemma_read_uint_len(s.skip((n1 + n2 + n3) as int));
            }
        }
    }
}

/// After games are read, no more bytes are left than before.
pub proof fn lemma_read_games_len(
    acc: Seq<(u64, GameId)>,
    base: u64,
    max: u64,
    num: nat,
    s: Seq<u8>,
)
    ensures
        spec_read_games(acc, base, max, num, s) matches Ok((games, max2, rest)) ==> rest.len()
            <= s.len(),
    decreases num,
{
    if num > 0 {
        lemma_read_uint_len(s);
        if let Ok((delta, n)) = spec_read_uint(s) {
            let idx = spec_idx(base, delta);
            if let Ok((id, n2)) = spec_read_game_id(s.skip(n as int)) {
                lemma_read_games_len(
                    if spec_holds(acc, id) {
                        acc
                    } else {
                        acc.push((idx, id))
                    },
                    base,
                    if idx > max {
                        idx
                    } else {
                        max
                    },
                    (num - 1) as nat,
                    s.skip((n + n2) as int),
                );
            }
        }
    }
}

/// After the groups of a move are read, fewer bytes are left than before.
pub proof fn lemma_read_groups_len(groups: Seq<GroupModel>, base: u64, max: u64, s: Seq<u8>)
    ensures
        spec_read_groups(groups, base, max, s) matches Ok((g, m, rest)) ==> rest.len() < s.len(),
    decreases s.len(),
{
    lemma_read_header_len(s);
    match spec_read_header(s) {
        Ok((PersonalHeader::Group { mode, speed, num_games }, n)) => {
            lemma_read_stats_len(s.skip(n as int));
            if let Ok((stats, n2)) = spec_read_stats(s.skip(n as int)) {
                let slot = group_slot(speed, mode);
                lemma_read_games_len(
                    groups[slot].games,
                    base,
                    max,
                    num_games as nat,
                    s.skip((n + n2) as int),
                );
                if let Ok((games, max2, rest)) = spec_read_games(
                    groups[slot].games,
                    base,
                    max,
                    num_games as nat,
                    s.skip((n + n2) as int),
                ) {
                    if groups[slot].stats.can_add(stats) {
                        lemma_read_groups_len(
                            groups.update(
                                slot,
                                GroupModel { stats: groups[slot].stats.spec_add(stats), games },
                            ),
                            base,
                            max2,
                            rest,
                        );
                    }
                }
            }
        },
        _ => {},
    }
}

/// After a move is read, fewer bytes are left than before.
pub proof fn lemma_read_sub_entry_len(e: EntryModel, s: Seq<u8>)
    ensures
        spec_read_sub_entry(e, s) matches Ok((e2, rest)) ==> rest.len() + 3 <= s.len(),
{
    if let Ok((uci, n)) = spec_read_uci(s) {
        let with = e.with_sub(uci);
        let pos = with.position(uci);
        lemma_read_groups_len(
            with.subs[pos].groups,
            e.max_game_idx,
            e.max_game_idx,
            s.skip(n as int),
        );
    }
}

/// The bytes that write the group of `speed` and `mode`: nothing
/// for a group without results and without games to write, else the header,
/// the statistics and the games to write.
pub open spec fn spec_write_group(
    speed: Speed,
    mode: Mode,
    group: GroupModel,
    discarded: u64,
    base: u64,
) -> Seq<u8> {
    let kept = spec_written(group.games, discarded);
    if kept.len() > 0 || !group.stats.spec_is_empty() {
        spec_write_header(
            PersonalHeader::Group { mode, speed, num_games: kept.len() as u64 },
        ) + spec_write_stats(group.stats) + spec_write_refs(kept, base)
    } else {
        Seq::empty()
    }
}

/// The bytes that write the groups from `slot` on, in the order of the slots.
pub open spec fn spec_write_groups(
    groups: Seq<GroupModel>,
    discarded: u64,
    base: u64,
    slot: int,
) -> Seq<u8>
    decreases GROUP_SLOTS - slot,
{
    if slot < 0 || slot >= GROUP_SLOTS {
        Seq::empty()
    } else {
        spec_write_group(slot_speed(slot), slot_mode(slot), groups[slot], discarded, base)
            + spec_write_groups(groups, discarded, base, slot + 1)
    }
}

/// The highest of `max` and the indices of the games that are written of
/// the groups from `slot` on.
pub open spec fn spec_top_groups(groups: Seq<GroupModel>, discarded: u64, max: u64, slot: int) -> u64
    decreases GROUP_SLOTS - slot,
{
    if slot < 0 || slot >= GROUP_SLOTS {
        max
    } else {
        spec_top_groups(
            groups,
            discarded,
            spec_top(spec_written(groups[slot].games, discarded), max),
            slot + 1,
        )
    }
}

/// The bytes that write one move, to be read into an entry whose highest
/// index is `base`: the move, its groups, and the header that ends it.
pub open spec fn spec_write_sub(sub: SubEntryModel, discarded: u64, base: u64) -> Seq<u8> {
    spec_write_uci(sub.uci) + spec_write_groups(sub.groups, discarded, base, 0)
        + spec_write_header(PersonalHeader::End)
}

/// The bytes that write `subs`, one move after the other, to be read into an
/// entry whose highest index is `base`: each move is written for the highest
/// index that the entry has after the moves before it.
pub open spec fn spec_write_subs(subs: Seq<SubEntryModel>, discarded: u64, base: u64) -> Seq<u8>
    decreases subs.len(),
{
    if subs.len() == 0 {
        Seq::empty()
    } else {
        spec_write_sub(subs[0], discarded, base) + spec_write_subs(
            subs.skip(1),
            discarded,
            spec_top_groups(subs[0].groups, discarded, base, 0),
        )
    }
}

/// The highest index of a game that is too old to be written.
pub open spec fn spec_discarded(max_game_idx: u64) -> u64 {
    if max_game_idx >= MAX_PERSONAL_GAMES {
        (max_game_idx - MAX_PERSONAL_GAMES) as u64
    } else {
        0
    }
}

/// The bytes that write `e`, to be read into the entry without moves, where
/// each game that is written has the index under which it was written: its
/// own, or 1 for the index 0.
pub open spec fn spec_write_entry(e: EntryModel) -> Seq<u8> {
    spec_write_subs(e.subs, spec_discarded(e.max_game_idx), 0)
}

/// The entry of one game: `uci` was played in it at `speed` in `mode`.
pub open spec fn spec_new_single(
    uci: UciMove,
    speed: Speed,
    mode: Mode,
    game_id: GameId,
    outcome: Outcome,
) -> EntryModel {
    let slot = group_slot(speed, mode);
    let group = GroupModel {
        stats: Stats::spec_new_single(outcome, 0),
        games: seq![(0u64, game_id)],
    };
    EntryModel {
        subs: seq![SubEntryModel { uci, groups: spec_empty_groups().update(slot, group) }],
        max_game_idx: 0,
    }
}

impl PersonalHeader {
    /// Reads a header.
    pub fn read(reader: &mut ByteReader) -> (r: Result<PersonalHeader, CodecError>)
        ensures
            read_result(spec_read_header(old(reader)@), r, old(reader)@, final(reader)@),
    {
        let byte: u8 = match reader.read_u8() {
            Ok(byte) => byte,
            Err(e) => { return Err(e); },
        };
        let code: u8 = byte % 8;
        if code == 0 {
            return Ok(PersonalHeader::End);
        }
        if code == 7 {
            return Err(CodecError::InvalidData);
        }
        let speed = Speed::from_index((code - 1) as usize);
        let mode = Mode::from_index((byte / 8 % 2) as usize);
        let at_least: u8 = byte / 16;
        let num_games: u64 = if at_least >= 15 {
            match read_uint(reader) {
                Ok(num_games) => num_games,
                Err(e) => { return Err(e); },
            }
        } else {
            at_least as u64
        };
        proof {
            if at_least >= 15 {
                let n2 = spec_read_uint(old(reader)@.skip(1))->Ok_0.1;
                assert(reader@ == old(reader)@.skip((1 + n2) as int));
            }
        }
        Ok(PersonalHeader::Group { mode, speed, num_games })
    }

    /// Appends the bytes of this header.
    pub fn write(&self, writer: &mut Vec<u8>)
        ensures
            final(writer)@ == old(writer)@ + spec_write_header(*self),
    {
        match *self {
            PersonalHeader::End => {
                writer.push(0);
                assert(writer@ == old(writer)@ + seq![0u8]);
            },
            PersonalHeader::Group { mode, speed, num_games } => {
                let at_least: u8 = if num_games < 15 {
                    num_games as u8
                } else {
                    15
                };
                let byte: u8 = speed.index() as u8 + 1 + 8 * mode.index() as u8 + 16
                    * at_least;
                writer.push(byte);
                let ghost first = writer@;
                assert(first == old(writer)@ + seq![byte]);
                if num_games >= 15 {
                    write_uint(writer, num_games);
                    assert(writer@ == old(writer)@ + (seq![byte] + spec_write_uint(
                        num_games as nat,
                    )));
                } else {
                    assert(writer@ == old(writer)@ + (seq![byte] + Seq::<u8>::empty()));
                }
            },
        }
    }
}

/// The results and the sample of games of one speed and mode.
#[derive(Debug)]
pub struct PersonalGroup {
    pub stats: Stats,
    pub games: GameRefs,
}

impl View for PersonalGroup {
    type V = GroupModel;

    open spec fn view(&self) -> GroupModel {
        GroupModel { stats: self.stats, games: game_refs(self.games) }
    }
}

impl Default for PersonalGroup {
    /// The group without games.
    fn default() -> (group: PersonalGroup)
        ensures
            group@ == GroupModel::spec_empty(),
    {
        PersonalGroup { stats: Stats::zero(), games: refs_new() }
    }
}

impl PersonalGroup {
    /// The group of one game.
    pub fn new_single(stats: Stats, game_idx: u64, game_id: GameId) -> (group: PersonalGroup)
        ensures
            group@ == (GroupModel { stats, games: seq![(game_idx, game_id)] }),
    {
        let mut games = refs_new();
        refs_push(&mut games, game_idx, game_id);
        assert(game_refs(games) == seq![(game_idx, game_id)]);
        PersonalGroup { stats, games }
    }

    /// The sample of games, in the order in which they were added.
    pub fn games(&self) -> (games: Vec<(u64, GameId)>)
        ensures
            games@ == self@.games,
    {
        let len: usize = refs_len(&self.games);
        let mut games: Vec<(u64, GameId)> = Vec::new();
        let mut i: usize = 0;
        while i < len
            invariant
                i <= len == game_refs(self.games).len(),
                games@ == game_refs(self.games).take(i as int),
            decreases len - i,
        {
            games.push(refs_get(&self.games, i));
            assert(games@ == game_refs(self.games).take(i + 1));
            i = i + 1;
        }
        assert(games@ == game_refs(self.games));
        games
    }

    /// Counts the games of `rhs` in and appends its sample.
    pub fn add_assign(&mut self, rhs: PersonalGroup)
        requires
            old(self).stats.can_add(rhs.stats),
        ensures
            final(self)@ == old(self)@.spec_add(rhs@),
    {
        self.stats.add_assign(&rhs.stats);
        refs_extend(&mut self.games, rhs.games);
    }
}

/// What `groups` holds, slot by slot.
pub open spec fn groups_view(groups: BySpeed<ByMode<PersonalGroup>>) -> Seq<GroupModel> {
    Seq::new(
        GROUP_SLOTS as nat,
        |slot: int|
            groups.spec_by_speed(slot_speed(slot)).spec_by_mode(slot_mode(slot))@,
    )
}

/// Whether every group of `groups` is valid with no game index above `max`.
pub open spec fn groups_wf(groups: Seq<GroupModel>, max: u64) -> bool {
    &&& groups.len() == GROUP_SLOTS
    &&& forall|slot: int| 0 <= slot < GROUP_SLOTS ==> (#[trigger] groups[slot]).wf(max)
}

fn empty_by_mode() -> (groups: ByMode<PersonalGroup>)
    ensures
        forall|mode: Mode| (#[trigger] groups.spec_by_mode(mode))@ == GroupModel::spec_empty(),
{
    ByMode { rated: PersonalGroup::default(), casual: PersonalGroup::default() }
}

fn empty_groups() -> (groups: BySpeed<ByMode<PersonalGroup>>)
    ensures
        groups_view(groups) == spec_empty_groups(),
{
    let groups = BySpeed {
        ultra_bullet: empty_by_mode(),
        bullet: empty_by_mode(),
        blitz: empty_by_mode(),
        rapid: empty_by_mode(),
        classical: empty_by_mode(),
        correspondence: empty_by_mode(),
    };
    assert(groups_view(groups) =~= spec_empty_groups());
    groups
}

/// A change of one group is a change of one slot.
proof fn lemma_groups_view_update(
    groups: BySpeed<ByMode<PersonalGroup>>,
    speed: Speed,
    mode: Mode,
    group: PersonalGroup,
)
    ensures
        groups_view(
            groups.spec_update(
                speed,
                groups.spec_by_speed(speed).spec_update(mode, group),
            ),
        ) == groups_view(groups).update(group_slot(speed, mode), group@),
        groups_view(groups)[group_slot(speed, mode)] == groups.spec_by_speed(
            speed,
        ).spec_by_mode(mode)@,
        0 <= group_slot(speed, mode) < GROUP_SLOTS,
        slot_speed(group_slot(speed, mode)) == speed,
        slot_mode(group_slot(speed, mode)) == mode,
{
    let updated = groups.spec_update(
        speed,
        groups.spec_by_speed(speed).spec_update(mode, group),
    );
    let k = group_slot(speed, mode);
    assert forall|slot: int| 0 <= slot < GROUP_SLOTS implies groups_view(updated)[slot]
        == groups_view(groups).update(k, group@)[slot] by {
        let sp = slot_speed(slot);
        let rg = slot_mode(slot);
        if slot == k {
            assert(sp == speed && rg == mode);
        } else {
            assert(sp != speed || rg != mode);
        }
    }
    assert(groups_view(updated) =~= groups_view(groups).update(k, group@));
}

/// Whether `games` holds the game `id`.
fn holds(games: &GameRefs, id: GameId) -> (held: bool)
    ensures
        held == spec_holds(game_refs(*games), id),
{
    let len: usize = refs_len(games);
    let mut i: usize = 0;
    while i < len
        invariant
            i <= len == game_refs(*games).len(),
            forall|k: int| 0 <= k < i ==> (#[trigger] game_refs(*games)[k]).1 != id,
        decreases len - i,
    {
        if refs_get(games, i).1 == id {
            return true;
        }
        i = i + 1;
    }
    false
}

/// Reads `num` games into `games`, as [`spec_read_games`] says, raising
/// `max` to the highest index read.
fn read_games(
    reader: &mut ByteReader,
    base: u64,
    max: &mut u64,
    num: u64,
    games: &mut GameRefs,
) -> (r: Result<(), CodecError>)
    requires
        games_wf(game_refs(*old(games)), *old(max)),
    ensures
        match spec_read_games(game_refs(*old(games)), base, *old(max), num as nat, old(reader)@) {
            Ok((read, max2, rest)) => r is Ok && game_refs(*final(games)) == read && *final(max)
                == max2 && final(reader)@ == rest,
            Err(e) => r matches Err(e2) && e2 == e,
        },
        *final(max) >= *old(max),
        games_wf(game_refs(*final(games)), *final(max)),
{
    let mut i: u64 = 0;
    while i < num
        invariant
            i <= num,
            spec_read_games(game_refs(*old(games)), base, *old(max), num as nat, old(reader)@)
                === spec_read_games(game_refs(*games), base, *max, (num - i) as nat, reader@),
            *max >= *old(max),
            games_wf(game_refs(*games), *max),
        decreases num - i,
    {
        let ghost s = reader@;
        let ghost max_head = *max;
        let delta: u64 = match read_uint(reader) {
            Ok(delta) => delta,
            Err(e) => { return Err(e); },
        };
        let idx: u64 = idx_of(base, delta);
        let ghost n = spec_read_uint(s)->Ok_0.1;
        let id = match GameId::read(reader) {
            Ok(id) => id,
            Err(e) => { return Err(e); },
        };
        if idx > *max {
            *max = idx;
        }
        proof {
            let n2 = spec_read_game_id(s.skip(n as int))->Ok_0.1;
            assert(reader@ == s.skip((n + n2) as int));
            lemma_games_wf(game_refs(*games), Seq::empty(), max_head, *max);
        }
        if !holds(games, id) {
            let ghost before = game_refs(*games);
            refs_push(games, idx, id);
            // Counting the games shows that their number is a `usize`.
            let _counted: usize = refs_len(games);
            proof {
                assert forall|k: int| 0 <= k < game_refs(*games).len() implies (
                #[trigger] game_refs(*games)[k]).0 <= *max && game_refs(*games)[k].1.wf() by {
                    if k < before.len() {
                        assert(game_refs(*games)[k] == before[k]);
                    }
                }
            }
        }
        i = i + 1;
    }
    Ok(())
}

/// Reads the groups of a move into `groups`, as [`spec_read_groups`] says,
/// raising `max` to the highest index read.
fn read_groups(
    groups: &mut BySpeed<ByMode<PersonalGroup>>,
    base: u64,
    max: &mut u64,
    reader: &mut ByteReader,
) -> (r: Result<(), CodecError>)
    requires
        groups_wf(groups_view(*old(groups)), *old(max)),
    ensures
        match spec_read_groups(groups_view(*old(groups)), base, *old(max), old(reader)@) {
            Ok((g, m, rest)) => r is Ok && groups_view(*final(groups)) == g && *final(max) == m
                && final(reader)@ == rest,
            Err(e) => r matches Err(e2) && e2 == e,
        },
        *final(max) >= *old(max),
        groups_wf(groups_view(*final(groups)), *final(max)),
{
    loop
        invariant
            spec_read_groups(groups_view(*old(groups)), base, *old(max), old(reader)@)
                === spec_read_groups(groups_view(*groups), base, *max, reader@),
            *max >= *old(max),
            groups_wf(groups_view(*groups), *max),
        decreases reader@.len(),
    {
        let ghost s = reader@;
        let ghost before = *groups;
        let ghost max_before = *max;
        proof {
            lemma_read_groups_len(groups_view(before), base, max_before, s);
            lemma_read_header_len(s);
        }
        let header = match PersonalHeader::read(reader) {
            Ok(header) => header,
            Err(e) => { return Err(e); },
        };
        match header {
            PersonalHeader::End => {
                return Ok(());
            },
            PersonalHeader::Group { mode, speed, num_games } => {
                let ghost n = spec_read_header(s)->Ok_0.1;
                let stats = match Stats::read(reader) {
                    Ok(stats) => stats,
                    Err(e) => { return Err(e); },
                };
                let ghost n2 = spec_read_stats(s.skip(n as int))->Ok_0.1;
                assert(reader@ == s.skip((n + n2) as int));
                let ghost k = group_slot(speed, mode);
                let ghost held = before.spec_by_speed(speed).spec_by_mode(mode);
                proof {
                    lemma_read_stats_len(s.skip(n as int));
                    lemma_read_games_len(held@.games, base, max_before, num_games as nat, reader@);
                    lemma_groups_view_update(before, speed, mode, held);
                    assert(groups_view(before)[k].wf(max_before));
                }
                let group = groups.by_speed_mut(speed).by_mode_mut(mode);
                let read = read_games(reader, base, max, num_games, &mut group.games);
                let fits = group.stats.checked_add(&stats).is_some();
                if read.is_ok() && fits {
                    group.stats.add_assign(&stats);
                }
                proof {
                    lemma_groups_view_update(before, speed, mode, *group);
                    lemma_groups_wf_monotonic(groups_view(before), max_before, *max);
                    assert forall|slot: int| 0 <= slot < GROUP_SLOTS implies (#[trigger] groups_view(
                        *groups,
                    )[slot]).wf(*max) by {
                        if slot != k {
                            assert(groups_view(*groups)[slot] == groups_view(before)[slot]);
                        }
                    }
                }
                if let Err(e) = read {
                    return Err(e);
                }
                if !fits {
                    return Err(CodecError::InvalidData);
                }
            },
        }
    }
}

/// Groups that are valid below one bound are valid below a higher one.
pub proof fn lemma_groups_wf_monotonic(groups: Seq<GroupModel>, max: u64, max2: u64)
    requires
        groups_wf(groups, max),
        max <= max2,
    ensures
        groups_wf(groups, max2),
{
    assert forall|slot: int| 0 <= slot < GROUP_SLOTS implies (#[trigger] groups[slot]).wf(max2) by {
        assert(groups[slot].wf(max));
        lemma_games_wf(groups[slot].games, Seq::empty(), max, max2);
    }
}

/// Appends the bytes of one group, as [`spec_write_group`] says, and gives
/// the highest of `top` and the indices under which games were written.
fn write_group(
    speed: Speed,
    mode: Mode,
    group: &PersonalGroup,
    discarded: u64,
    base: u64,
    top: u64,
    writer: &mut Vec<u8>,
) -> (new_top: u64)
    requires
        group@.wf(u64::MAX),
    ensures
        final(writer)@ == old(writer)@ + spec_write_group(
            speed,
            mode,
            group@,
            discarded,
            base,
        ),
        new_top == spec_top(spec_written(group@.games, discarded), top),
{
    let ghost games = group@.games;
    let len: usize = refs_len(&group.games);
    let single: bool = len == 1;
    let ghost kept = spec_written(games, discarded);
    let mut num_games: usize = 0;
    let mut new_top: u64 = top;
    let mut i: usize = 0;
    assert(games.skip(0) == games);
    while i < len
        invariant
            i <= len == games.len(),
            games == game_refs(group.games),
            num_games <= i,
            num_games + spec_raise(spec_select(games.skip(i as int), discarded, single)).len()
                == kept.len(),
            kept == spec_raise(spec_select(games, discarded, single)),
            spec_top(spec_raise(spec_select(games.skip(i as int), discarded, single)), new_top)
                == spec_top(kept, top),
        decreases len - i,
    {
        let pair = refs_get(&group.games, i);
        let ghost tail = spec_raise(spec_select(games.skip(i + 1), discarded, single));
        proof {
            assert(games.skip(i as int).skip(1) == games.skip(i + 1));
            lemma_raise_select(games.skip(i as int), discarded, single);
        }
        if pair.0 > discarded || single {
            let idx: u64 = raised(pair.0);
            assert((seq![(idx, pair.1)] + tail).skip(1) == tail);
            num_games = num_games + 1;
            if idx > new_top {
                new_top = idx;
            }
        } else {
            assert(Seq::<(u64, GameId)>::empty() + tail == tail);
        }
        i = i + 1;
    }
    if num_games > 0 || !group.stats.is_empty() {
        let header = PersonalHeader::Group { mode, speed, num_games: num_games as u64 };
        header.write(writer);
        group.stats.write(writer);
        let ghost start = writer@;
        i = 0;
        assert(start + spec_write_refs(kept, base) == start + spec_write_refs(kept, base));
        while i < len
            invariant
                i <= len == games.len(),
                games == game_refs(group.games),
                games_wf(games, u64::MAX),
                kept == spec_raise(spec_select(games, discarded, single)),
                writer@ + spec_write_refs(
                    spec_raise(spec_select(games.skip(i as int), discarded, single)),
                    base,
                ) == start + spec_write_refs(kept, base),
            decreases len - i,
        {
            let pair = refs_get(&group.games, i);
            let ghost before = writer@;
            let ghost tail = spec_raise(spec_select(games.skip(i + 1), discarded, single));
            proof {
                assert(games.skip(i as int).skip(1) == games.skip(i + 1));
                assert(games.skip(i as int)[0] == games[i as int]);
                lemma_raise_select(games.skip(i as int), discarded, single);
            }
            if pair.0 > discarded || single {
                let idx: u64 = raised(pair.0);
                write_uint(writer, delta_of(base, idx));
                pair.1.write(writer);
                proof {
                    let sel = seq![(idx, pair.1)] + tail;
                    let one = spec_write_uint(spec_delta(base, idx) as nat) + spec_write_game_id(
                        pair.1,
                    );
                    assert(sel.skip(1) == tail);
                    assert(spec_write_refs(sel, base) == one + spec_write_refs(tail, base));
                    assert(writer@ + spec_write_refs(tail, base) == before + (one + spec_write_refs(
                        tail,
                        base,
                    )));
                }
            } else {
                assert(Seq::<(u64, GameId)>::empty() + tail == tail);
            }
            i = i + 1;
        }
        assert(spec_write_refs(spec_raise(spec_select(games.skip(len as int), discarded, single)), base)
            == Seq::<u8>::empty());
        assert(writer@ == old(writer)@ + (spec_write_header(header) + spec_write_stats(group.stats)
            + spec_write_refs(kept, base)));
    } else {
        assert(writer@ == old(writer)@ + Seq::<u8>::empty());
    }
    new_top
}

/// One move of an entry, with its groups.
struct SubEntry {
    uci: UciMove,
    groups: BySpeed<ByMode<PersonalGroup>>,
}

impl SubEntry {
    spec fn model(self) -> SubEntryModel {
        SubEntryModel { uci: self.uci, groups: groups_view(self.groups) }
    }
}

/// Appends the bytes of one move, as [`spec_write_sub`] says, and gives the
/// highest of `base` and the indices of the games written.
fn write_sub(sub: &SubEntry, discarded: u64, base: u64, writer: &mut Vec<u8>) -> (top: u64)
    requires
        sub.model().wf(u64::MAX),
    ensures
        final(writer)@ == old(writer)@ + spec_write_sub(sub.model(), discarded, base),
        top == spec_top_groups(sub.model().groups, discarded, base, 0),
{
    let ghost groups = groups_view(sub.groups);
    write_uci(writer, &sub.uci);
    let ghost start = writer@;
    let mut slot: usize = 0;
    let mut top: u64 = base;
    assert(start + spec_write_groups(groups, discarded, base, 0) == start + spec_write_groups(
        groups,
        discarded,
        base,
        0,
    ));
    while slot < GROUP_SLOTS
        invariant
            slot <= GROUP_SLOTS,
            groups == groups_view(sub.groups),
            groups_wf(groups, u64::MAX),
            writer@ + spec_write_groups(groups, discarded, base, slot as int) == start
                + spec_write_groups(groups, discarded, base, 0),
            spec_top_groups(groups, discarded, top, slot as int) == spec_top_groups(
                groups,
                discarded,
                base,
                0,
            ),
        decreases GROUP_SLOTS - slot,
    {
        let speed = Speed::from_index(slot / 2);
        let mode = Mode::from_index(slot % 2);
        let group = sub.groups.by_speed(speed).by_mode(mode);
        let ghost before = writer@;
        assert(groups[slot as int] == group@);
        assert(groups[slot as int].wf(u64::MAX));
        top = write_group(speed, mode, group, discarded, base, top, writer);
        proof {
            let one = spec_write_group(speed, mode, group@, discarded, base);
            let tail = spec_write_groups(groups, discarded, base, slot + 1);
            assert(spec_write_groups(groups, discarded, base, slot as int) == one + tail);
            assert(writer@ + tail == before + (one + tail));
        }
        slot = slot + 1;
    }
    let ghost body = writer@;
    PersonalHeader::End.write(writer);
    assert(writer@ == old(writer)@ + (spec_write_uci(sub.uci) + spec_write_groups(
        groups,
        discarded,
        base,
        0,
    ) + spec_write_header(PersonalHeader::End))) by {
        assert(body == start + spec_write_groups(groups, discarded, base, 0)) by {
            assert(spec_write_groups(groups, discarded, base, GROUP_SLOTS as int) == Seq::<
                u8,
            >::empty());
        }
    }
    top
}

/// The statistics of one position in the games of one player.
pub struct PersonalEntry {
    index: FxHashMap<u16, usize>,
    sub_entries: Vec<SubEntry>,
    max_game_idx: u64,
}

impl View for PersonalEntry {
    type V = EntryModel;

    closed spec fn view(&self) -> EntryModel {
        EntryModel {
            subs: Seq::new(self.sub_entries@.len(), |i: int| self.sub_entries@[i].model()),
            max_game_idx: self.max_game_idx,
        }
    }
}

impl PersonalEntry {
    /// How many bytes the entry of one game takes, roughly.
    pub const SIZE_HINT: usize = 14;

    /// Whether the entry is in order: what it holds is valid, see
    /// [`EntryModel::wf`], and is found where it is looked up.
    pub closed spec fn wf(&self) -> bool {
        &&& self@.wf()
        &&& forall|i: int|
            0 <= i < self.sub_entries@.len() ==> self.index@.contains_key(
                (#[trigger] self.sub_entries@[i]).uci.spec_code() as u16,
            ) && self.index@[self.sub_entries@[i].uci.spec_code() as u16] == i
        &&& forall|code: u16| #[trigger]
            self.index@.contains_key(code) ==> self.index@[code] < self.sub_entries@.len()
                && self.sub_entries@[self.index@[code] as int].uci.spec_code() == code
    }

    /// An entry that is in order holds what is valid.
    pub proof fn lemma_wf(&self)
        requires
            self.wf(),
        ensures
            self@.wf(),
    {
    }

    /// The entry without moves.
    pub fn new() -> (entry: PersonalEntry)
        ensures
            entry.wf(),
            entry@ == EntryModel::spec_empty(),
    {
        let entry = PersonalEntry { index: fx_new(), sub_entries: Vec::new(), max_game_idx: 0 };
        assert(entry@.subs =~= Seq::empty());
        entry
    }

    /// The highest game index seen.
    pub fn max_game_idx(&self) -> (max: u64)
        ensures
            max == self@.max_game_idx,
    {
        self.max_game_idx
    }

    /// The number of moves.
    pub fn len(&self) -> (len: usize)
        ensures
            len == self@.subs.len(),
    {
        self.sub_entries.len()
    }

    /// The entry of one game: `uci` was played in it at `speed` in `mode`.
    pub fn new_single(
        uci: UciMove,
        speed: Speed,
        mode: Mode,
        game_id: GameId,
        outcome: Outcome,
    ) -> (entry: PersonalEntry)
        requires
            uci.wf(),
            game_id.wf(),
        ensures
            entry.wf(),
            entry@ == spec_new_single(uci, speed, mode, game_id, outcome),
    {
        let mut sub_entry = empty_groups();
        let ghost empty = sub_entry;
        let stats = Stats::new_single(outcome, 0);
        let single = PersonalGroup::new_single(stats, 0, game_id);
        proof {
            lemma_groups_view_update(empty, speed, mode, single);
        }
        let group = sub_entry.by_speed_mut(speed).by_mode_mut(mode);
        *group = single;
        let mut entry = PersonalEntry::new();
        let code: u16 = uci.code();
        entry.sub_entries.push(SubEntry { uci, groups: sub_entry });
        fx_insert(&mut entry.index, code, 0);
        proof {
            let model = spec_new_single(uci, speed, mode, game_id, outcome);
            assert(entry@.subs =~= model.subs);
            let slot = group_slot(speed, mode);
            assert forall|k: int| 0 <= k < GROUP_SLOTS implies (#[trigger] model.subs[0].groups[k]).wf(
                0,
            ) by {
                if k != slot {
                    assert(model.subs[0].groups[k].games.len() == 0);
                }
            }
            assert(model.subs[0].wf(0));
            lemma_code_round_trip(uci);
        }
        entry
    }

    /// Reads moves with their groups off `reader` until fewer than two bytes
    /// are left, and merges them into this entry, as [`spec_extend`] says. An
    /// entry that could not be read to its end stays in order, but what it
    /// then holds is not stated.
    pub fn extend_from_reader(&mut self, reader: &mut ByteReader) -> (r: Result<(), CodecError>)
        requires
            old(self).wf(),
        ensures
            final(self).wf(),
            match spec_extend(old(self)@, old(reader)@) {
                Ok(e) => r is Ok && final(self)@ == e,
                Err(e) => r matches Err(e2) && e2 == e,
            },
    {
        loop
            invariant
                self.wf(),
                spec_extend(old(self)@, old(reader)@) == spec_extend(self@, reader@),
            decreases reader@.len(),
        {
            proof {
                reveal(spec_extend);
            }
            if reader.remaining() < 2 {
                return Ok(());
            }
            let ghost e0 = self@;
            let ghost s = reader@;
            proof {
                lemma_read_sub_entry_len(e0, s);
            }
            let uci = match read_uci(reader) {
                Ok(uci) => uci,
                Err(e) => { return Err(e); },
            };
            let pos: usize = self.locate(uci);
            let ghost located = *self;
            let base: u64 = self.max_game_idx;
            let mut max: u64 = self.max_game_idx;
            proof {
                assert(located@.subs[pos as int].wf(base));
                assert(located@.subs[pos as int].groups == groups_view(
                    located.sub_entries@[pos as int].groups,
                ));
            }
            let r = read_groups(&mut self.sub_entries[pos].groups, base, &mut max, reader);
            self.max_game_idx = max;
            proof {
                let groups = groups_view(self.sub_entries@[pos as int].groups);
                assert(self.sub_entries@.len() == located.sub_entries@.len());
                assert forall|i: int| 0 <= i < self.sub_entries@.len() implies (
                #[trigger] self.sub_entries@[i]).uci == located.sub_entries@[i].uci by {}
                assert(self@.subs =~= located@.subs.update(
                    pos as int,
                    SubEntryModel { uci, groups },
                ));
                assert forall|i: int| 0 <= i < self@.subs.len() implies (#[trigger] self@.subs[i]).wf(
                    max,
                ) by {
                    if i != pos {
                        assert(located@.subs[i].wf(base));
                        lemma_groups_wf_monotonic(located@.subs[i].groups, base, max);
                    }
                }
                assert forall|i: int, j: int| 0 <= i < j < self@.subs.len() implies (
                #[trigger] self@.subs[i]).uci != (#[trigger] self@.subs[j]).uci by {
                    assert(located@.subs[i].uci != located@.subs[j].uci);
                }
            }
            if let Err(e) = r {
                return Err(e);
            }
        }
    }

    /// Appends the bytes of this entry, as [`spec_write_entry`] says: the
    /// moves in the order in which they first came, and of the games of a
    /// group only those that [`spec_kept`] gives. Read into the entry
    /// without moves, the bytes give each game that was written the index
    /// under which it was written: its own, or 1 for the index 0.
    pub fn write(&self, writer: &mut Vec<u8>)
        requires
            self.wf(),
        ensures
            final(writer)@ == old(writer)@ + spec_write_entry(self@),
    {
        let discarded: u64 = self.max_game_idx.saturating_sub(MAX_PERSONAL_GAMES);
        let ghost subs = self@.subs;
        let ghost whole = spec_write_subs(subs, discarded, 0);
        let mut base: u64 = 0;
        let mut i: usize = 0;
        assert(subs.skip(0) == subs);
        while i < self.sub_entries.len()
            invariant
                i <= self.sub_entries@.len(),
                self.wf(),
                subs == self@.subs,
                whole == spec_write_subs(subs, discarded, 0),
                writer@ + spec_write_subs(subs.skip(i as int), discarded, base) == old(writer)@
                    + whole,
            decreases self.sub_entries@.len() - i,
        {
            let ghost before = writer@;
            let ghost base_before = base;
            proof {
                assert(subs[i as int].wf(self.max_game_idx));
                lemma_groups_wf_monotonic(subs[i as int].groups, self.max_game_idx, u64::MAX);
                assert(subs[i as int] == self.sub_entries@[i as int].model());
            }
            base = write_sub(&self.sub_entries[i], discarded, base, writer);
            proof {
                let one = spec_write_sub(subs[i as int], discarded, base_before);
                let tail = spec_write_subs(subs.skip(i + 1), discarded, base);
                assert(subs.skip(i as int).skip(1) == subs.skip(i + 1));
                assert(subs.skip(i as int)[0] == subs[i as int]);
                assert(writer@ + tail == before + (one + tail));
            }
            i = i + 1;
        }
        assert(spec_write_subs(subs.skip(i as int), discarded, base) == Seq::<u8>::empty());
    }

    /// The results and the games held for `uci` at `speed` in
    /// `mode`; `None` where the entry does not hold `uci`.
    pub fn get_group(&self, uci: UciMove, speed: Speed, mode: Mode) -> (r: Option<
        (Stats, Vec<(u64, GameId)>),
    >)
        requires
            self.wf(),
            uci.wf(),
        ensures
            match r {
                Some((stats, games)) => self@.has(uci) && ({
                    let group = self@.subs[self@.position(uci)].groups[group_slot(
                        speed,
                        mode,
                    )];
                    stats == group.stats && games@ == group.games
                }),
                None => !self@.has(uci),
            },
    {
        let code: u16 = uci.code();
        proof {
            assert forall|i: int| 0 <= i < self.sub_entries@.len() implies (
            #[trigger] self.sub_entries@[i]).uci.wf() by {
                assert(self@.subs[i].wf(self.max_game_idx));
            }
        }
        match fx_get(&self.index, code) {
            None => {
                proof {
                    assert forall|i: int| 0 <= i < self@.subs.len() implies (
                    #[trigger] self@.subs[i]).uci != uci by {
                        assert(self.index@.contains_key(
                            self.sub_entries@[i].uci.spec_code() as u16,
                        ));
                    }
                }
                None
            },
            Some(pos) => {
                proof {
                    lemma_code_round_trip(uci);
                    lemma_code_round_trip(self.sub_entries@[pos as int].uci);
                    assert(self@.subs[pos as int].uci == uci);
                    let chosen = self@.position(uci);
                    assert(self@.subs[chosen].uci == uci);
                    if chosen < pos {
                        assert(self@.subs[chosen].uci != self@.subs[pos as int].uci);
                    } else if chosen > pos {
                        assert(self@.subs[pos as int].uci != self@.subs[chosen].uci);
                    }
                }
                let group = self.sub_entries[pos].groups.by_speed(speed).by_mode(
                    mode,
                );
                proof {
                    lemma_groups_view_update(
                        self.sub_entries@[pos as int].groups,
                        speed,
                        mode,
                        *group,
                    );
                }
                let games = group.games();
                Some((group.stats, games))
            },
        }
    }

    /// The place of `uci` among the moves, which is added without games
    /// where the entry does not hold it.
    fn locate(&mut self, uci: UciMove) -> (pos: usize)
        requires
            old(self).wf(),
            uci.wf(),
        ensures
            final(self).wf(),
            final(self)@ == old(self)@.with_sub(uci),
            pos == final(self)@.position(uci),
            pos < final(self).sub_entries@.len(),
            final(self).sub_entries@[pos as int].uci == uci,
            final(self).max_game_idx == old(self).max_game_idx,
    {
        let code: u16 = uci.code();
        let ghost before = self@;
        proof {
            assert forall|i: int| 0 <= i < self.sub_entries@.len() implies (
            #[trigger] self.sub_entries@[i]).uci.wf() by {
                assert(self@.subs[i].wf(self.max_game_idx));
            }
        }
        match fx_get(&self.index, code) {
            Some(pos) => {
                proof {
                    lemma_code_round_trip(uci);
                    lemma_code_round_trip(self.sub_entries@[pos as int].uci);
                    assert(self@.subs[pos as int].uci == uci);
                    let chosen = self@.position(uci);
                    assert(self@.subs[chosen].uci == uci);
                    if chosen != pos {
                        if chosen < pos {
                            assert(self@.subs[chosen].uci != self@.subs[pos as int].uci);
                        } else {
                            assert(self@.subs[pos as int].uci != self@.subs[chosen].uci);
                        }
                    }
                }
                pos
            },
            None => {
                let pos: usize = self.sub_entries.len();
                proof {
                    assert forall|i: int| 0 <= i < before.subs.len() implies (
                    #[trigger] before.subs[i]).uci != uci by {
                        assert(self.index@.contains_key(
                            self.sub_entries@[i].uci.spec_code() as u16,
                        ));
                    }
                    assert(!before.has(uci));
                }
                self.sub_entries.push(SubEntry { uci, groups: empty_groups() });
                fx_insert(&mut self.index, code, pos);
                proof {
                    let sub = SubEntryModel { uci, groups: spec_empty_groups() };
                    assert(self@.subs =~= before.subs.push(sub));
                    assert(sub.wf(self.max_game_idx)) by {
                        assert forall|slot: int| 0 <= slot < GROUP_SLOTS implies (
                        #[trigger] sub.groups[slot]).wf(self.max_game_idx) by {
                            assert(sub.groups[slot].games.len() == 0);
                        }
                    }
                    assert forall|i: int| 0 <= i < self@.subs.len() implies (
                    #[trigger] self@.subs[i]).wf(self@.max_game_idx) by {
                        if i < before.subs.len() {
                            assert(before.subs[i].wf(before.max_game_idx));
                        }
                    }
                    assert forall|i: int, j: int| 0 <= i < j < self@.subs.len() implies (
                    #[trigger] self@.subs[i]).uci != (#[trigger] self@.subs[j]).uci by {
                        if j < before.subs.len() {
                            assert(before.subs[i].uci != before.subs[j].uci);
                        } else {
                            assert(before.subs[i].uci != uci);
                        }
                    }
                    assert forall|i: int| 0 <= i < self.sub_entries@.len() implies (
                    #[trigger] self.sub_entries@[i]).uci.wf() by {
                        if i < before.subs.len() {
                            assert(self.sub_entries@[i] == old(self).sub_entries@[i]);
                        }
                    }
                    assert forall|i: int| 0 <= i < self.sub_entries@.len() implies self.index@.contains_key(
                        (#[trigger] self.sub_entries@[i]).uci.spec_code() as u16,
                    ) && self.index@[self.sub_entries@[i].uci.spec_code() as u16] == i by {
                        lemma_code_round_trip(self.sub_entries@[i].uci);
                        lemma_code_round_trip(uci);
                        if i < before.subs.len() {
                            assert(self.sub_entries@[i] == old(self).sub_entries@[i]);
                            assert(before.subs[i].uci != uci);
                        }
                    }
                    assert forall|c: u16| #[trigger] self.index@.contains_key(c) implies self.index@[c]
                        < self.sub_entries@.len() && self.sub_entries@[self.index@[c] as int].uci.spec_code()
                        == c by {
                        lemma_code_round_trip(uci);
                        if c != code {
                            assert(old(self).index@.contains_key(c));
                            assert(self.sub_entries@[self.index@[c] as int] == old(
                                self,
                            ).sub_entries@[self.index@[c] as int]);
                        }
                    }
                    assert(self@.subs[pos as int].uci == uci);
                    let chosen = self@.position(uci);
                    assert(self@.subs[chosen].uci == uci);
                    if chosen < pos {
                        assert(before.subs[chosen].uci != uci);
                    }
                }
                pos
            },
        }
    }
}

impl Default for PersonalEntry {
    /// The entry without moves.
    fn default() -> (entry: PersonalEntry)
        ensures
            entry.wf(),
            entry@ == EntryModel::spec_empty(),
    {
        PersonalEntry::new()
    }
}

} // verus!
