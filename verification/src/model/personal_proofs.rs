//! What holds of the encoding of the entries of a player: bytes may be
//! read in one piece or in several, and what was written reads back.

use crate::model::game_id::{
    lemma_read_game_id_prefix, lemma_read_write_game_id, spec_read_game_id, spec_write_game_id,
    GameId,
};
use crate::model::lichess::{
    games_wf, lemma_delta_idx, lemma_raise, lemma_select_len, spec_delta, spec_idx, spec_kept,
    spec_raise, spec_select, spec_top, spec_write_refs, spec_written, GroupModel,
};
use crate::model::lichess_proofs::{lemma_select_below, lemma_top_bound, lemma_written_again};
use crate::model::personal::{
    group_slot, groups_wf, lemma_groups_wf_monotonic, lemma_read_games_len,
    lemma_read_header_len, lemma_read_stats_len, lemma_read_sub_entry_len, slot_mode,
    slot_speed, spec_discarded, spec_empty_groups, spec_extend, spec_header_byte, spec_holds,
    spec_read_games, spec_read_groups, spec_read_header, spec_read_sub_entry, spec_top_groups,
    spec_write_entry, spec_write_group, spec_write_groups, spec_write_header, spec_write_sub,
    spec_write_subs, EntryModel, PersonalHeader, SubEntryModel, GROUP_SLOTS,
};
use crate::model::personal_merge::spec_extend_all;
use crate::model::reader::{lemma_read_fixed_prefix, CodecError};
use crate::model::speed::{Mode, Speed};
use crate::model::stats::{
    lemma_read_stats_prefix, lemma_read_write_stats, spec_read_stats, spec_write_stats, Stats,
};
use crate::model::uci::{
    lemma_read_uci_prefix, lemma_read_write_uci, spec_read_uci, spec_write_uci, UciMove,
};
use crate::model::uint::{
    lemma_read_uint_len, lemma_read_uint_prefix, lemma_read_write_uint, spec_read_uint,
    spec_write_uint,
};
use vstd::prelude::*;

verus! {

/// A header that was read off `s` is read off `s + t` too, and leaves `t`
/// more.
pub proof fn lemma_read_header_prefix(s: Seq<u8>, t: Seq<u8>)
    ensures
        spec_read_header(s) matches Ok((v, n)) ==> spec_read_header(s + t) == spec_read_header(s)
            && 1 <= n <= s.len() && (s + t).skip(n as int) == s.skip(n as int) + t,
{
    if let Ok((v, n)) = spec_read_header(s) {
        lemma_read_header_len(s);
        lemma_read_fixed_prefix(s, t);
        lemma_read_uint_prefix(s.skip(1), t);
        assert((s + t).skip(n as int) == s.skip(n as int) + t);
    }
}

/// Games that were read off `s` are read off `s + t` too, and leave `t`
/// more.
pub proof fn lemma_read_games_prefix(
    acc: Seq<(u64, GameId)>,
    base: u64,
    max: u64,
    num: nat,
    s: Seq<u8>,
    t: Seq<u8>,
)
    ensures
        spec_read_games(acc, base, max, num, s) matches Ok((games, max2, rest))
            ==> spec_read_games(acc, base, max, num, s + t) == Ok::<
            (Seq<(u64, GameId)>, u64, Seq<u8>),
            CodecError,
        >((games, max2, rest + t)),
    decreases num,
{
    if num > 0 {
        if let Ok((delta, n)) = spec_read_uint(s) {
            lemma_read_uint_prefix(s, t);
            lemma_read_uint_len(s);
            let idx = spec_idx(base, delta);
            let s1 = s.skip(n as int);
            if let Ok((id, n2)) = spec_read_game_id(s1) {
                lemma_read_game_id_prefix(s1, t);
                assert(s.skip((n + n2) as int) == s1.skip(n2 as int));
                assert((s + t).skip((n + n2) as int) == s.skip((n + n2) as int) + t);
                lemma_read_games_prefix(
                    if spec_holds(acc, id) {
                        acc
                    } else {
                        acc.push((idx, id))
                    },
                    base,
                    if idx > max {
                        idx
                    } else {
                        max
                    },
                    (num - 1) as nat,
                    s.skip((n + n2) as int),
                    t,
                );
            }
        }
    }
}

/// The groups of a move that were read off `s` are read off `s + t` too, and
/// leave `t` more.
pub proof fn lemma_read_groups_prefix(
    groups: Seq<GroupModel>,
    base: u64,
    max: u64,
    s: Seq<u8>,
    t: Seq<u8>,
)
    ensures
        spec_read_groups(groups, base, max, s) matches Ok((g, m, rest)) ==> spec_read_groups(
            groups,
            base,
            max,
            s + t,
        ) == Ok::<(Seq<GroupModel>, u64, Seq<u8>), CodecError>((g, m, rest + t)),
    decreases s.len(),
{
    if spec_read_groups(groups, base, max, s) is Ok {
        lemma_read_header_prefix(s, t);
        match spec_read_header(s) {
            Ok((PersonalHeader::Group { mode, speed, num_games }, n)) => {
                let s1 = s.skip(n as int);
                lemma_read_stats_prefix(s1, t);
                let (stats, n2) = spec_read_stats(s1)->Ok_0;
                let s2 = s.skip((n + n2) as int);
                assert(s2 == s1.skip(n2 as int));
                assert((s + t).skip((n + n2) as int) == s2 + t);
                let slot = group_slot(speed, mode);
                let held = groups[slot].games;
                lemma_read_games_prefix(held, base, max, num_games as nat, s2, t);
                lemma_read_games_len(held, base, max, num_games as nat, s2);
                let (games, max2, rest) = spec_read_games(
                    held,
                    base,
                    max,
                    num_games as nat,
                    s2,
                )->Ok_0;
                lemma_read_groups_prefix(
                    groups.update(
                        slot,
                        GroupModel { stats: groups[slot].stats.spec_add(stats), games },
                    ),
                    base,
                    max2,
                    rest,
                    t,
                );
            },
            _ => {},
        }
    }
}

/// A move that was read off `s` is read off `s + t` too, and leaves `t`
/// more.
pub proof fn lemma_read_sub_entry_prefix(e: EntryModel, s: Seq<u8>, t: Seq<u8>)
    ensures
        spec_read_sub_entry(e, s) matches Ok((e2, rest)) ==> spec_read_sub_entry(e, s + t) == Ok::<
            (EntryModel, Seq<u8>),
            CodecError,
        >((e2, rest + t)),
{
    if let Ok((uci, n)) = spec_read_uci(s) {
        lemma_read_uci_prefix(s, t);
        let with = e.with_sub(uci);
        let pos = with.position(uci);
        lemma_read_groups_prefix(
            with.subs[pos].groups,
            e.max_game_idx,
            e.max_game_idx,
            s.skip(n as int),
            t,
        );
    }
}

/// Whether `s` is read into `e` to its last byte: it holds whole moves and
/// nothing after them.
pub open spec fn spec_complete(e: EntryModel, s: Seq<u8>) -> bool
    decreases s.len(),
{
    if s.len() == 0 {
        true
    } else if s.len() < 2 {
        false
    } else {
        match spec_read_sub_entry(e, s) {
            Err(err) => false,
            Ok((e2, rest)) => {
                proof {
                    lemma_read_sub_entry_len(e, s);
                }
                spec_complete(e2, rest)
            },
        }
    }
}

/// Bytes that hold whole moves are read without error.
pub proof fn lemma_complete_is_ok(e: EntryModel, s: Seq<u8>)
    requires
        spec_complete(e, s),
    ensures
        spec_extend(e, s) is Ok,
    decreases s.len(),
{
    reveal(spec_extend);
    if s.len() >= 2 {
        lemma_read_sub_entry_len(e, s);
        let (e2, rest) = spec_read_sub_entry(e, s)->Ok_0;
        lemma_complete_is_ok(e2, rest);
    }
}

/// Reading the bytes `a` and then the bytes `b` into an entry gives what
/// reading `a` followed by `b` in one piece gives, where `a` holds whole
/// moves: appending bytes merges entries.
pub proof fn lemma_extend_concat(e: EntryModel, a: Seq<u8>, b: Seq<u8>)
    requires
        spec_complete(e, a),
    ensures
        spec_extend(e, a) matches Ok(merged) && spec_extend(e, a + b) == spec_extend(merged, b),
    decreases a.len(),
{
    reveal(spec_extend);
    if a.len() == 0 {
        assert(a + b == b);
    } else {
        lemma_read_sub_entry_len(e, a);
        lemma_read_sub_entry_prefix(e, a, b);
        let (e2, rest) = spec_read_sub_entry(e, a)->Ok_0;
        lemma_extend_concat(e2, rest, b);
    }
}

/// Whole moves followed by whole moves are whole moves.
pub proof fn lemma_complete_concat(e: EntryModel, a: Seq<u8>, b: Seq<u8>)
    requires
        spec_complete(e, a),
        spec_complete(spec_extend(e, a)->Ok_0, b),
    ensures
        spec_complete(e, a + b),
    decreases a.len(),
{
    reveal(spec_extend);
    if a.len() == 0 {
        assert(a + b == b);
    } else {
        lemma_read_sub_entry_len(e, a);
        lemma_read_sub_entry_prefix(e, a, b);
        let (e2, rest) = spec_read_sub_entry(e, a)->Ok_0;
        lemma_complete_concat(e2, rest, b);
    }
}

/// Three byte strings of whole moves merge into an entry to the same
/// result however they are grouped: one after the other, the first two
/// joined, the last two joined, or all three joined.
#[verifier::rlimit(100)]
pub proof fn lemma_extend_grouping(e: EntryModel, a: Seq<u8>, b: Seq<u8>, c: Seq<u8>)
    requires
        spec_complete(e, a),
        spec_complete(spec_extend(e, a)->Ok_0, b),
    ensures
        spec_extend(e, a) matches Ok(ea) && spec_extend(ea, b) matches Ok(eab) && spec_extend(
            e,
            a + b,
        ) == Ok::<EntryModel, CodecError>(eab) && spec_extend(e, (a + b) + c) == spec_extend(
            eab,
            c,
        ) && spec_extend(e, a + (b + c)) == spec_extend(eab, c) && spec_extend(ea, b + c)
            == spec_extend(eab, c),
{
    lemma_extend_concat(e, a, b);
    let ea = spec_extend(e, a)->Ok_0;
    lemma_complete_is_ok(ea, b);
    lemma_extend_concat(ea, b, c);
    lemma_complete_concat(e, a, b);
    lemma_extend_concat(e, a + b, c);
    lemma_extend_concat(e, a, b + c);
    assert((a + b) + c == a + (b + c));
}

/// Merging two operands into an entry, one after the other, gives what
/// reading the one followed by the other gives, where the first holds whole
/// moves: the store may join operands before it merges them.
pub proof fn lemma_merge_joined(e: EntryModel, a: Vec<u8>, b: Vec<u8>)
    requires
        spec_complete(e, a@),
    ensures
        spec_extend_all(e, seq![a, b]) == spec_extend(e, a@ + b@),
{
    lemma_extend_concat(e, a@, b@);
    let operands = seq![a, b];
    let merged = spec_extend(e, a@)->Ok_0;
    assert(operands.skip(1)[0] == b);
    assert(operands.skip(1).skip(1).len() == 0);
    assert(spec_extend_all(merged, operands.skip(1)) == spec_extend(merged, b@)) by {
        match spec_extend(merged, b@) {
            Ok(e2) => {
                assert(spec_extend_all(e2, operands.skip(1).skip(1)) == Ok::<
                    EntryModel,
                    CodecError,
                >(e2));
            },
            Err(err) => {},
        }
    }
}

/// Whether no two of `games` are the same game.
pub open spec fn spec_distinct_ids(games: Seq<(u64, GameId)>) -> bool {
    forall|i: int, j: int|
        0 <= i < j < games.len() ==> (#[trigger] games[i]).1 != (#[trigger] games[j]).1
}

/// Whether no group of `groups` has a game twice among those that are
/// written.
pub open spec fn spec_kept_once(groups: Seq<GroupModel>, discarded: u64) -> bool {
    forall|k: int|
        0 <= k < GROUP_SLOTS ==> spec_distinct_ids(
            spec_written((#[trigger] groups[k]).games, discarded),
        )
}

/// Games under the indices under which they are written are the same
/// games: none is there twice where none was.
pub proof fn lemma_raise_once(games: Seq<(u64, GameId)>)
    requires
        spec_distinct_ids(games),
    ensures
        spec_distinct_ids(spec_raise(games)),
{
    let raised = spec_raise(games);
    assert forall|i: int, j: int| 0 <= i < j < raised.len() implies (#[trigger] raised[i]).1 != (
    #[trigger] raised[j]).1 by {
        assert(games[i].1 != games[j].1);
    }
}

/// Whether no group of `groups` holds a game twice.
pub open spec fn spec_groups_once(groups: Seq<GroupModel>) -> bool {
    forall|slot: int|
        0 <= slot < groups.len() ==> spec_distinct_ids((#[trigger] groups[slot]).games)
}

/// Whether no group of `e` holds a game twice.
pub open spec fn spec_games_once(e: EntryModel) -> bool {
    forall|i: int| 0 <= i < e.subs.len() ==> spec_groups_once((#[trigger] e.subs[i]).groups)
}

/// Each selected game is one of the games, and no game is selected twice
/// where none is held twice.
pub proof fn lemma_select_once(games: Seq<(u64, GameId)>, discarded: u64, single: bool)
    ensures
        forall|i: int|
            0 <= i < spec_select(games, discarded, single).len() ==> exists|j: int|
                0 <= j < games.len() && #[trigger] spec_select(games, discarded, single)[i]
                    == games[j],
        spec_distinct_ids(games) ==> spec_distinct_ids(spec_select(games, discarded, single)),
    decreases games.len(),
{
    if games.len() > 0 {
        let tail = games.skip(1);
        lemma_select_once(tail, discarded, single);
        let head = if games[0].0 > discarded || single {
            seq![games[0]]
        } else {
            Seq::empty()
        };
        let rest = spec_select(tail, discarded, single);
        let sel = spec_select(games, discarded, single);
        assert(sel == head + rest);
        assert forall|i: int| 0 <= i < sel.len() implies exists|j: int|
            0 <= j < games.len() && #[trigger] sel[i] == games[j] by {
            if i < head.len() {
                assert(sel[i] == games[0]);
            } else {
                let k = i - head.len();
                assert(sel[i] == rest[k]);
                let j = choose|j: int| 0 <= j < tail.len() && rest[k] == tail[j];
                assert(tail[j] == games[j + 1]);
            }
        }
        if spec_distinct_ids(games) {
            assert forall|a: int, b: int| 0 <= a < b < tail.len() implies (#[trigger] tail[a]).1 != (
            #[trigger] tail[b]).1 by {
                assert(tail[a] == games[a + 1] && tail[b] == games[b + 1]);
            }
            assert forall|a: int, b: int| 0 <= a < b < sel.len() implies (#[trigger] sel[a]).1 != (
            #[trigger] sel[b]).1 by {
                if a < head.len() {
                    let k = b - head.len();
                    assert(sel[b] == rest[k]);
                    let j = choose|j: int| 0 <= j < tail.len() && rest[k] == tail[j];
                    assert(tail[j] == games[j + 1]);
                    assert(games[0].1 != games[j + 1].1);
                } else {
                    assert(sel[a] == rest[a - head.len()] && sel[b] == rest[b - head.len()]);
                }
            }
        }
    }
}

/// What a group is after it was written and read back: its results, and
/// the games that are written, under the indices under which they are
/// written; nothing where the group is not written at all.
pub open spec fn spec_compact_group(group: GroupModel, discarded: u64) -> GroupModel {
    let kept = spec_written(group.games, discarded);
    if kept.len() > 0 || !group.stats.spec_is_empty() {
        GroupModel { stats: group.stats, games: kept }
    } else {
        GroupModel::spec_empty()
    }
}

/// Games that are written for the highest index `base`, no two of them the
/// same and none of them held yet, read back, into an entry with that
/// highest index, under their own indices, whatever follows them.
pub proof fn lemma_read_written_games(
    acc: Seq<(u64, GameId)>,
    base: u64,
    max: u64,
    games: Seq<(u64, GameId)>,
    rest: Seq<u8>,
)
    requires
        games_wf(games, u64::MAX),
        spec_distinct_ids(games),
        forall|i: int| 0 <= i < games.len() ==> !spec_holds(acc, (#[trigger] games[i]).1),
    ensures
        spec_read_games(acc, base, max, games.len(), spec_write_refs(games, base) + rest) == Ok::<
            (Seq<(u64, GameId)>, u64, Seq<u8>),
            CodecError,
        >((acc + games, spec_top(games, max), rest)),
    decreases games.len(),
{
    if games.len() == 0 {
        assert(acc + games == acc);
        assert(spec_write_refs(games, base) + rest == rest);
    } else {
        let g = games[0];
        let tail = games.skip(1);
        let delta = spec_delta(base, g.0);
        let a = spec_write_uint(delta as nat);
        let b = spec_write_game_id(g.1);
        let t2 = spec_write_refs(tail, base) + rest;
        let t1 = b + t2;
        let s = spec_write_refs(games, base) + rest;
        assert(s == a + t1) by {
            assert(s =~= a + t1);
        }
        assert(g.1.wf());
        lemma_read_write_uint(delta, t1);
        lemma_read_write_game_id(g.1, t2);
        lemma_delta_idx(base, g.0);
        assert(s.skip((a.len() + 6) as int) == t2) by {
            assert(s.skip((a.len() + 6) as int) =~= t1.skip(6));
        }
        let acc2 = acc.push(g);
        assert(!spec_holds(acc, g.1));
        assert forall|i: int| 0 <= i < tail.len() implies (#[trigger] tail[i]).0 <= u64::MAX
            && tail[i].1.wf() by {
            assert(tail[i] == games[i + 1]);
        }
        assert forall|i: int, j: int| 0 <= i < j < tail.len() implies (#[trigger] tail[i]).1 != (
        #[trigger] tail[j]).1 by {
            assert(tail[i] == games[i + 1] && tail[j] == games[j + 1]);
        }
        assert forall|i: int| 0 <= i < tail.len() implies !spec_holds(
            acc2,
            (#[trigger] tail[i]).1,
        ) by {
            assert(tail[i] == games[i + 1]);
            assert(!spec_holds(acc, games[i + 1].1));
            assert(games[0].1 != games[i + 1].1);
            if spec_holds(acc2, tail[i].1) {
                let k = choose|k: int| 0 <= k < acc2.len() && (#[trigger] acc2[k]).1 == tail[i].1;
                if k < acc.len() {
                    assert(acc[k].1 == tail[i].1);
                }
            }
        }
        lemma_read_written_games(
            acc2,
            base,
            if g.0 > max {
                g.0
            } else {
                max
            },
            tail,
            rest,
        );
        assert(acc2 + tail == acc + games);
    }
}

/// A header that is written reads back as itself, whatever follows it.
pub proof fn lemma_read_write_header(header: PersonalHeader, rest: Seq<u8>)
    ensures
        spec_read_header(spec_write_header(header) + rest) == Ok::<(PersonalHeader, nat), CodecError>(
            (header, spec_write_header(header).len()),
        ),
        (spec_write_header(header) + rest).skip(spec_write_header(header).len() as int) == rest,
{
    let w = spec_write_header(header);
    let s = w + rest;
    assert(s.skip(w.len() as int) == rest);
    match header {
        PersonalHeader::End => {
            assert(s[0] == 0u8);
        },
        PersonalHeader::Group { mode, speed, num_games } => {
            let byte = spec_header_byte(speed, mode, num_games);
            assert(0 < byte < 256);
            assert(s[0] == byte as u8);
            assert(byte % 8 == speed.spec_index() + 1);
            assert(byte / 8 % 2 == mode.spec_index());
            assert(Speed::spec_from_index(speed.spec_index()) == speed);
            assert(Mode::spec_from_index(mode.spec_index()) == mode);
            if num_games >= 15 {
                assert(byte / 16 == 15);
                assert(s.skip(1) == spec_write_uint(num_games as nat) + rest);
                lemma_read_write_uint(num_games, rest);
            } else {
                assert(byte / 16 == num_games);
            }
        },
    }
}

/// A group that is written with its header, its results and its games
/// reads into the group of its slot, where that holds nothing yet.
#[verifier::rlimit(100)]
proof fn lemma_read_group_bytes(
    cur: Seq<GroupModel>,
    slot: int,
    stats: Stats,
    games: Seq<(u64, GameId)>,
    base: u64,
    max: u64,
    rest: Seq<u8>,
)
    requires
        0 <= slot < GROUP_SLOTS,
        cur.len() == GROUP_SLOTS,
        cur[slot] == GroupModel::spec_empty(),
        games_wf(games, u64::MAX),
        spec_distinct_ids(games),
    ensures
        spec_read_groups(
            cur,
            base,
            max,
            spec_write_header(
                PersonalHeader::Group {
                    mode: slot_mode(slot),
                    speed: slot_speed(slot),
                    num_games: games.len() as u64,
                },
            ) + (spec_write_stats(stats) + (spec_write_refs(games, base) + rest)),
        ) == spec_read_groups(
            cur.update(slot, GroupModel { stats, games }),
            base,
            spec_top(games, max),
            rest,
        ),
{
    let speed = slot_speed(slot);
    let mode = slot_mode(slot);
    let header = PersonalHeader::Group { mode, speed, num_games: games.len() as u64 };
    let h = spec_write_header(header);
    let st = spec_write_stats(stats);
    let t2 = spec_write_refs(games, base) + rest;
    let t1 = st + t2;
    let s = h + t1;
    lemma_read_write_header(header, t1);
    lemma_read_write_stats(stats, t2);
    assert(s.skip((h.len() + st.len()) as int) == t2) by {
        assert(s.skip((h.len() + st.len()) as int) =~= t1.skip(st.len() as int));
    }
    lemma_read_written_games(Seq::empty(), base, max, games, rest);
    assert(group_slot(speed, mode) == slot);
    assert(cur[slot].games == Seq::<(u64, GameId)>::empty());
    assert(Seq::<(u64, GameId)>::empty() + games == games);
    assert(cur[slot].stats.can_add(stats));
    assert(cur[slot].stats.spec_add(stats) == stats);
}

/// Reading a group that was written adds its results and the games that were
/// written, under the indices under which they were written, to the group of
/// its slot.
pub proof fn lemma_read_written_group(
    cur: Seq<GroupModel>,
    group: GroupModel,
    discarded: u64,
    base: u64,
    max: u64,
    slot: int,
    rest: Seq<u8>,
)
    requires
        0 <= slot < GROUP_SLOTS,
        cur.len() == GROUP_SLOTS,
        cur[slot] == GroupModel::spec_empty(),
        games_wf(group.games, u64::MAX),
        spec_distinct_ids(spec_written(group.games, discarded)),
        spec_written(group.games, discarded).len() > 0 || !group.stats.spec_is_empty(),
    ensures
        spec_read_groups(
            cur,
            base,
            max,
            spec_write_group(slot_speed(slot), slot_mode(slot), group, discarded, base) + rest,
        ) == spec_read_groups(
            cur.update(slot, spec_compact_group(group, discarded)),
            base,
            spec_top(spec_written(group.games, discarded), max),
            rest,
        ),
{
    let written = spec_written(group.games, discarded);
    lemma_select_len(group.games, discarded, group.games.len() == 1);
    lemma_raise(spec_kept(group.games, discarded));
    let header = PersonalHeader::Group {
        mode: slot_mode(slot),
        speed: slot_speed(slot),
        num_games: written.len() as u64,
    };
    let h = spec_write_header(header);
    let st = spec_write_stats(group.stats);
    let refs = spec_write_refs(written, base);
    assert(spec_write_group(slot_speed(slot), slot_mode(slot), group, discarded, base) + rest
        == h + (st + (refs + rest))) by {
        assert((h + st + refs) + rest =~= h + (st + (refs + rest)));
    }
    lemma_read_group_bytes(cur, slot, group.stats, written, base, max, rest);
}

/// The groups `cur`, with those from `slot` on replaced by what `groups`
/// holds there after writing and reading back.
pub open spec fn spec_merged_groups(
    cur: Seq<GroupModel>,
    groups: Seq<GroupModel>,
    discarded: u64,
    slot: int,
) -> Seq<GroupModel> {
    Seq::new(
        GROUP_SLOTS as nat,
        |k: int|
            if k >= slot {
                spec_compact_group(groups[k], discarded)
            } else {
                cur[k]
            },
    )
}

/// What a move is after it was written and read back.
pub open spec fn spec_compact_sub(sub: SubEntryModel, discarded: u64) -> SubEntryModel {
    SubEntryModel {
        uci: sub.uci,
        groups: Seq::new(GROUP_SLOTS as nat, |k: int| spec_compact_group(sub.groups[k], discarded)),
    }
}

/// The entry `e` after the bytes of `sub`, written for the highest index of
/// `e`, were read into it, where `e` does not hold the move of `sub`.
pub open spec fn spec_compact_step(e: EntryModel, sub: SubEntryModel, discarded: u64) -> EntryModel {
    EntryModel {
        subs: e.subs.push(spec_compact_sub(sub, discarded)),
        max_game_idx: spec_top_groups(sub.groups, discarded, e.max_game_idx, 0),
    }
}

/// The entry `e` after the bytes of `subs` were read into it, one after
/// the other.
pub open spec fn spec_compact_into(e: EntryModel, subs: Seq<SubEntryModel>, discarded: u64) -> EntryModel
    decreases subs.len(),
{
    if subs.len() == 0 {
        e
    } else {
        spec_compact_into(spec_compact_step(e, subs[0], discarded), subs.skip(1), discarded)
    }
}

/// What an entry is after it was written and read back into the entry
/// without moves: the same moves in their order, each group with its results
/// and with the games that were written, under their indices.
pub open spec fn spec_compact(e: EntryModel) -> EntryModel {
    spec_compact_into(EntryModel::spec_empty(), e.subs, spec_discarded(e.max_game_idx))
}

/// The groups of a move that are written from `slot` on, with the header
/// that ends the move, read back into the slots from `slot` on.
#[verifier::rlimit(100)]
pub proof fn lemma_read_written_groups(
    cur: Seq<GroupModel>,
    groups: Seq<GroupModel>,
    discarded: u64,
    base: u64,
    max: u64,
    slot: int,
    rest: Seq<u8>,
)
    requires
        0 <= slot <= GROUP_SLOTS,
        cur.len() == GROUP_SLOTS,
        groups_wf(groups, u64::MAX),
        forall|k: int| slot <= k < GROUP_SLOTS ==> #[trigger] cur[k] == GroupModel::spec_empty(),
        spec_kept_once(groups, discarded),
    ensures
        spec_read_groups(
            cur,
            base,
            max,
            spec_write_groups(groups, discarded, base, slot) + (seq![0u8] + rest),
        ) == Ok::<(Seq<GroupModel>, u64, Seq<u8>), CodecError>(
            (
                spec_merged_groups(cur, groups, discarded, slot),
                spec_top_groups(groups, discarded, max, slot),
                rest,
            ),
        ),
    decreases GROUP_SLOTS - slot,
{
    let end = seq![0u8] + rest;
    let s = spec_write_groups(groups, discarded, base, slot) + end;
    if slot == GROUP_SLOTS {
        assert(s == end);
        assert(end[0] == 0u8);
        assert(end.skip(1) == rest);
        assert(spec_merged_groups(cur, groups, discarded, slot) == cur);
    } else {
        let g = groups[slot];
        let kept = spec_written(g.games, discarded);
        let one = spec_write_group(slot_speed(slot), slot_mode(slot), g, discarded, base);
        let tail = spec_write_groups(groups, discarded, base, slot + 1) + end;
        assert(s == one + tail) by {
            assert(s =~= one + tail);
        }
        assert(g.wf(u64::MAX));
        assert(spec_distinct_ids(kept));
        if kept.len() > 0 || !g.stats.spec_is_empty() {
            let cur2 = cur.update(slot, spec_compact_group(g, discarded));
            lemma_read_written_group(cur, g, discarded, base, max, slot, tail);
            lemma_read_written_groups(
                cur2,
                groups,
                discarded,
                base,
                spec_top(kept, max),
                slot + 1,
                rest,
            );
            assert(spec_merged_groups(cur2, groups, discarded, slot + 1) == spec_merged_groups(
                cur,
                groups,
                discarded,
                slot,
            ));
        } else {
            assert(one + tail == tail);
            lemma_read_written_groups(cur, groups, discarded, base, max, slot + 1, rest);
            assert(spec_merged_groups(cur, groups, discarded, slot + 1) == spec_merged_groups(
                cur,
                groups,
                discarded,
                slot,
            ));
        }
    }
}

/// A move that is written for the highest index of an entry that does not
/// hold it reads back into that entry as a new move after the others.
#[verifier::rlimit(100)]
pub proof fn lemma_read_written_sub(e: EntryModel, sub: SubEntryModel, discarded: u64, rest: Seq<u8>)
    requires
        !e.has(sub.uci),
        sub.wf(u64::MAX),
        spec_kept_once(sub.groups, discarded),
    ensures
        spec_read_sub_entry(e, spec_write_sub(sub, discarded, e.max_game_idx) + rest) == Ok::<
            (EntryModel, Seq<u8>),
            CodecError,
        >((spec_compact_step(e, sub, discarded), rest)),
        spec_write_sub(sub, discarded, e.max_game_idx).len() >= 3,
{
    let base = e.max_game_idx;
    let u = spec_write_uci(sub.uci);
    let gs = spec_write_groups(sub.groups, discarded, base, 0);
    let end = seq![0u8] + rest;
    let t1 = gs + end;
    let s = spec_write_sub(sub, discarded, base) + rest;
    assert(spec_write_header(PersonalHeader::End) == seq![0u8]);
    assert(s == u + t1) by {
        assert(s =~= u + t1);
    }
    lemma_read_write_uci(sub.uci, t1);
    let with = e.with_sub(sub.uci);
    let len = e.subs.len() as int;
    assert(with.subs == e.subs.push(SubEntryModel { uci: sub.uci, groups: spec_empty_groups() }));
    assert(with.subs[len].uci == sub.uci);
    let pos = with.position(sub.uci);
    assert(pos == len) by {
        assert(0 <= pos < with.subs.len() && with.subs[pos].uci == sub.uci);
        if pos < len {
            assert(e.subs[pos].uci == sub.uci);
        }
    }
    let empty = spec_empty_groups();
    lemma_read_written_groups(empty, sub.groups, discarded, base, base, 0, rest);
    assert(spec_merged_groups(empty, sub.groups, discarded, 0) == spec_compact_sub(
        sub,
        discarded,
    ).groups);
    assert(with.subs.update(pos, spec_compact_sub(sub, discarded)) == e.subs.push(
        spec_compact_sub(sub, discarded),
    ));
}

/// Moves that are written for the highest index of an entry that holds none
/// of them read back into that entry as new moves in their order; and the
/// bytes written hold whole moves.
#[verifier::rlimit(100)]
pub proof fn lemma_read_written_subs(e: EntryModel, subs: Seq<SubEntryModel>, discarded: u64)
    requires
        forall|i: int| 0 <= i < subs.len() ==> (#[trigger] subs[i]).wf(u64::MAX),
        forall|i: int, j: int|
            0 <= i < j < subs.len() ==> (#[trigger] subs[i]).uci != (#[trigger] subs[j]).uci,
        forall|i: int| 0 <= i < subs.len() ==> !e.has((#[trigger] subs[i]).uci),
        forall|i: int| 0 <= i < subs.len() ==> spec_kept_once((#[trigger] subs[i]).groups, discarded),
    ensures
        spec_extend(e, spec_write_subs(subs, discarded, e.max_game_idx)) == Ok::<
            EntryModel,
            CodecError,
        >(spec_compact_into(e, subs, discarded)),
        spec_complete(e, spec_write_subs(subs, discarded, e.max_game_idx)),
    decreases subs.len(),
{
    reveal(spec_extend);
    if subs.len() > 0 {
        let sub = subs[0];
        let tail = subs.skip(1);
        let e2 = spec_compact_step(e, sub, discarded);
        let rest = spec_write_subs(tail, discarded, e2.max_game_idx);
        lemma_read_written_sub(e, sub, discarded, rest);
        assert forall|i: int| 0 <= i < tail.len() implies !e2.has((#[trigger] tail[i]).uci) by {
            assert(tail[i] == subs[i + 1]);
            assert(!e.has(subs[i + 1].uci));
            if e2.has(tail[i].uci) {
                let k = choose|k: int|
                    0 <= k < e2.subs.len() && (#[trigger] e2.subs[k]).uci == tail[i].uci;
                if k < e.subs.len() {
                    assert(e.subs[k].uci == tail[i].uci);
                } else {
                    assert(subs[0].uci != subs[i + 1].uci);
                }
            }
        }
        assert forall|i: int| 0 <= i < tail.len() implies (#[trigger] tail[i]).wf(u64::MAX)
            && spec_kept_once(tail[i].groups, discarded) by {
            assert(tail[i] == subs[i + 1]);
        }
        assert(spec_kept_once(subs[0].groups, discarded));
        assert forall|i: int, j: int| 0 <= i < j < tail.len() implies (#[trigger] tail[i]).uci != (
        #[trigger] tail[j]).uci by {
            assert(tail[i] == subs[i + 1] && tail[j] == subs[j + 1]);
        }
        lemma_read_written_subs(e2, tail, discarded);
    }
}

/// An entry that is written and read back into the entry without moves is
/// the entry that [`spec_compact`] describes; and the bytes written hold
/// whole moves.
pub proof fn lemma_read_written_entry(e: EntryModel)
    requires
        e.wf(),
        spec_games_once(e),
    ensures
        spec_extend(EntryModel::spec_empty(), spec_write_entry(e)) == Ok::<EntryModel, CodecError>(
            spec_compact(e),
        ),
        spec_complete(EntryModel::spec_empty(), spec_write_entry(e)),
{
    let empty = EntryModel::spec_empty();
    let discarded = spec_discarded(e.max_game_idx);
    assert forall|i: int| 0 <= i < e.subs.len() implies (#[trigger] e.subs[i]).wf(u64::MAX)
        && spec_kept_once(e.subs[i].groups, discarded) by {
        assert(e.subs[i].wf(e.max_game_idx));
        lemma_groups_wf_monotonic(e.subs[i].groups, e.max_game_idx, u64::MAX);
        assert(spec_groups_once(e.subs[i].groups));
        assert forall|k: int| 0 <= k < GROUP_SLOTS implies spec_distinct_ids(
            spec_written((#[trigger] e.subs[i].groups[k]).games, discarded),
        ) by {
            let games = e.subs[i].groups[k].games;
            assert(spec_distinct_ids(games));
            lemma_select_once(games, discarded, games.len() == 1);
            lemma_raise_once(spec_kept(games, discarded));
        }
    }
    lemma_read_written_subs(empty, e.subs, spec_discarded(e.max_game_idx));
}

/// The highest of `max` and the indices of the games that are written of
/// `subs`.
pub open spec fn spec_top_subs(subs: Seq<SubEntryModel>, discarded: u64, max: u64) -> u64
    decreases subs.len(),
{
    if subs.len() == 0 {
        max
    } else {
        spec_top_subs(subs.skip(1), discarded, spec_top_groups(subs[0].groups, discarded, max, 0))
    }
}

/// Reading moves that were written into an entry leaves the moves that it
/// held as they were and adds each move that was read, in their order, as
/// [`spec_compact_sub`] gives it.
pub proof fn lemma_compact_into_subs(e: EntryModel, subs: Seq<SubEntryModel>, discarded: u64)
    ensures
        spec_compact_into(e, subs, discarded).subs.len() == e.subs.len() + subs.len(),
        forall|k: int|
            0 <= k < e.subs.len() ==> #[trigger] spec_compact_into(e, subs, discarded).subs[k]
                == e.subs[k],
        forall|i: int|
            0 <= i < subs.len() ==> spec_compact_into(e, subs, discarded).subs[e.subs.len() + i]
                == spec_compact_sub(#[trigger] subs[i], discarded),
        spec_compact_into(e, subs, discarded).max_game_idx == spec_top_subs(
            subs,
            discarded,
            e.max_game_idx,
        ),
    decreases subs.len(),
{
    if subs.len() > 0 {
        let e2 = spec_compact_step(e, subs[0], discarded);
        let tail = subs.skip(1);
        let r = spec_compact_into(e, subs, discarded);
        lemma_compact_into_subs(e2, tail, discarded);
        assert forall|k: int| 0 <= k < e.subs.len() implies #[trigger] r.subs[k] == e.subs[k] by {
            assert(r.subs[k] == e2.subs[k]);
        }
        assert forall|i: int| 0 <= i < subs.len() implies r.subs[e.subs.len() + i]
            == spec_compact_sub(#[trigger] subs[i], discarded) by {
            if i == 0 {
                assert(r.subs[e.subs.len() as int] == e2.subs[e.subs.len() as int]);
            } else {
                assert(tail[i - 1] == subs[i]);
                assert(r.subs[e2.subs.len() + (i - 1)] == spec_compact_sub(tail[i - 1], discarded));
            }
        }
    }
}

/// Writing an entry and reading it back keeps its moves in their order and,
/// in each group, the three counts of results; it keeps the rating sum too
/// unless the group has no results and no game to write. Of the games it
/// keeps those that are written, in their order, under the indices under
/// which they are written.
pub proof fn lemma_compact_keeps_stats(e: EntryModel, i: int, slot: int)
    requires
        0 <= i < e.subs.len(),
        0 <= slot < GROUP_SLOTS,
    ensures
        spec_compact(e).subs.len() == e.subs.len(),
        spec_compact(e).subs[i].uci == e.subs[i].uci,
        ({
            let before = e.subs[i].groups[slot];
            let after = spec_compact(e).subs[i].groups[slot];
            let kept = spec_written(before.games, spec_discarded(e.max_game_idx));
            &&& after.stats.white == before.stats.white
            &&& after.stats.draws == before.stats.draws
            &&& after.stats.black == before.stats.black
            &&& (!before.stats.spec_is_empty() || kept.len() > 0) ==> after.stats == before.stats
            &&& after.games == kept
        }),
{
    let discarded = spec_discarded(e.max_game_idx);
    lemma_compact_into_subs(EntryModel::spec_empty(), e.subs, discarded);
    let r = spec_compact(e);
    assert(r.subs[0 + i] == spec_compact_sub(e.subs[i], discarded));
    assert(r.subs[i].groups[slot] == spec_compact_group(e.subs[i].groups[slot], discarded));
}

proof fn lemma_top_groups_bound(
    groups: Seq<GroupModel>,
    discarded: u64,
    max: u64,
    slot: int,
    bound: u64,
)
    requires
        0 <= slot <= GROUP_SLOTS,
        max <= bound,
        bound >= 1,
        groups_wf(groups, bound),
    ensures
        spec_top_groups(groups, discarded, max, slot) <= bound,
    decreases GROUP_SLOTS - slot,
{
    if slot < GROUP_SLOTS {
        let games = groups[slot].games;
        assert(groups[slot].wf(bound));
        lemma_select_below(games, discarded, games.len() == 1, bound);
        assert forall|i: int| 0 <= i < spec_written(games, discarded).len() implies (
        #[trigger] spec_written(games, discarded)[i]).0 <= bound by {
            assert(spec_kept(games, discarded)[i].0 <= bound);
        }
        lemma_top_bound(spec_written(games, discarded), max, bound);
        lemma_top_groups_bound(
            groups,
            discarded,
            spec_top(spec_written(games, discarded), max),
            slot + 1,
            bound,
        );
    }
}

proof fn lemma_top_subs_bound(subs: Seq<SubEntryModel>, discarded: u64, max: u64, bound: u64)
    requires
        max <= bound,
        bound >= 1,
        forall|i: int| 0 <= i < subs.len() ==> (#[trigger] subs[i]).wf(bound),
    ensures
        spec_top_subs(subs, discarded, max) <= bound,
    decreases subs.len(),
{
    if subs.len() > 0 {
        let tail = subs.skip(1);
        assert(subs[0].wf(bound));
        lemma_top_groups_bound(subs[0].groups, discarded, max, 0, bound);
        assert forall|i: int| 0 <= i < tail.len() implies (#[trigger] tail[i]).wf(bound) by {
            assert(tail[i] == subs[i + 1]);
        }
        lemma_top_subs_bound(
            tail,
            discarded,
            spec_top_groups(subs[0].groups, discarded, max, 0),
            bound,
        );
    }
}

/// A group that was written and read back is written again as before,
/// for a window at least as wide.
proof fn lemma_write_groups_again(
    groups: Seq<GroupModel>,
    discarded: u64,
    discarded2: u64,
    base: u64,
    max: u64,
    slot: int,
)
    requires
        0 <= slot <= GROUP_SLOTS,
        discarded2 <= discarded,
    ensures
        spec_write_groups(spec_compact_sub(
            SubEntryModel { uci: UciMove::Null, groups },
            discarded,
        ).groups, discarded2, base, slot) == spec_write_groups(groups, discarded, base, slot),
        spec_top_groups(spec_compact_sub(
            SubEntryModel { uci: UciMove::Null, groups },
            discarded,
        ).groups, discarded2, max, slot) == spec_top_groups(groups, discarded, max, slot),
    decreases GROUP_SLOTS - slot,
{
    if slot < GROUP_SLOTS {
        let g = groups[slot];
        let c = spec_compact_group(g, discarded);
        lemma_written_again(g.games, discarded, discarded2);
        assert(spec_written(c.games, discarded2) == spec_written(g.games, discarded)) by {
            if !(spec_written(g.games, discarded).len() > 0 || !g.stats.spec_is_empty()) {
                assert(c.games.len() == 0);
                assert(spec_kept(c.games, discarded2).len() == 0);
                assert(spec_written(c.games, discarded2) =~= Seq::<(u64, GameId)>::empty());
                assert(spec_written(g.games, discarded) =~= Seq::<(u64, GameId)>::empty());
            }
        }
        lemma_write_groups_again(
            groups,
            discarded,
            discarded2,
            base,
            spec_top(spec_written(g.games, discarded), max),
            slot + 1,
        );
    }
}

proof fn lemma_write_subs_again(
    subs: Seq<SubEntryModel>,
    again: Seq<SubEntryModel>,
    discarded: u64,
    discarded2: u64,
    base: u64,
)
    requires
        discarded2 <= discarded,
        again.len() == subs.len(),
        forall|i: int|
            0 <= i < subs.len() ==> #[trigger] again[i] == spec_compact_sub(subs[i], discarded),
    ensures
        spec_write_subs(again, discarded2, base) == spec_write_subs(subs, discarded, base),
    decreases subs.len(),
{
    if subs.len() > 0 {
        let sub = subs[0];
        assert(again[0] == spec_compact_sub(sub, discarded));
        lemma_write_groups_again(sub.groups, discarded, discarded2, base, base, 0);
        assert(spec_compact_sub(SubEntryModel { uci: UciMove::Null, groups: sub.groups }, discarded).groups
            == spec_compact_sub(sub, discarded).groups);
        assert forall|i: int| 0 <= i < subs.skip(1).len() implies #[trigger] again.skip(1)[i]
            == spec_compact_sub(subs.skip(1)[i], discarded) by {
            assert(again.skip(1)[i] == again[i + 1]);
            assert(subs.skip(1)[i] == subs[i + 1]);
        }
        lemma_write_subs_again(
            subs.skip(1),
            again.skip(1),
            discarded,
            discarded2,
            spec_top_groups(sub.groups, discarded, base, 0),
        );
    }
}

/// One round of writing and reading is a fixed point: an entry of which no
/// group holds a game twice, as is every entry that was read from bytes, and
/// that was written and read back into the entry without moves, is written
/// again with the same bytes.
pub proof fn lemma_compaction_fixed_point(e: EntryModel)
    requires
        e.wf(),
        spec_games_once(e),
    ensures
        spec_extend(EntryModel::spec_empty(), spec_write_entry(e)) == Ok::<EntryModel, CodecError>(
            spec_compact(e),
        ),
        spec_write_entry(spec_compact(e)) == spec_write_entry(e),
{
    let empty = EntryModel::spec_empty();
    let discarded = spec_discarded(e.max_game_idx);
    let again = spec_compact(e);
    lemma_read_written_entry(e);
    lemma_compact_into_subs(empty, e.subs, discarded);
    let bound: u64 = if e.max_game_idx == 0 {
        1
    } else {
        e.max_game_idx
    };
    assert forall|i: int| 0 <= i < e.subs.len() implies (#[trigger] e.subs[i]).wf(bound) by {
        assert(e.subs[i].wf(e.max_game_idx));
        lemma_groups_wf_monotonic(e.subs[i].groups, e.max_game_idx, bound);
    }
    lemma_top_subs_bound(e.subs, discarded, 0, bound);
    assert(again.max_game_idx <= bound);
    let discarded2 = spec_discarded(again.max_game_idx);
    assert(discarded2 <= discarded);
    assert forall|i: int| 0 <= i < e.subs.len() implies #[trigger] again.subs[i]
        == spec_compact_sub(e.subs[i], discarded) by {
        assert(again.subs[0 + i] == spec_compact_sub(e.subs[i], discarded));
    }
    lemma_write_subs_again(e.subs, again.subs, discarded, discarded2, 0);
}

/// Games that are read into a list that holds no game twice leave it so.
pub proof fn lemma_read_games_once(
    acc: Seq<(u64, GameId)>,
    base: u64,
    max: u64,
    num: nat,
    s: Seq<u8>,
)
    requires
        spec_distinct_ids(acc),
    ensures
        spec_read_games(acc, base, max, num, s) matches Ok((games, max2, rest))
            ==> spec_distinct_ids(games),
    decreases num,
{
    if num > 0 {
        if let Ok((delta, n)) = spec_read_uint(s) {
            let idx = spec_idx(base, delta);
            if let Ok((id, n2)) = spec_read_game_id(s.skip(n as int)) {
                let acc2 = if spec_holds(acc, id) {
                    acc
                } else {
                    acc.push((idx, id))
                };
                assert forall|i: int, j: int| 0 <= i < j < acc2.len() implies (
                #[trigger] acc2[i]).1 != (#[trigger] acc2[j]).1 by {
                    if j < acc.len() {
                        assert(acc[i].1 != acc[j].1);
                    } else {
                        assert(acc2[i] == acc[i]);
                    }
                }
                lemma_read_games_once(
                    acc2,
                    base,
                    if idx > max {
                        idx
                    } else {
                        max
                    },
                    (num - 1) as nat,
                    s.skip((n + n2) as int),
                );
            }
        }
    }
}

/// Groups that are read into groups that hold no game twice leave them so.
pub proof fn lemma_read_groups_once(groups: Seq<GroupModel>, base: u64, max: u64, s: Seq<u8>)
    requires
        groups.len() == GROUP_SLOTS,
        spec_groups_once(groups),
    ensures
        spec_read_groups(groups, base, max, s) matches Ok((read, max2, rest)) ==> read.len()
            == GROUP_SLOTS && spec_groups_once(read),
    decreases s.len(),
{
    lemma_read_header_len(s);
    match spec_read_header(s) {
        Ok((PersonalHeader::Group { mode, speed, num_games }, n)) => {
            if let Ok((stats, n2)) = spec_read_stats(s.skip(n as int)) {
                let slot = group_slot(speed, mode);
                let s2 = s.skip((n + n2) as int);
                assert(0 <= slot < GROUP_SLOTS);
                assert(spec_distinct_ids(groups[slot].games));
                lemma_read_games_once(groups[slot].games, base, max, num_games as nat, s2);
                lemma_read_games_len(groups[slot].games, base, max, num_games as nat, s2);
                if let Ok((games, max2, rest)) = spec_read_games(
                    groups[slot].games,
                    base,
                    max,
                    num_games as nat,
                    s2,
                ) {
                    if groups[slot].stats.can_add(stats) {
                        let groups2 = groups.update(
                            slot,
                            GroupModel { stats: groups[slot].stats.spec_add(stats), games },
                        );
                        assert forall|k: int| 0 <= k < groups2.len() implies spec_distinct_ids(
                            (#[trigger] groups2[k]).games,
                        ) by {
                            if k != slot {
                                assert(groups2[k] == groups[k]);
                            }
                        }
                        lemma_read_stats_len(s.skip(n as int));
                        lemma_read_groups_once(groups2, base, max2, rest);
                    }
                }
            }
        },
        _ => {},
    }
}

/// A game is held once: an entry of which no group holds a game twice is
/// such an entry after any bytes were read into it, however often they name
/// the same game.
pub proof fn lemma_extend_keeps_games_once(e: EntryModel, s: Seq<u8>)
    requires
        spec_games_once(e),
        forall|i: int| 0 <= i < e.subs.len() ==> (#[trigger] e.subs[i]).groups.len() == GROUP_SLOTS,
    ensures
        spec_extend(e, s) matches Ok(read) ==> spec_games_once(read),
    decreases s.len(),
{
    reveal(spec_extend);
    if s.len() >= 2 {
        if let Ok((uci, n)) = spec_read_uci(s) {
            let with = e.with_sub(uci);
            let pos = with.position(uci);
            assert forall|i: int| 0 <= i < with.subs.len() implies spec_groups_once(
                (#[trigger] with.subs[i]).groups,
            ) && with.subs[i].groups.len() == GROUP_SLOTS by {
                if i < e.subs.len() {
                    assert(with.subs[i] == e.subs[i]);
                } else {
                    assert(with.subs[i].groups == spec_empty_groups());
                }
            }
            if e.has(uci) {
                assert(0 <= pos < with.subs.len());
            } else {
                assert(with.subs[e.subs.len() as int].uci == uci);
                assert(0 <= pos < with.subs.len());
            }
            lemma_read_groups_once(
                with.subs[pos].groups,
                e.max_game_idx,
                e.max_game_idx,
                s.skip(n as int),
            );
            if let Ok((e2, rest)) = spec_read_sub_entry(e, s) {
                lemma_read_sub_entry_len(e, s);
                assert forall|i: int| 0 <= i < e2.subs.len() implies spec_groups_once(
                    (#[trigger] e2.subs[i]).groups,
                ) && e2.subs[i].groups.len() == GROUP_SLOTS by {
                    if i != pos {
                        assert(e2.subs[i] == with.subs[i]);
                    }
                }
                lemma_extend_keeps_games_once(e2, rest);
            }
        }
    }
}

/// Writing what was read from bytes, reading that and writing it again
/// gives the same bytes as writing it once: one round of writing and reading
/// is a fixed point for every byte string that can be read.
pub proof fn lemma_compaction_of_bytes(bytes: Seq<u8>, e: EntryModel)
    requires
        spec_extend(EntryModel::spec_empty(), bytes) == Ok::<EntryModel, CodecError>(e),
        e.wf(),
    ensures
        spec_extend(EntryModel::spec_empty(), spec_write_entry(e)) matches Ok(again)
            && spec_write_entry(again) == spec_write_entry(e),
{
    lemma_extend_keeps_games_once(EntryModel::spec_empty(), bytes);
    lemma_compaction_fixed_point(e);
}

} // verus!
