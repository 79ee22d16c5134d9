//! What holds of the encoding of entries: bytes may be read in one piece or
//! in several, and what was written reads back.

use crate::model::game_id::{
    lemma_read_game_id_prefix, lemma_read_write_game_id, spec_read_game_id, spec_write_game_id,
    GameId,
};
use crate::model::color::Outcome;
use crate::model::lichess::{
    games_wf, group_slot, groups_wf, lemma_delta_idx, lemma_games_wf, lemma_groups_wf_monotonic,
    lemma_raise, spec_new_single, spec_raise, spec_written,
    lemma_read_games_len, lemma_read_header_len, lemma_read_sub_entry_len, lemma_select_len,
    slot_rating_group, slot_speed, spec_delta, spec_discarded, spec_empty_groups, spec_extend,
    spec_header_byte, spec_idx, spec_kept, spec_read_games, spec_read_groups, spec_read_header,
    spec_read_sub_entry, spec_select, spec_top, spec_top_groups, spec_write_entry,
    spec_write_group, spec_write_groups, spec_write_header, spec_write_refs, spec_write_sub,
    spec_write_subs, EntryModel, GroupModel, LichessHeader, SubEntryModel, GROUP_SLOTS,
    MAX_LICHESS_GAMES,
};
use crate::model::lichess_merge::spec_extend_all;
use crate::model::rating_group::RatingGroup;
use crate::model::reader::{lemma_read_fixed_prefix, CodecError};
use crate::model::speed::Speed;
use crate::model::stats::{
    lemma_read_stats_prefix, lemma_read_write_stats, spec_read_stats, spec_write_stats, Stats,
};
use crate::model::uci::{
    lemma_read_uci_prefix, lemma_read_write_uci, spec_read_uci, spec_write_uci, UciMove,
};
use crate::model::uint::{
    lemma_read_uint_len, lemma_read_uint_prefix, lemma_read_write_uint, spec_read_uint,
    spec_write_uint,
};
use vstd::prelude::*;

verus! {

/// A header that was read off `s` is read off `s + t` too, and leaves `t`
/// more.
pub proof fn lemma_read_header_prefix(s: Seq<u8>, t: Seq<u8>)
    ensures
        spec_read_header(s) matches Ok((v, n)) ==> spec_read_header(s + t) == spec_read_header(s)
            && 1 <= n <= s.len() && (s + t).skip(n as int) == s.skip(n as int) + t,
{
    if let Ok((v, n)) = spec_read_header(s) {
        lemma_read_header_len(s);
        lemma_read_fixed_prefix(s, t);
        lemma_read_uint_prefix(s.skip(1), t);
        assert((s + t).skip(n as int) == s.skip(n as int) + t);
    }
}

/// Games that were read off `s` are read off `s + t` too, and leave `t`
/// more.
pub proof fn lemma_read_games_prefix(
    acc: Seq<(u64, GameId)>,
    base: u64,
    max: u64,
    num: nat,
    s: Seq<u8>,
    t: Seq<u8>,
)
    ensures
        spec_read_games(acc, base, max, num, s) matches Ok((games, max2, rest))
            ==> spec_read_games(acc, base, max, num, s + t) == Ok::<
            (Seq<(u64, GameId)>, u64, Seq<u8>),
            CodecError,
        >((games, max2, rest + t)),
    decreases num,
{
    if num > 0 {
        if let Ok((delta, n)) = spec_read_uint(s) {
            lemma_read_uint_prefix(s, t);
            lemma_read_uint_len(s);
            let idx = spec_idx(base, delta);
            let s1 = s.skip(n as int);
            if let Ok((id, n2)) = spec_read_game_id(s1) {
                lemma_read_game_id_prefix(s1, t);
                assert(s.skip((n + n2) as int) == s1.skip(n2 as int));
                assert((s + t).skip((n + n2) as int) == s.skip((n + n2) as int) + t);
                lemma_read_games_prefix(
                    acc.push((idx, id)),
                    base,
                    if idx > max {
                        idx
                    } else {
                        max
                    },
                    (num - 1) as nat,
                    s.skip((n + n2) as int),
                    t,
                );
            }
        }
    }
}

/// The groups of a move that were read off `s` are read off `s + t` too, and
/// leave `t` more.
pub proof fn lemma_read_groups_prefix(
    groups: Seq<GroupModel>,
    base: u64,
    max: u64,
    s: Seq<u8>,
    t: Seq<u8>,
)
    ensures
        spec_read_groups(groups, base, max, s) matches Ok((g, m, rest)) ==> spec_read_groups(
            groups,
            base,
            max,
            s + t,
        ) == Ok::<(Seq<GroupModel>, u64, Seq<u8>), CodecError>((g, m, rest + t)),
    decreases s.len(),
{
    if spec_read_groups(groups, base, max, s) is Ok {
        lemma_read_header_prefix(s, t);
        match spec_read_header(s) {
            Ok((LichessHeader::Group { rating_group, speed, num_games }, n)) => {
                let s1 = s.skip(n as int);
                lemma_read_stats_prefix(s1, t);
                let (stats, n2) = spec_read_stats(s1)->Ok_0;
                let s2 = s.skip((n + n2) as int);
                assert(s2 == s1.skip(n2 as int));
                assert((s + t).skip((n + n2) as int) == s2 + t);
                lemma_read_games_prefix(Seq::empty(), base, max, num_games as nat, s2, t);
                lemma_read_games_len(Seq::empty(), base, max, num_games as nat, s2);
                let (games, max2, rest) = spec_read_games(
                    Seq::empty(),
                    base,
                    max,
                    num_games as nat,
                    s2,
                )->Ok_0;
                let slot = group_slot(speed, rating_group);
                lemma_read_groups_prefix(
                    groups.update(slot, groups[slot].spec_add(GroupModel { stats, games })),
                    base,
                    max2,
                    rest,
                    t,
                );
            },
            _ => {},
        }
    }
}

/// A move that was read off `s` is read off `s + t` too, and leaves `t`
/// more.
pub proof fn lemma_read_sub_entry_prefix(e: EntryModel, s: Seq<u8>, t: Seq<u8>)
    ensures
        spec_read_sub_entry(e, s) matches Ok((e2, rest)) ==> spec_read_sub_entry(e, s + t) == Ok::<
            (EntryModel, Seq<u8>),
            CodecError,
        >((e2, rest + t)),
{
    if let Ok((uci, n)) = spec_read_uci(s) {
        lemma_read_uci_prefix(s, t);
        let with = e.with_sub(uci);
        let pos = with.position(uci);
        lemma_read_groups_prefix(
            with.subs[pos].groups,
            e.max_game_idx,
            e.max_game_idx,
            s.skip(n as int),
            t,
        );
    }
}

/// Whether `s` is read into `e` to its last byte: it holds whole moves and
/// nothing after them.
pub open spec fn spec_complete(e: EntryModel, s: Seq<u8>) -> bool
    decreases s.len(),
{
    if s.len() == 0 {
        true
    } else if s.len() < 2 {
        false
    } else {
        match spec_read_sub_entry(e, s) {
            Err(err) => false,
            Ok((e2, rest)) => {
                proof {
                    lemma_read_sub_entry_len(e, s);
                }
                spec_complete(e2, rest)
            },
        }
    }
}

/// Bytes that hold whole moves are read without error.
pub proof fn lemma_complete_is_ok(e: EntryModel, s: Seq<u8>)
    requires
        spec_complete(e, s),
    ensures
        spec_extend(e, s) is Ok,
    decreases s.len(),
{
    reveal(spec_extend);
    if s.len() >= 2 {
        lemma_read_sub_entry_len(e, s);
        let (e2, rest) = spec_read_sub_entry(e, s)->Ok_0;
        lemma_complete_is_ok(e2, rest);
    }
}

/// Reading the bytes `a` and then the bytes `b` into an entry gives what
/// reading `a` followed by `b` in one piece gives, where `a` holds whole
/// moves: appending bytes merges entries.
pub proof fn lemma_extend_concat(e: EntryModel, a: Seq<u8>, b: Seq<u8>)
    requires
        spec_complete(e, a),
    ensures
        spec_extend(e, a) matches Ok(merged) && spec_extend(e, a + b) == spec_extend(merged, b),
    decreases a.len(),
{
    reveal(spec_extend);
    if a.len() == 0 {
        assert(a + b == b);
    } else {
        lemma_read_sub_entry_len(e, a);
        lemma_read_sub_entry_prefix(e, a, b);
        let (e2, rest) = spec_read_sub_entry(e, a)->Ok_0;
        lemma_extend_concat(e2, rest, b);
    }
}

/// Whole moves followed by whole moves are whole moves.
pub proof fn lemma_complete_concat(e: EntryModel, a: Seq<u8>, b: Seq<u8>)
    requires
        spec_complete(e, a),
        spec_complete(spec_extend(e, a)->Ok_0, b),
    ensures
        spec_complete(e, a + b),
    decreases a.len(),
{
    reveal(spec_extend);
    if a.len() == 0 {
        assert(a + b == b);
    } else {
        lemma_read_sub_entry_len(e, a);
        lemma_read_sub_entry_prefix(e, a, b);
        let (e2, rest) = spec_read_sub_entry(e, a)->Ok_0;
        lemma_complete_concat(e2, rest, b);
    }
}

/// Three byte strings of whole moves merge into an entry to the same
/// result however they are grouped: one after the other, the first two
/// joined, the last two joined, or all three joined.
#[verifier::rlimit(100)]
pub proof fn lemma_extend_grouping(e: EntryModel, a: Seq<u8>, b: Seq<u8>, c: Seq<u8>)
    requires
        spec_complete(e, a),
        spec_complete(spec_extend(e, a)->Ok_0, b),
    ensures
        spec_extend(e, a) matches Ok(ea) && spec_extend(ea, b) matches Ok(eab) && spec_extend(
            e,
            a + b,
        ) == Ok::<EntryModel, CodecError>(eab) && spec_extend(e, (a + b) + c) == spec_extend(
            eab,
            c,
        ) && spec_extend(e, a + (b + c)) == spec_extend(eab, c) && spec_extend(ea, b + c)
            == spec_extend(eab, c),
{
    lemma_extend_concat(e, a, b);
    let ea = spec_extend(e, a)->Ok_0;
    lemma_complete_is_ok(ea, b);
    lemma_extend_concat(ea, b, c);
    lemma_complete_concat(e, a, b);
    lemma_extend_concat(e, a + b, c);
    lemma_extend_concat(e, a, b + c);
    assert((a + b) + c == a + (b + c));
}

/// What a group is after it was written and read back: its results, and
/// the games that are written, under the indices under which they are
/// written; nothing where the group is not written at all.
pub open spec fn spec_compact_group(group: GroupModel, discarded: u64) -> GroupModel {
    let kept = spec_written(group.games, discarded);
    if kept.len() > 0 || !group.stats.spec_is_empty() {
        GroupModel { stats: group.stats, games: kept }
    } else {
        GroupModel::spec_empty()
    }
}

/// Games that are written for the highest index `base` read back, into an
/// entry with that highest index, under their own indices, whatever follows
/// them.
pub proof fn lemma_read_written_games(
    acc: Seq<(u64, GameId)>,
    base: u64,
    max: u64,
    games: Seq<(u64, GameId)>,
    rest: Seq<u8>,
)
    requires
        games_wf(games, u64::MAX),
    ensures
        spec_read_games(acc, base, max, games.len(), spec_write_refs(games, base) + rest) == Ok::<
            (Seq<(u64, GameId)>, u64, Seq<u8>),
            CodecError,
        >((acc + games, spec_top(games, max), rest)),
    decreases games.len(),
{
    if games.len() == 0 {
        assert(acc + games == acc);
        assert(spec_write_refs(games, base) + rest == rest);
    } else {
        let g = games[0];
        let tail = games.skip(1);
        let delta = spec_delta(base, g.0);
        let a = spec_write_uint(delta as nat);
        let b = spec_write_game_id(g.1);
        let t2 = spec_write_refs(tail, base) + rest;
        let t1 = b + t2;
        let s = spec_write_refs(games, base) + rest;
        assert(s == a + t1) by {
            assert(s =~= a + t1);
        }
        assert(g.1.wf());
        lemma_read_write_uint(delta, t1);
        lemma_read_write_game_id(g.1, t2);
        lemma_delta_idx(base, g.0);
        assert(s.skip((a.len() + 6) as int) == t2) by {
            assert(s.skip((a.len() + 6) as int) =~= t1.skip(6));
        }
        assert forall|i: int| 0 <= i < tail.len() implies (#[trigger] tail[i]).0 <= u64::MAX
            && tail[i].1.wf() by {
            assert(tail[i] == games[i + 1]);
        }
        lemma_read_written_games(
            acc.push(g),
            base,
            if g.0 > max {
                g.0
            } else {
                max
            },
            tail,
            rest,
        );
        assert(acc.push(g) + tail == acc + games);
    }
}

/// A header that is written reads back as itself, whatever follows it.
pub proof fn lemma_read_write_header(header: LichessHeader, rest: Seq<u8>)
    ensures
        spec_read_header(spec_write_header(header) + rest) == Ok::<(LichessHeader, nat), CodecError>(
            (header, spec_write_header(header).len()),
        ),
        (spec_write_header(header) + rest).skip(spec_write_header(header).len() as int) == rest,
{
    let w = spec_write_header(header);
    let s = w + rest;
    assert(s.skip(w.len() as int) == rest);
    match header {
        LichessHeader::End => {
            assert(s[0] == 0u8);
        },
        LichessHeader::Group { rating_group, speed, num_games } => {
            let byte = spec_header_byte(speed, rating_group, num_games);
            assert(0 < byte < 256);
            assert(s[0] == byte as u8);
            assert(byte % 8 == speed.spec_index() + 1);
            assert(byte / 8 % 8 == rating_group.spec_index());
            assert(Speed::spec_from_index(speed.spec_index()) == speed);
            assert(RatingGroup::spec_from_index(rating_group.spec_index()) == rating_group);
            if num_games >= 3 {
                assert(byte / 64 == 3);
                assert(s.skip(1) == spec_write_uint(num_games as nat) + rest);
                lemma_read_write_uint(num_games, rest);
            } else {
                assert(byte / 64 == num_games);
            }
        },
    }
}

/// A group that is written with its header, its results and its games
/// reads into the group of its slot, where that holds nothing yet.
#[verifier::rlimit(100)]
proof fn lemma_read_group_bytes(
    cur: Seq<GroupModel>,
    slot: int,
    stats: Stats,
    games: Seq<(u64, GameId)>,
    base: u64,
    max: u64,
    rest: Seq<u8>,
)
    requires
        0 <= slot < GROUP_SLOTS,
        cur.len() == GROUP_SLOTS,
        cur[slot] == GroupModel::spec_empty(),
        games_wf(games, u64::MAX),
    ensures
        spec_read_groups(
            cur,
            base,
            max,
            spec_write_header(
                LichessHeader::Group {
                    rating_group: slot_rating_group(slot),
                    speed: slot_speed(slot),
                    num_games: games.len() as u64,
                },
            ) + (spec_write_stats(stats) + (spec_write_refs(games, base) + rest)),
        ) == spec_read_groups(
            cur.update(slot, GroupModel { stats, games }),
            base,
            spec_top(games, max),
            rest,
        ),
{
    let speed = slot_speed(slot);
    let rating_group = slot_rating_group(slot);
    let header = LichessHeader::Group { rating_group, speed, num_games: games.len() as u64 };
    let h = spec_write_header(header);
    let st = spec_write_stats(stats);
    let t2 = spec_write_refs(games, base) + rest;
    let t1 = st + t2;
    let s = h + t1;
    lemma_read_write_header(header, t1);
    lemma_read_write_stats(stats, t2);
    assert(s.skip((h.len() + st.len()) as int) == t2) by {
        assert(s.skip((h.len() + st.len()) as int) =~= t1.skip(st.len() as int));
    }
    lemma_read_written_games(Seq::empty(), base, max, games, rest);
    assert(group_slot(speed, rating_group) == slot);
    assert(Seq::<(u64, GameId)>::empty() + games == games);
    let added = GroupModel { stats, games };
    assert(cur[slot].spec_add(added) == added) by {
        assert(cur[slot].games + added.games =~= added.games);
    }
    assert(cur[slot].stats.can_add(stats));
}

/// Reading a group that was written adds its results and the games that were
/// written, under the indices under which they were written, to the group of
/// its slot.
pub proof fn lemma_read_written_group(
    cur: Seq<GroupModel>,
    group: GroupModel,
    discarded: u64,
    base: u64,
    max: u64,
    slot: int,
    rest: Seq<u8>,
)
    requires
        0 <= slot < GROUP_SLOTS,
        cur.len() == GROUP_SLOTS,
        cur[slot] == GroupModel::spec_empty(),
        games_wf(group.games, u64::MAX),
        spec_written(group.games, discarded).len() > 0 || !group.stats.spec_is_empty(),
    ensures
        spec_read_groups(
            cur,
            base,
            max,
            spec_write_group(slot_speed(slot), slot_rating_group(slot), group, discarded, base) + rest,
        ) == spec_read_groups(
            cur.update(slot, spec_compact_group(group, discarded)),
            base,
            spec_top(spec_written(group.games, discarded), max),
            rest,
        ),
{
    let written = spec_written(group.games, discarded);
    lemma_select_len(group.games, discarded, group.games.len() == 1);
    lemma_raise(spec_kept(group.games, discarded));
    let header = LichessHeader::Group {
        rating_group: slot_rating_group(slot),
        speed: slot_speed(slot),
        num_games: written.len() as u64,
    };
    let h = spec_write_header(header);
    let st = spec_write_stats(group.stats);
    let refs = spec_write_refs(written, base);
    assert(spec_write_group(slot_speed(slot), slot_rating_group(slot), group, discarded, base) + rest
        == h + (st + (refs + rest))) by {
        assert((h + st + refs) + rest =~= h + (st + (refs + rest)));
    }
    lemma_read_group_bytes(cur, slot, group.stats, written, base, max, rest);
}

/// The groups `cur`, with those from `slot` on replaced by what `groups`
/// holds there after writing and reading back.
pub open spec fn spec_merged_groups(
    cur: Seq<GroupModel>,
    groups: Seq<GroupModel>,
    discarded: u64,
    slot: int,
) -> Seq<GroupModel> {
    Seq::new(
        GROUP_SLOTS as nat,
        |k: int|
            if k >= slot {
                spec_compact_group(groups[k], discarded)
            } else {
                cur[k]
            },
    )
}

/// What a move is after it was written and read back.
pub open spec fn spec_compact_sub(sub: SubEntryModel, discarded: u64) -> SubEntryModel {
    SubEntryModel {
        uci: sub.uci,
        groups: Seq::new(GROUP_SLOTS as nat, |k: int| spec_compact_group(sub.groups[k], discarded)),
    }
}

/// The entry `e` after the bytes of `sub`, written for the highest index of
/// `e`, were read into it, where `e` does not hold the move of `sub`.
pub open spec fn spec_compact_step(e: EntryModel, sub: SubEntryModel, discarded: u64) -> EntryModel {
    EntryModel {
        subs: e.subs.push(spec_compact_sub(sub, discarded)),
        max_game_idx: spec_top_groups(sub.groups, discarded, e.max_game_idx, 0),
    }
}

/// The entry `e` after the bytes of `subs` were read into it, one after
/// the other.
pub open spec fn spec_compact_into(e: EntryModel, subs: Seq<SubEntryModel>, discarded: u64) -> EntryModel
    decreases subs.len(),
{
    if subs.len() == 0 {
        e
    } else {
        spec_compact_into(spec_compact_step(e, subs[0], discarded), subs.skip(1), discarded)
    }
}

/// What an entry is after it was written and read back into the entry
/// without moves: the same moves in their order, each group with its results
/// and with the games that were written, under their indices.
pub open spec fn spec_compact(e: EntryModel) -> EntryModel {
    spec_compact_into(EntryModel::spec_empty(), e.subs, spec_discarded(e.max_game_idx))
}

/// The groups of a move that are written from `slot` on, with the header
/// that ends the move, read back into the slots from `slot` on.
#[verifier::rlimit(100)]
pub proof fn lemma_read_written_groups(
    cur: Seq<GroupModel>,
    groups: Seq<GroupModel>,
    discarded: u64,
    base: u64,
    max: u64,
    slot: int,
    rest: Seq<u8>,
)
    requires
        0 <= slot <= GROUP_SLOTS,
        cur.len() == GROUP_SLOTS,
        groups_wf(groups, u64::MAX),
        forall|k: int| slot <= k < GROUP_SLOTS ==> #[trigger] cur[k] == GroupModel::spec_empty(),
    ensures
        spec_read_groups(
            cur,
            base,
            max,
            spec_write_groups(groups, discarded, base, slot) + (seq![0u8] + rest),
        ) == Ok::<(Seq<GroupModel>, u64, Seq<u8>), CodecError>(
            (
                spec_merged_groups(cur, groups, discarded, slot),
                spec_top_groups(groups, discarded, max, slot),
                rest,
            ),
        ),
    decreases GROUP_SLOTS - slot,
{
    let end = seq![0u8] + rest;
    let s = spec_write_groups(groups, discarded, base, slot) + end;
    if slot == GROUP_SLOTS {
        assert(s == end);
        assert(end[0] == 0u8);
        assert(end.skip(1) == rest);
        assert(spec_merged_groups(cur, groups, discarded, slot) == cur);
    } else {
        let g = groups[slot];
        let kept = spec_written(g.games, discarded);
        let one = spec_write_group(slot_speed(slot), slot_rating_group(slot), g, discarded, base);
        let tail = spec_write_groups(groups, discarded, base, slot + 1) + end;
        assert(s == one + tail) by {
            assert(s =~= one + tail);
        }
        assert(g.wf(u64::MAX));
        if kept.len() > 0 || !g.stats.spec_is_empty() {
            let cur2 = cur.update(slot, spec_compact_group(g, discarded));
            lemma_read_written_group(cur, g, discarded, base, max, slot, tail);
            lemma_read_written_groups(
                cur2,
                groups,
                discarded,
                base,
                spec_top(kept, max),
                slot + 1,
                rest,
            );
            assert(spec_merged_groups(cur2, groups, discarded, slot + 1) == spec_merged_groups(
                cur,
                groups,
                discarded,
                slot,
            ));
        } else {
            assert(one + tail == tail);
            lemma_read_written_groups(cur, groups, discarded, base, max, slot + 1, rest);
            assert(spec_merged_groups(cur, groups, discarded, slot + 1) == spec_merged_groups(
                cur,
                groups,
                discarded,
                slot,
            ));
        }
    }
}

/// A move that is written for the highest index of an entry that does not
/// hold it reads back into that entry as a new move after the others.
#[verifier::rlimit(100)]
pub proof fn lemma_read_written_sub(e: EntryModel, sub: SubEntryModel, discarded: u64, rest: Seq<u8>)
    requires
        !e.has(sub.uci),
        sub.wf(u64::MAX),
    ensures
        spec_read_sub_entry(e, spec_write_sub(sub, discarded, e.max_game_idx) + rest) == Ok::<
            (EntryModel, Seq<u8>),
            CodecError,
        >((spec_compact_step(e, sub, discarded), rest)),
        spec_write_sub(sub, discarded, e.max_game_idx).len() >= 3,
{
    let base = e.max_game_idx;
    let u = spec_write_uci(sub.uci);
    let gs = spec_write_groups(sub.groups, discarded, base, 0);
    let end = seq![0u8] + rest;
    let t1 = gs + end;
    let s = spec_write_sub(sub, discarded, base) + rest;
    assert(spec_write_header(LichessHeader::End) == seq![0u8]);
    assert(s == u + t1) by {
        assert(s =~= u + t1);
    }
    lemma_read_write_uci(sub.uci, t1);
    let with = e.with_sub(sub.uci);
    let len = e.subs.len() as int;
    assert(with.subs == e.subs.push(SubEntryModel { uci: sub.uci, groups: spec_empty_groups() }));
    assert(with.subs[len].uci == sub.uci);
    let pos = with.position(sub.uci);
    assert(pos == len) by {
        assert(0 <= pos < with.subs.len() && with.subs[pos].uci == sub.uci);
        if pos < len {
            assert(e.subs[pos].uci == sub.uci);
        }
    }
    let empty = spec_empty_groups();
    lemma_read_written_groups(empty, sub.groups, discarded, base, base, 0, rest);
    assert(spec_merged_groups(empty, sub.groups, discarded, 0) == spec_compact_sub(
        sub,
        discarded,
    ).groups);
    assert(with.subs.update(pos, spec_compact_sub(sub, discarded)) == e.subs.push(
        spec_compact_sub(sub, discarded),
    ));
}

/// Moves that are written for the highest index of an entry that holds none
/// of them read back into that entry as new moves in their order; and the
/// bytes written hold whole moves.
#[verifier::rlimit(100)]
pub proof fn lemma_read_written_subs(e: EntryModel, subs: Seq<SubEntryModel>, discarded: u64)
    requires
        forall|i: int| 0 <= i < subs.len() ==> (#[trigger] subs[i]).wf(u64::MAX),
        forall|i: int, j: int|
            0 <= i < j < subs.len() ==> (#[trigger] subs[i]).uci != (#[trigger] subs[j]).uci,
        forall|i: int| 0 <= i < subs.len() ==> !e.has((#[trigger] subs[i]).uci),
    ensures
        spec_extend(e, spec_write_subs(subs, discarded, e.max_game_idx)) == Ok::<
            EntryModel,
            CodecError,
        >(spec_compact_into(e, subs, discarded)),
        spec_complete(e, spec_write_subs(subs, discarded, e.max_game_idx)),
    decreases subs.len(),
{
    reveal(spec_extend);
    if subs.len() > 0 {
        let sub = subs[0];
        let tail = subs.skip(1);
        let e2 = spec_compact_step(e, sub, discarded);
        let rest = spec_write_subs(tail, discarded, e2.max_game_idx);
        lemma_read_written_sub(e, sub, discarded, rest);
        assert forall|i: int| 0 <= i < tail.len() implies !e2.has((#[trigger] tail[i]).uci) by {
            assert(tail[i] == subs[i + 1]);
            assert(!e.has(subs[i + 1].uci));
            if e2.has(tail[i].uci) {
                let k = choose|k: int|
                    0 <= k < e2.subs.len() && (#[trigger] e2.subs[k]).uci == tail[i].uci;
                if k < e.subs.len() {
                    assert(e.subs[k].uci == tail[i].uci);
                } else {
                    assert(subs[0].uci != subs[i + 1].uci);
                }
            }
        }
        assert forall|i: int| 0 <= i < tail.len() implies (#[trigger] tail[i]).wf(u64::MAX) by {
            assert(tail[i] == subs[i + 1]);
        }
        assert forall|i: int, j: int| 0 <= i < j < tail.len() implies (#[trigger] tail[i]).uci != (
        #[trigger] tail[j]).uci by {
            assert(tail[i] == subs[i + 1] && tail[j] == subs[j + 1]);
        }
        lemma_read_written_subs(e2, tail, discarded);
    }
}

/// An entry that is written and read back into the entry without moves is
/// the entry that [`spec_compact`] describes; and the bytes written hold
/// whole moves.
pub proof fn lemma_read_written_entry(e: EntryModel)
    requires
        e.wf(),
    ensures
        spec_extend(EntryModel::spec_empty(), spec_write_entry(e)) == Ok::<EntryModel, CodecError>(
            spec_compact(e),
        ),
        spec_complete(EntryModel::spec_empty(), spec_write_entry(e)),
{
    let empty = EntryModel::spec_empty();
    assert forall|i: int| 0 <= i < e.subs.len() implies (#[trigger] e.subs[i]).wf(u64::MAX) by {
        assert(e.subs[i].wf(e.max_game_idx));
        lemma_groups_wf_monotonic(e.subs[i].groups, e.max_game_idx, u64::MAX);
    }
    lemma_read_written_subs(empty, e.subs, spec_discarded(e.max_game_idx));
}

/// The highest of `max` and the indices of the games that are written of
/// `subs`.
pub open spec fn spec_top_subs(subs: Seq<SubEntryModel>, discarded: u64, max: u64) -> u64
    decreases subs.len(),
{
    if subs.len() == 0 {
        max
    } else {
        spec_top_subs(subs.skip(1), discarded, spec_top_groups(subs[0].groups, discarded, max, 0))
    }
}

/// Reading moves that were written into an entry leaves the moves that it
/// held as they were and adds each move that was read, in their order, as
/// [`spec_compact_sub`] gives it.
pub proof fn lemma_compact_into_subs(e: EntryModel, subs: Seq<SubEntryModel>, discarded: u64)
    ensures
        spec_compact_into(e, subs, discarded).subs.len() == e.subs.len() + subs.len(),
        forall|k: int|
            0 <= k < e.subs.len() ==> #[trigger] spec_compact_into(e, subs, discarded).subs[k]
                == e.subs[k],
        forall|i: int|
            0 <= i < subs.len() ==> spec_compact_into(e, subs, discarded).subs[e.subs.len() + i]
                == spec_compact_sub(#[trigger] subs[i], discarded),
        spec_compact_into(e, subs, discarded).max_game_idx == spec_top_subs(
            subs,
            discarded,
            e.max_game_idx,
        ),
    decreases subs.len(),
{
    if subs.len() > 0 {
        let e2 = spec_compact_step(e, subs[0], discarded);
        let tail = subs.skip(1);
        let r = spec_compact_into(e, subs, discarded);
        lemma_compact_into_subs(e2, tail, discarded);
        assert forall|k: int| 0 <= k < e.subs.len() implies #[trigger] r.subs[k] == e.subs[k] by {
            assert(r.subs[k] == e2.subs[k]);
        }
        assert forall|i: int| 0 <= i < subs.len() implies r.subs[e.subs.len() + i]
            == spec_compact_sub(#[trigger] subs[i], discarded) by {
            if i == 0 {
                assert(r.subs[e.subs.len() as int] == e2.subs[e.subs.len() as int]);
            } else {
                assert(tail[i - 1] == subs[i]);
                assert(r.subs[e2.subs.len() + (i - 1)] == spec_compact_sub(tail[i - 1], discarded));
            }
        }
    }
}

/// Writing an entry and reading it back keeps its moves in their order and,
/// in each group, the three counts of results; it keeps the rating sum too
/// unless the group has no results and no game to write. Of the games it
/// keeps those that are written, in their order, under the indices under
/// which they are written.
pub proof fn lemma_compact_keeps_stats(e: EntryModel, i: int, slot: int)
    requires
        0 <= i < e.subs.len(),
        0 <= slot < GROUP_SLOTS,
    ensures
        spec_compact(e).subs.len() == e.subs.len(),
        spec_compact(e).subs[i].uci == e.subs[i].uci,
        ({
            let before = e.subs[i].groups[slot];
            let after = spec_compact(e).subs[i].groups[slot];
            let kept = spec_written(before.games, spec_discarded(e.max_game_idx));
            &&& after.stats.white == before.stats.white
            &&& after.stats.draws == before.stats.draws
            &&& after.stats.black == before.stats.black
            &&& (!before.stats.spec_is_empty() || kept.len() > 0) ==> after.stats == before.stats
            &&& after.games == kept
        }),
{
    let discarded = spec_discarded(e.max_game_idx);
    lemma_compact_into_subs(EntryModel::spec_empty(), e.subs, discarded);
    let r = spec_compact(e);
    assert(r.subs[0 + i] == spec_compact_sub(e.subs[i], discarded));
    assert(r.subs[i].groups[slot] == spec_compact_group(e.subs[i].groups[slot], discarded));
}

/// How many of `games` have an index above `lo` and up to `hi`.
pub open spec fn spec_count_in(games: Seq<(u64, GameId)>, lo: int, hi: int) -> nat
    decreases games.len(),
{
    if games.len() == 0 {
        0
    } else {
        (if lo < games[0].0 <= hi {
            1nat
        } else {
            0nat
        }) + spec_count_in(games.skip(1), lo, hi)
    }
}

/// Whether no two of `games` have the same index.
pub open spec fn spec_distinct_indices(games: Seq<(u64, GameId)>) -> bool {
    forall|i: int, j: int|
        0 <= i < j < games.len() ==> (#[trigger] games[i]).0 != (#[trigger] games[j]).0
}

proof fn lemma_count_none(games: Seq<(u64, GameId)>, v: int)
    requires
        forall|i: int| 0 <= i < games.len() ==> (#[trigger] games[i]).0 != v,
    ensures
        spec_count_in(games, v - 1, v) == 0,
    decreases games.len(),
{
    if games.len() > 0 {
        assert forall|i: int| 0 <= i < games.skip(1).len() implies (#[trigger] games.skip(1)[i]).0
            != v by {
            assert(games.skip(1)[i] == games[i + 1]);
        }
        lemma_count_none(games.skip(1), v);
    }
}

proof fn lemma_count_one(games: Seq<(u64, GameId)>, v: int)
    requires
        spec_distinct_indices(games),
    ensures
        spec_count_in(games, v - 1, v) <= 1,
    decreases games.len(),
{
    if games.len() > 0 {
        let tail = games.skip(1);
        assert forall|i: int, j: int| 0 <= i < j < tail.len() implies (#[trigger] tail[i]).0 != (
        #[trigger] tail[j]).0 by {
            assert(tail[i] == games[i + 1] && tail[j] == games[j + 1]);
        }
        if games[0].0 == v {
            assert forall|i: int| 0 <= i < tail.len() implies (#[trigger] tail[i]).0 != v by {
                assert(tail[i] == games[i + 1]);
                assert(games[0].0 != games[i + 1].0);
            }
            lemma_count_none(tail, v);
        } else {
            lemma_count_one(tail, v);
        }
    }
}

proof fn lemma_count_split(games: Seq<(u64, GameId)>, lo: int, hi: int)
    requires
        lo < hi,
    ensures
        spec_count_in(games, lo, hi) == spec_count_in(games, lo, hi - 1) + spec_count_in(
            games,
            hi - 1,
            hi,
        ),
    decreases games.len(),
{
    if games.len() > 0 {
        lemma_count_split(games.skip(1), lo, hi);
    }
}

/// Of games with different indices, no more lie in a range than it has
/// numbers.
pub proof fn lemma_count_bound(games: Seq<(u64, GameId)>, lo: int, hi: int)
    requires
        spec_distinct_indices(games),
        lo <= hi,
    ensures
        spec_count_in(games, lo, hi) <= hi - lo,
    decreases hi - lo,
{
    if lo == hi {
        lemma_count_empty(games, lo);
    } else {
        lemma_count_split(games, lo, hi);
        lemma_count_bound(games, lo, hi - 1);
        lemma_count_one(games, hi);
    }
}

proof fn lemma_count_empty(games: Seq<(u64, GameId)>, lo: int)
    ensures
        spec_count_in(games, lo, lo) == 0,
    decreases games.len(),
{
    if games.len() > 0 {
        lemma_count_empty(games.skip(1), lo);
    }
}

proof fn lemma_select_counts(games: Seq<(u64, GameId)>, discarded: u64, max: u64)
    requires
        games_wf(games, max),
    ensures
        spec_select(games, discarded, false).len() == spec_count_in(
            games,
            discarded as int,
            max as int,
        ),
    decreases games.len(),
{
    if games.len() > 0 {
        let tail = games.skip(1);
        assert(games[0].0 <= max);
        assert forall|i: int| 0 <= i < tail.len() implies (#[trigger] tail[i]).0 <= max
            && tail[i].1.wf() by {
            assert(tail[i] == games[i + 1]);
        }
        lemma_select_counts(tail, discarded, max);
    }
}

/// Of a group whose games have different indices, none above `max`, at most
/// [`MAX_LICHESS_GAMES`] games are written where `max` is the highest index
/// of the entry, or the one game that the group holds.
pub proof fn lemma_kept_bound(games: Seq<(u64, GameId)>, max: u64)
    requires
        games_wf(games, max),
        spec_distinct_indices(games),
    ensures
        spec_kept(games, spec_discarded(max)).len() <= MAX_LICHESS_GAMES || (games.len() == 1
            && spec_kept(games, spec_discarded(max)) == games),
        forall|i: int|
            0 <= i < spec_kept(games, spec_discarded(max)).len() ==> games.len() == 1 || (
            #[trigger] spec_kept(games, spec_discarded(max))[i]).0 > spec_discarded(max),
{
    let discarded = spec_discarded(max);
    lemma_select_len(games, discarded, games.len() == 1);
    lemma_select_above(games, discarded);
    if games.len() != 1 {
        lemma_select_counts(games, discarded, max);
        lemma_count_bound(games, discarded as int, max as int);
    }
}

proof fn lemma_select_above(games: Seq<(u64, GameId)>, discarded: u64)
    ensures
        forall|i: int|
            0 <= i < spec_select(games, discarded, false).len() ==> (#[trigger] spec_select(
                games,
                discarded,
                false,
            )[i]).0 > discarded,
    decreases games.len(),
{
    if games.len() > 0 {
        lemma_select_above(games.skip(1), discarded);
        let head = if games[0].0 > discarded {
            seq![games[0]]
        } else {
            Seq::empty()
        };
        let tail = spec_select(games.skip(1), discarded, false);
        let sel = spec_select(games, discarded, false);
        assert(sel == head + tail);
        assert forall|i: int| 0 <= i < sel.len() implies (#[trigger] sel[i]).0 > discarded by {
            if i < head.len() {
                assert(sel[i] == head[i]);
            } else {
                assert(sel[i] == tail[i - head.len()]);
            }
        }
    }
}

/// Games whose indices all lie above `discarded`, or of which all are
/// written, are all selected.
pub proof fn lemma_select_all(games: Seq<(u64, GameId)>, discarded: u64, single: bool)
    requires
        single || forall|i: int| 0 <= i < games.len() ==> (#[trigger] games[i]).0 > discarded,
    ensures
        spec_select(games, discarded, single) == games,
    decreases games.len(),
{
    if games.len() > 0 {
        let tail = games.skip(1);
        assert forall|i: int| 0 <= i < tail.len() implies single || (#[trigger] tail[i]).0
            > discarded by {
            assert(tail[i] == games[i + 1]);
        }
        lemma_select_all(tail, discarded, single);
        assert(seq![games[0]] + tail == games);
    }
}

/// The games that are written of those that were written for a window at
/// least as wide are all of them.
pub proof fn lemma_kept_again(games: Seq<(u64, GameId)>, discarded: u64, discarded2: u64)
    requires
        discarded2 <= discarded,
    ensures
        spec_kept(spec_kept(games, discarded), discarded2) == spec_kept(games, discarded),
{
    let kept = spec_kept(games, discarded);
    lemma_select_len(games, discarded, games.len() == 1);
    if kept.len() == 1 {
        lemma_select_len(kept, discarded2, true);
    } else {
        lemma_select_above(games, discarded);
        lemma_select_all(kept, discarded2, false);
    }
}

/// The games that are written of those that were written for a window at
/// least as wide are all of them, under the same indices.
pub proof fn lemma_written_again(games: Seq<(u64, GameId)>, discarded: u64, discarded2: u64)
    requires
        discarded2 <= discarded,
    ensures
        spec_written(spec_written(games, discarded), discarded2) == spec_written(games, discarded),
{
    let kept = spec_kept(games, discarded);
    let written = spec_written(games, discarded);
    lemma_raise(kept);
    lemma_select_len(games, discarded, games.len() == 1);
    if written.len() == 1 {
        lemma_select_len(written, discarded2, true);
    } else {
        lemma_select_above(games, discarded);
        assert forall|i: int| 0 <= i < written.len() implies (#[trigger] written[i]).0
            > discarded2 by {
            assert(kept[i].0 > discarded);
        }
        lemma_select_all(written, discarded2, false);
    }
    lemma_raise(written);
}

/// The highest index is no higher than a bound on the indices of all.
pub proof fn lemma_top_bound(games: Seq<(u64, GameId)>, max: u64, bound: u64)
    requires
        max <= bound,
        forall|i: int| 0 <= i < games.len() ==> (#[trigger] games[i]).0 <= bound,
    ensures
        spec_top(games, max) <= bound,
        spec_top(games, max) >= max,
    decreases games.len(),
{
    if games.len() > 0 {
        let tail = games.skip(1);
        assert(games[0].0 <= bound);
        assert forall|i: int| 0 <= i < tail.len() implies (#[trigger] tail[i]).0 <= bound by {
            assert(tail[i] == games[i + 1]);
        }
        lemma_top_bound(
            tail,
            if games[0].0 > max {
                games[0].0
            } else {
                max
            },
            bound,
        );
    }
}

/// No selected game has an index above a bound on the indices of all.
pub proof fn lemma_select_below(games: Seq<(u64, GameId)>, discarded: u64, single: bool, bound: u64)
    requires
        forall|i: int| 0 <= i < games.len() ==> (#[trigger] games[i]).0 <= bound,
    ensures
        forall|i: int|
            0 <= i < spec_select(games, discarded, single).len() ==> (#[trigger] spec_select(
                games,
                discarded,
                single,
            )[i]).0 <= bound,
    decreases games.len(),
{
    if games.len() > 0 {
        let tail = games.skip(1);
        assert forall|i: int| 0 <= i < tail.len() implies (#[trigger] tail[i]).0 <= bound by {
            assert(tail[i] == games[i + 1]);
        }
        lemma_select_below(tail, discarded, single, bound);
        let head = if games[0].0 > discarded || single {
            seq![games[0]]
        } else {
            Seq::empty()
        };
        let rest = spec_select(tail, discarded, single);
        let sel = spec_select(games, discarded, single);
        assert(sel == head + rest);
        assert forall|i: int| 0 <= i < sel.len() implies (#[trigger] sel[i]).0 <= bound by {
            if i < head.len() {
                assert(sel[i] == games[0]);
            } else {
                assert(sel[i] == rest[i - head.len()]);
            }
        }
    }
}

proof fn lemma_top_groups_bound(
    groups: Seq<GroupModel>,
    discarded: u64,
    max: u64,
    slot: int,
    bound: u64,
)
    requires
        0 <= slot <= GROUP_SLOTS,
        max <= bound,
        bound >= 1,
        groups_wf(groups, bound),
    ensures
        spec_top_groups(groups, discarded, max, slot) <= bound,
    decreases GROUP_SLOTS - slot,
{
    if slot < GROUP_SLOTS {
        let games = groups[slot].games;
        assert(groups[slot].wf(bound));
        lemma_select_below(games, discarded, games.len() == 1, bound);
        assert forall|i: int| 0 <= i < spec_written(games, discarded).len() implies (
        #[trigger] spec_written(games, discarded)[i]).0 <= bound by {
            assert(spec_kept(games, discarded)[i].0 <= bound);
        }
        lemma_top_bound(spec_written(games, discarded), max, bound);
        lemma_top_groups_bound(
            groups,
            discarded,
            spec_top(spec_written(games, discarded), max),
            slot + 1,
            bound,
        );
    }
}

proof fn lemma_top_subs_bound(subs: Seq<SubEntryModel>, discarded: u64, max: u64, bound: u64)
    requires
        max <= bound,
        bound >= 1,
        forall|i: int| 0 <= i < subs.len() ==> (#[trigger] subs[i]).wf(bound),
    ensures
        spec_top_subs(subs, discarded, max) <= bound,
    decreases subs.len(),
{
    if subs.len() > 0 {
        let tail = subs.skip(1);
        assert(subs[0].wf(bound));
        lemma_top_groups_bound(subs[0].groups, discarded, max, 0, bound);
        assert forall|i: int| 0 <= i < tail.len() implies (#[trigger] tail[i]).wf(bound) by {
            assert(tail[i] == subs[i + 1]);
        }
        lemma_top_subs_bound(
            tail,
            discarded,
            spec_top_groups(subs[0].groups, discarded, max, 0),
            bound,
        );
    }
}

/// A group that was written and read back is written again as before,
/// for a window at least as wide.
proof fn lemma_write_groups_again(
    groups: Seq<GroupModel>,
    discarded: u64,
    discarded2: u64,
    base: u64,
    max: u64,
    slot: int,
)
    requires
        0 <= slot <= GROUP_SLOTS,
        discarded2 <= discarded,
    ensures
        spec_write_groups(spec_compact_sub(
            SubEntryModel { uci: UciMove::Null, groups },
            discarded,
        ).groups, discarded2, base, slot) == spec_write_groups(groups, discarded, base, slot),
        spec_top_groups(spec_compact_sub(
            SubEntryModel { uci: UciMove::Null, groups },
            discarded,
        ).groups, discarded2, max, slot) == spec_top_groups(groups, discarded, max, slot),
    decreases GROUP_SLOTS - slot,
{
    if slot < GROUP_SLOTS {
        let g = groups[slot];
        let c = spec_compact_group(g, discarded);
        lemma_written_again(g.games, discarded, discarded2);
        assert(spec_written(c.games, discarded2) == spec_written(g.games, discarded)) by {
            if !(spec_written(g.games, discarded).len() > 0 || !g.stats.spec_is_empty()) {
                assert(c.games.len() == 0);
                assert(spec_kept(c.games, discarded2).len() == 0);
                assert(spec_written(c.games, discarded2) =~= Seq::<(u64, GameId)>::empty());
                assert(spec_written(g.games, discarded) =~= Seq::<(u64, GameId)>::empty());
            }
        }
        lemma_write_groups_again(
            groups,
            discarded,
            discarded2,
            base,
            spec_top(spec_written(g.games, discarded), max),
            slot + 1,
        );
    }
}

proof fn lemma_write_subs_again(
    subs: Seq<SubEntryModel>,
    again: Seq<SubEntryModel>,
    discarded: u64,
    discarded2: u64,
    base: u64,
)
    requires
        discarded2 <= discarded,
        again.len() == subs.len(),
        forall|i: int|
            0 <= i < subs.len() ==> #[trigger] again[i] == spec_compact_sub(subs[i], discarded),
    ensures
        spec_write_subs(again, discarded2, base) == spec_write_subs(subs, discarded, base),
    decreases subs.len(),
{
    if subs.len() > 0 {
        let sub = subs[0];
        assert(again[0] == spec_compact_sub(sub, discarded));
        lemma_write_groups_again(sub.groups, discarded, discarded2, base, base, 0);
        assert(spec_compact_sub(SubEntryModel { uci: UciMove::Null, groups: sub.groups }, discarded).groups
            == spec_compact_sub(sub, discarded).groups);
        assert forall|i: int| 0 <= i < subs.skip(1).len() implies #[trigger] again.skip(1)[i]
            == spec_compact_sub(subs.skip(1)[i], discarded) by {
            assert(again.skip(1)[i] == again[i + 1]);
            assert(subs.skip(1)[i] == subs[i + 1]);
        }
        lemma_write_subs_again(
            subs.skip(1),
            again.skip(1),
            discarded,
            discarded2,
            spec_top_groups(sub.groups, discarded, base, 0),
        );
    }
}

/// One round of writing and reading is a fixed point: an entry that was
/// written and read back into the entry without moves is written again with
/// the same bytes. The entry that was read back holds the games that were
/// written, each under its own index, or under 1 for the index 0.
pub proof fn lemma_compaction_fixed_point(e: EntryModel)
    requires
        e.wf(),
    ensures
        spec_extend(EntryModel::spec_empty(), spec_write_entry(e)) == Ok::<EntryModel, CodecError>(
            spec_compact(e),
        ),
        spec_write_entry(spec_compact(e)) == spec_write_entry(e),
{
    let empty = EntryModel::spec_empty();
    let discarded = spec_discarded(e.max_game_idx);
    let again = spec_compact(e);
    lemma_read_written_entry(e);
    lemma_compact_into_subs(empty, e.subs, discarded);
    let bound: u64 = if e.max_game_idx == 0 {
        1
    } else {
        e.max_game_idx
    };
    assert forall|i: int| 0 <= i < e.subs.len() implies (#[trigger] e.subs[i]).wf(bound) by {
        assert(e.subs[i].wf(e.max_game_idx));
        lemma_groups_wf_monotonic(e.subs[i].groups, e.max_game_idx, bound);
    }
    lemma_top_subs_bound(e.subs, discarded, 0, bound);
    assert(again.max_game_idx <= bound);
    let discarded2 = spec_discarded(again.max_game_idx);
    assert(discarded2 <= discarded);
    assert forall|i: int| 0 <= i < e.subs.len() implies #[trigger] again.subs[i]
        == spec_compact_sub(e.subs[i], discarded) by {
        assert(again.subs[0 + i] == spec_compact_sub(e.subs[i], discarded));
    }
    lemma_write_subs_again(e.subs, again.subs, discarded, discarded2, 0);
}

/// Reading what was written of an entry, followed by more bytes, into the
/// entry without moves is reading the more bytes into what the entry is
/// after one round of writing and reading: the store may write an entry
/// between two operands.
pub proof fn lemma_read_written_then(e: EntryModel, more: Seq<u8>)
    requires
        e.wf(),
    ensures
        spec_extend(EntryModel::spec_empty(), spec_write_entry(e) + more) == spec_extend(
            spec_compact(e),
            more,
        ),
{
    lemma_read_written_entry(e);
    lemma_extend_concat(EntryModel::spec_empty(), spec_write_entry(e), more);
}

/// Whether `e` holds nothing that writing drops or changes while its
/// highest index is at most [`MAX_LICHESS_GAMES`]: every index is at least
/// 1, a group without results holds nothing, and the highest index is that
/// of a game that the entry holds, or 0 where it holds none.
pub open spec fn spec_tidy(e: EntryModel) -> bool {
    &&& forall|i: int, slot: int|
        0 <= i < e.subs.len() && 0 <= slot < GROUP_SLOTS ==> spec_group_tidy(
            #[trigger] e.subs[i].groups[slot],
        )
    &&& spec_top_subs(e.subs, 0, 0) == e.max_game_idx
}

/// Whether every index of `group` is at least 1, and the group holds
/// nothing where it has no results.
pub open spec fn spec_group_tidy(group: GroupModel) -> bool {
    &&& forall|j: int| 0 <= j < group.games.len() ==> (#[trigger] group.games[j]).0 >= 1
    &&& group.stats.spec_is_empty() ==> group == GroupModel::spec_empty()
}

proof fn lemma_compact_group_small(group: GroupModel)
    requires
        spec_group_tidy(group),
    ensures
        spec_compact_group(group, 0) == group,
        spec_written(group.games, 0) == group.games,
{
    lemma_select_all(group.games, 0, group.games.len() == 1);
    lemma_raise(group.games);
    if group.stats.spec_is_empty() {
        assert(group.games.len() == 0);
    }
}

proof fn lemma_compact_sub_small(sub: SubEntryModel)
    requires
        sub.groups.len() == GROUP_SLOTS,
        forall|slot: int| 0 <= slot < GROUP_SLOTS ==> spec_group_tidy(#[trigger] sub.groups[slot]),
    ensures
        spec_compact_sub(sub, 0) == sub,
{
    assert forall|slot: int| 0 <= slot < GROUP_SLOTS implies spec_compact_sub(sub, 0).groups[slot]
        == sub.groups[slot] by {
        lemma_compact_group_small(sub.groups[slot]);
    }
    assert(spec_compact_sub(sub, 0).groups =~= sub.groups);
}

/// Writing and reading changes nothing of an entry that is tidy and whose
/// highest index is at most [`MAX_LICHESS_GAMES`]: nothing of it is too old.
pub proof fn lemma_compact_small(e: EntryModel)
    requires
        e.wf(),
        spec_tidy(e),
        e.max_game_idx <= MAX_LICHESS_GAMES,
    ensures
        spec_compact(e) == e,
{
    let again = spec_compact(e);
    assert(spec_discarded(e.max_game_idx) == 0);
    lemma_compact_into_subs(EntryModel::spec_empty(), e.subs, 0);
    assert forall|i: int| 0 <= i < e.subs.len() implies #[trigger] again.subs[i] == e.subs[i] by {
        assert(again.subs[0 + i] == spec_compact_sub(e.subs[i], 0));
        assert(e.subs[i].wf(e.max_game_idx));
        assert forall|slot: int| 0 <= slot < GROUP_SLOTS implies spec_group_tidy(
            #[trigger] e.subs[i].groups[slot],
        ) by {}
        lemma_compact_sub_small(e.subs[i]);
    }
    assert(again.subs =~= e.subs);
}

/// Three operands give the same entry whether the store wrote the entry of
/// the first two in between or not, where that entry is tidy and its
/// highest index is at most [`MAX_LICHESS_GAMES`].
pub proof fn lemma_merge_with_compaction(first_two: Seq<u8>, e: EntryModel, third: Seq<u8>)
    requires
        spec_complete(EntryModel::spec_empty(), first_two),
        spec_extend(EntryModel::spec_empty(), first_two) == Ok::<EntryModel, CodecError>(e),
        e.wf(),
        spec_tidy(e),
        e.max_game_idx <= MAX_LICHESS_GAMES,
    ensures
        spec_extend(EntryModel::spec_empty(), spec_write_entry(e) + third) == spec_extend(
            EntryModel::spec_empty(),
            first_two + third,
        ),
{
    lemma_read_written_then(e, third);
    lemma_compact_small(e);
    lemma_extend_concat(EntryModel::spec_empty(), first_two, third);
}

/// One game, as an operand is made of it.
pub struct Single {
    pub uci: UciMove,
    pub speed: Speed,
    pub game_id: GameId,
    pub outcome: Outcome,
    pub mover_rating: u16,
    pub opponent_rating: u16,
}

impl Single {
    /// Whether the move has an encoding and the identifier is valid.
    pub open spec fn wf(self) -> bool {
        self.uci.wf() && self.game_id.wf()
    }

    /// The slot of the group of the game.
    pub open spec fn slot(self) -> int {
        group_slot(self.speed, RatingGroup::spec_select(self.mover_rating, self.opponent_rating))
    }

    /// The bytes of the operand of the game.
    pub open spec fn operand(self) -> Seq<u8> {
        spec_write_entry(
            spec_new_single(
                self.uci,
                self.speed,
                self.game_id,
                self.outcome,
                self.mover_rating,
                self.opponent_rating,
            ),
        )
    }

    /// The group of the game alone, under the index `idx`.
    pub open spec fn group(self, idx: u64) -> GroupModel {
        GroupModel {
            stats: Stats::spec_new_single(self.outcome, self.mover_rating),
            games: seq![(idx, self.game_id)],
        }
    }
}

/// The entry `e` with the game `single` merged into it: its results are
/// counted in the group of its move, speed and rating group, and the game
/// is added there under the index after the highest of `e`.
pub open spec fn spec_with_single(e: EntryModel, single: Single) -> EntryModel {
    let with = e.with_sub(single.uci);
    let pos = with.position(single.uci);
    let groups = with.subs[pos].groups;
    let slot = single.slot();
    let idx = (e.max_game_idx + 1) as u64;
    EntryModel {
        subs: with.subs.update(
            pos,
            SubEntryModel {
                uci: single.uci,
                groups: groups.update(slot, groups[slot].spec_add(single.group(idx))),
            },
        ),
        max_game_idx: idx,
    }
}

/// Whether `group` holds at most `max` games, counts at most `max`
/// results, and sums ratings of at most `max` games.
pub open spec fn spec_group_counted(group: GroupModel, max: u64) -> bool {
    &&& group.games.len() <= max
    &&& group.stats.white + group.stats.draws + group.stats.black <= max
    &&& group.stats.rating_sum <= 65535 * max
}

/// Whether no group of `e` holds or counts more games than the highest
/// index of `e` says: so it is with an entry that was merged from operands
/// of one game each.
pub open spec fn spec_counted(e: EntryModel) -> bool {
    forall|i: int, slot: int|
        0 <= i < e.subs.len() && 0 <= slot < GROUP_SLOTS ==> spec_group_counted(
            #[trigger] e.subs[i].groups[slot],
            e.max_game_idx,
        )
}

proof fn lemma_write_groups_one(group: GroupModel, at: int, discarded: u64, base: u64, slot: int)
    requires
        0 <= at < GROUP_SLOTS,
        0 <= slot <= GROUP_SLOTS,
    ensures
        spec_write_groups(spec_empty_groups().update(at, group), discarded, base, slot) == if slot
            <= at {
            spec_write_group(slot_speed(at), slot_rating_group(at), group, discarded, base)
        } else {
            Seq::empty()
        },
    decreases GROUP_SLOTS - slot,
{
    let groups = spec_empty_groups().update(at, group);
    if slot < GROUP_SLOTS {
        lemma_write_groups_one(group, at, discarded, base, slot + 1);
        let one = spec_write_group(
            slot_speed(slot),
            slot_rating_group(slot),
            groups[slot],
            discarded,
            base,
        );
        let tail = spec_write_groups(groups, discarded, base, slot + 1);
        if slot != at {
            assert(groups[slot] == GroupModel::spec_empty());
            assert(spec_kept(groups[slot].games, discarded).len() == 0);
            assert(spec_written(groups[slot].games, discarded).len() == 0);
            assert(one == Seq::<u8>::empty());
            assert(one + tail == tail);
        } else {
            assert(one + tail == one);
        }
    }
}

/// The bytes of the operand of one game: its move, the header of its group
/// with one game, the results, the distance 0, the identifier, and the end
/// of the move.
pub proof fn lemma_operand_bytes(single: Single)
    ensures
        single.operand() == spec_write_uci(single.uci) + (spec_write_header(
            LichessHeader::Group {
                rating_group: RatingGroup::spec_select(
                    single.mover_rating,
                    single.opponent_rating,
                ),
                speed: single.speed,
                num_games: 1,
            },
        ) + (spec_write_stats(Stats::spec_new_single(single.outcome, single.mover_rating)) + (
        seq![0u8] + (spec_write_game_id(single.game_id) + seq![0u8])))),
{
    let e = spec_new_single(
        single.uci,
        single.speed,
        single.game_id,
        single.outcome,
        single.mover_rating,
        single.opponent_rating,
    );
    let rating_group = RatingGroup::spec_select(single.mover_rating, single.opponent_rating);
    let at = single.slot();
    let group = single.group(0);
    let written = seq![(1u64, single.game_id)];
    let sub = e.subs[0];
    assert(spec_discarded(0) == 0);
    assert(0 <= at < GROUP_SLOTS);
    assert(slot_speed(at) == single.speed && slot_rating_group(at) == rating_group);
    assert(sub.groups == spec_empty_groups().update(at, group));
    lemma_write_groups_one(group, at, 0, 0, 0);
    assert(spec_written(group.games, 0) == written) by {
        lemma_select_len(group.games, 0, true);
        assert(spec_raise(group.games) =~= written);
    }
    assert(spec_delta(0, 1) == 0);
    assert(spec_write_uint(0) == seq![0u8]);
    assert(written.skip(1).len() == 0);
    assert(spec_write_refs(written, 0) == seq![0u8] + spec_write_game_id(single.game_id)) by {
        assert(spec_write_refs(written.skip(1), 0) == Seq::<u8>::empty());
        assert(seq![0u8] + spec_write_game_id(single.game_id) + Seq::<u8>::empty() == seq![0u8]
            + spec_write_game_id(single.game_id));
    }
    assert(e.subs.skip(1).len() == 0);
    assert(spec_write_subs(e.subs.skip(1), 0, spec_top_groups(sub.groups, 0, 0, 0)) == Seq::<
        u8,
    >::empty());
    assert(spec_write_header(LichessHeader::End) == seq![0u8]);
    assert(single.operand() =~= spec_write_uci(single.uci) + (spec_write_header(
        LichessHeader::Group { rating_group, speed: single.speed, num_games: 1 },
    ) + (spec_write_stats(group.stats) + (seq![0u8] + (spec_write_game_id(single.game_id)
        + seq![0u8])))));
}

/// One game at the distance 0 reads as the game under the index after
/// `base`.
proof fn lemma_read_operand_game(base: u64, id: GameId, rest: Seq<u8>)
    requires
        base < u64::MAX,
        id.wf(),
    ensures
        spec_read_games(
            Seq::empty(),
            base,
            base,
            1,
            seq![0u8] + (spec_write_game_id(id) + rest),
        ) == Ok::<(Seq<(u64, GameId)>, u64, Seq<u8>), CodecError>(
            (seq![((base + 1) as u64, id)], (base + 1) as u64, rest),
        ),
{
    let idx = (base + 1) as u64;
    let t4 = spec_write_game_id(id) + rest;
    let t3 = seq![0u8] + t4;
    assert(spec_write_uint(0) == seq![0u8]);
    lemma_read_write_uint(0, t4);
    lemma_read_write_game_id(id, rest);
    assert(spec_idx(base, 0) == idx);
    assert(t3.skip(7) == rest) by {
        assert(t3.skip(7) =~= t4.skip(6));
    }
    let games = seq![(idx, id)];
    assert(Seq::<(u64, GameId)>::empty().push((idx, id)) == games);
    assert(spec_read_games(games, base, idx, 0, rest) == Ok::<
        (Seq<(u64, GameId)>, u64, Seq<u8>),
        CodecError,
    >((games, idx, rest)));
}

/// The end of a move reads as the end of the move.
proof fn lemma_read_end(cur: Seq<GroupModel>, base: u64, max: u64, more: Seq<u8>)
    ensures
        spec_read_groups(cur, base, max, seq![0u8] + more) == Ok::<
            (Seq<GroupModel>, u64, Seq<u8>),
            CodecError,
        >((cur, max, more)),
{
    let t = seq![0u8] + more;
    assert(t[0] == 0u8);
    assert(t.skip(1) == more);
}

/// The group of the operand of one game, with the end of the move, reads
/// into the group of its slot.
proof fn lemma_read_operand_group(
    cur: Seq<GroupModel>,
    single: Single,
    base: u64,
    more: Seq<u8>,
)
    requires
        single.wf(),
        base < u64::MAX,
        cur[single.slot()].stats.can_add(
            Stats::spec_new_single(single.outcome, single.mover_rating),
        ),
    ensures
        spec_read_groups(
            cur,
            base,
            base,
            spec_write_header(
                LichessHeader::Group {
                    rating_group: RatingGroup::spec_select(
                        single.mover_rating,
                        single.opponent_rating,
                    ),
                    speed: single.speed,
                    num_games: 1,
                },
            ) + (spec_write_stats(Stats::spec_new_single(single.outcome, single.mover_rating)) + (
            seq![0u8] + (spec_write_game_id(single.game_id) + (seq![0u8] + more)))),
        ) == Ok::<(Seq<GroupModel>, u64, Seq<u8>), CodecError>(
            (
                cur.update(
                    single.slot(),
                    cur[single.slot()].spec_add(single.group((base + 1) as u64)),
                ),
                (base + 1) as u64,
                more,
            ),
        ),
{
    let rating_group = RatingGroup::spec_select(single.mover_rating, single.opponent_rating);
    let header = LichessHeader::Group { rating_group, speed: single.speed, num_games: 1 };
    let stats = Stats::spec_new_single(single.outcome, single.mover_rating);
    let idx = (base + 1) as u64;
    let h = spec_write_header(header);
    let st = spec_write_stats(stats);
    let t5 = seq![0u8] + more;
    let t3 = seq![0u8] + (spec_write_game_id(single.game_id) + t5);
    let t2 = st + t3;
    let t1 = h + t2;
    let slot = single.slot();
    assert(group_slot(single.speed, rating_group) == slot);
    lemma_read_write_header(header, t2);
    lemma_read_write_stats(stats, t3);
    assert(t1.skip((h.len() + st.len()) as int) == t3) by {
        assert(t1.skip((h.len() + st.len()) as int) =~= t2.skip(st.len() as int));
    }
    lemma_read_operand_game(base, single.game_id, t5);
    let cur2 = cur.update(slot, cur[slot].spec_add(single.group(idx)));
    lemma_read_end(cur2, base, idx, more);
}

/// The bytes of the operand of one game, followed by more bytes.
proof fn lemma_operand_then(single: Single, more: Seq<u8>)
    ensures
        single.operand() + more == spec_write_uci(single.uci) + (spec_write_header(
            LichessHeader::Group {
                rating_group: RatingGroup::spec_select(
                    single.mover_rating,
                    single.opponent_rating,
                ),
                speed: single.speed,
                num_games: 1,
            },
        ) + (spec_write_stats(Stats::spec_new_single(single.outcome, single.mover_rating)) + (
        seq![0u8] + (spec_write_game_id(single.game_id) + (seq![0u8] + more))))),
        single.operand().len() >= 2,
{
    lemma_operand_bytes(single);
    let rating_group = RatingGroup::spec_select(single.mover_rating, single.opponent_rating);
    let header = LichessHeader::Group { rating_group, speed: single.speed, num_games: 1 };
    let u = spec_write_uci(single.uci);
    let h = spec_write_header(header);
    let st = spec_write_stats(Stats::spec_new_single(single.outcome, single.mover_rating));
    let id = spec_write_game_id(single.game_id);
    let z = seq![0u8];
    assert((u + (h + (st + (z + (id + z))))) + more =~= u + (h + (st + (z + (id + (z + more))))));
}

/// The operand of one game, followed by more bytes, reads into an entry as
/// one move, and merges the game into the entry.
#[verifier::rlimit(100)]
proof fn lemma_read_operand_sub(e: EntryModel, single: Single, more: Seq<u8>)
    requires
        e.wf(),
        single.wf(),
        e.max_game_idx < u64::MAX,
        e.with_sub(single.uci).subs[e.with_sub(single.uci).position(
            single.uci,
        )].groups[single.slot()].stats.can_add(
            Stats::spec_new_single(single.outcome, single.mover_rating),
        ),
    ensures
        spec_read_sub_entry(e, single.operand() + more) == Ok::<(EntryModel, Seq<u8>), CodecError>(
            (spec_with_single(e, single), more),
        ),
{
    lemma_operand_then(single, more);
    let rating_group = RatingGroup::spec_select(single.mover_rating, single.opponent_rating);
    let header = LichessHeader::Group { rating_group, speed: single.speed, num_games: 1 };
    let stats = Stats::spec_new_single(single.outcome, single.mover_rating);
    let t1 = spec_write_header(header) + (spec_write_stats(stats) + (seq![0u8] + (
    spec_write_game_id(single.game_id) + (seq![0u8] + more))));
    lemma_read_write_uci(single.uci, t1);
    let with = e.with_sub(single.uci);
    let pos = with.position(single.uci);
    lemma_read_operand_group(with.subs[pos].groups, single, e.max_game_idx, more);
}

/// Reading the operand of one game, followed by more bytes, into an entry
/// merges the game into the entry and goes on with the more bytes.
pub proof fn lemma_read_operand(e: EntryModel, single: Single, more: Seq<u8>)
    requires
        e.wf(),
        single.wf(),
        e.max_game_idx < u64::MAX,
        e.with_sub(single.uci).subs[e.with_sub(single.uci).position(
            single.uci,
        )].groups[single.slot()].stats.can_add(
            Stats::spec_new_single(single.outcome, single.mover_rating),
        ),
    ensures
        spec_read_sub_entry(e, single.operand() + more) == Ok::<(EntryModel, Seq<u8>), CodecError>(
            (spec_with_single(e, single), more),
        ),
        spec_extend(e, single.operand() + more) == spec_extend(spec_with_single(e, single), more),
        spec_complete(e, single.operand() + more) == spec_complete(
            spec_with_single(e, single),
            more,
        ),
{
    lemma_read_operand_sub(e, single, more);
    lemma_operand_then(single, more);
    assert((single.operand() + more).len() >= 2);
    reveal(spec_extend);
}

/// The highest index reaches every game that is written.
proof fn lemma_top_reaches(games: Seq<(u64, GameId)>, max: u64, j: int)
    requires
        0 <= j < games.len(),
    ensures
        spec_top(games, max) >= games[j].0,
    decreases games.len(),
{
    let next = if games[0].0 > max {
        games[0].0
    } else {
        max
    };
    if j == 0 {
        lemma_top_bound(games.skip(1), next, u64::MAX);
    } else {
        assert(games.skip(1)[j - 1] == games[j]);
        lemma_top_reaches(games.skip(1), next, j - 1);
    }
}

proof fn lemma_top_groups_reaches(
    groups: Seq<GroupModel>,
    discarded: u64,
    max: u64,
    from: int,
    slot: int,
    j: int,
)
    requires
        0 <= from <= slot < GROUP_SLOTS,
        0 <= j < spec_written(groups[slot].games, discarded).len(),
    ensures
        spec_top_groups(groups, discarded, max, from) >= spec_written(
            groups[slot].games,
            discarded,
        )[j].0,
        spec_top_groups(groups, discarded, max, from) >= max,
    decreases GROUP_SLOTS - from,
{
    let kept = spec_written(groups[from].games, discarded);
    let next = spec_top(kept, max);
    lemma_top_bound(kept, max, u64::MAX);
    lemma_top_groups_from(groups, discarded, next, from + 1);
    if from == slot {
        lemma_top_reaches(kept, max, j);
    } else {
        lemma_top_groups_reaches(groups, discarded, next, from + 1, slot, j);
    }
}

proof fn lemma_top_groups_from(groups: Seq<GroupModel>, discarded: u64, max: u64, from: int)
    requires
        0 <= from <= GROUP_SLOTS,
    ensures
        spec_top_groups(groups, discarded, max, from) >= max,
    decreases GROUP_SLOTS - from,
{
    if from < GROUP_SLOTS {
        let kept = spec_written(groups[from].games, discarded);
        lemma_top_bound(kept, max, u64::MAX);
        lemma_top_groups_from(groups, discarded, spec_top(kept, max), from + 1);
    }
}

proof fn lemma_top_subs_from(subs: Seq<SubEntryModel>, discarded: u64, max: u64)
    ensures
        spec_top_subs(subs, discarded, max) >= max,
    decreases subs.len(),
{
    if subs.len() > 0 {
        lemma_top_groups_from(subs[0].groups, discarded, max, 0);
        lemma_top_subs_from(
            subs.skip(1),
            discarded,
            spec_top_groups(subs[0].groups, discarded, max, 0),
        );
    }
}

proof fn lemma_top_subs_reaches(
    subs: Seq<SubEntryModel>,
    discarded: u64,
    max: u64,
    i: int,
    slot: int,
    j: int,
)
    requires
        0 <= i < subs.len(),
        0 <= slot < GROUP_SLOTS,
        0 <= j < spec_written(subs[i].groups[slot].games, discarded).len(),
    ensures
        spec_top_subs(subs, discarded, max) >= spec_written(subs[i].groups[slot].games, discarded)[j].0,
    decreases subs.len(),
{
    let next = spec_top_groups(subs[0].groups, discarded, max, 0);
    if i == 0 {
        lemma_top_groups_reaches(subs[0].groups, discarded, max, 0, slot, j);
        lemma_top_subs_from(subs.skip(1), discarded, next);
    } else {
        assert(subs.skip(1)[i - 1] == subs[i]);
        lemma_top_subs_reaches(subs.skip(1), discarded, next, i - 1, slot, j);
    }
}

/// An entry that is in order, tidy and counted is so again after a game
/// was merged into it, and its highest index is one more; and the results
/// of the game can be added to those of its group.
#[verifier::rlimit(100)]
pub proof fn lemma_with_single(e: EntryModel, single: Single)
    requires
        e.wf(),
        spec_tidy(e),
        spec_counted(e),
        single.wf(),
        e.max_game_idx < 0x1_0000_0000,
    ensures
        e.with_sub(single.uci).subs[e.with_sub(single.uci).position(
            single.uci,
        )].groups[single.slot()].stats.can_add(
            Stats::spec_new_single(single.outcome, single.mover_rating),
        ),
        spec_with_single(e, single).wf(),
        spec_tidy(spec_with_single(e, single)),
        spec_counted(spec_with_single(e, single)),
        spec_with_single(e, single).max_game_idx == e.max_game_idx + 1,
{
    let with = e.with_sub(single.uci);
    let pos = with.position(single.uci);
    let slot = single.slot();
    let max = e.max_game_idx;
    let idx = (max + 1) as u64;
    let after = spec_with_single(e, single);
    let fresh = SubEntryModel { uci: single.uci, groups: spec_empty_groups() };
    assert(0 <= slot < GROUP_SLOTS);
    assert(0 <= pos < with.subs.len() && with.subs[pos].uci == single.uci) by {
        if !e.has(single.uci) {
            assert(with.subs[e.subs.len() as int].uci == single.uci);
        }
    }
    assert forall|i: int| 0 <= i < with.subs.len() implies (#[trigger] with.subs[i]).wf(max) && (
    forall|k: int|
        0 <= k < GROUP_SLOTS ==> spec_group_tidy(#[trigger] with.subs[i].groups[k])
            && spec_group_counted(with.subs[i].groups[k], max)) by {
        if i < e.subs.len() {
            assert(with.subs[i] == e.subs[i]);
            assert(e.subs[i].wf(max));
            assert forall|k: int| 0 <= k < GROUP_SLOTS implies spec_group_tidy(
                #[trigger] with.subs[i].groups[k],
            ) && spec_group_counted(with.subs[i].groups[k], max) by {
                assert(spec_group_tidy(e.subs[i].groups[k]));
                assert(spec_group_counted(e.subs[i].groups[k], max));
            }
        } else {
            assert(with.subs[i] == fresh);
            assert forall|k: int| 0 <= k < GROUP_SLOTS implies (#[trigger] fresh.groups[k]).wf(
                max,
            ) by {
                assert(fresh.groups[k].games.len() == 0);
            }
        }
    }
    assert forall|i: int, j: int| 0 <= i < j < with.subs.len() implies (#[trigger] with.subs[i]).uci
        != (#[trigger] with.subs[j]).uci by {
        if j < e.subs.len() {
            assert(e.subs[i].uci != e.subs[j].uci);
        } else {
            assert(e.subs[i].uci != single.uci);
        }
    }
    let held = with.subs[pos].groups[slot];
    let added = single.group(idx);
    let sum = held.spec_add(added);
    assert(spec_group_counted(held, max));
    assert(spec_group_tidy(held));
    assert(held.wf(max));
    assert(held.stats.can_add(added.stats));
    assert(after.subs.len() == with.subs.len());
    // The group of the game.
    assert(sum.games == held.games.push((idx, single.game_id)));
    assert(sum.wf(idx)) by {
        lemma_games_wf(held.games, Seq::empty(), max, idx);
    }
    assert(spec_group_tidy(sum)) by {
        assert forall|j: int| 0 <= j < sum.games.len() implies (#[trigger] sum.games[j]).0 >= 1 by {
            if j < held.games.len() {
                assert(sum.games[j] == held.games[j]);
            }
        }
    }
    assert(spec_group_counted(sum, idx));
    assert forall|i: int| 0 <= i < after.subs.len() implies (#[trigger] after.subs[i]).wf(idx) && (
    forall|k: int|
        0 <= k < GROUP_SLOTS ==> spec_group_tidy(#[trigger] after.subs[i].groups[k])
            && spec_group_counted(after.subs[i].groups[k], idx)) by {
        assert(with.subs[i].wf(max));
        lemma_groups_wf_monotonic(with.subs[i].groups, max, idx);
        assert forall|k: int| 0 <= k < GROUP_SLOTS implies (#[trigger] after.subs[i].groups[k]).wf(
            idx,
        ) && spec_group_tidy(after.subs[i].groups[k]) && spec_group_counted(
            after.subs[i].groups[k],
            idx,
        ) by {
            if i == pos && k == slot {
                assert(after.subs[i].groups[k] == sum);
            } else {
                assert(after.subs[i].groups[k] == with.subs[i].groups[k]);
                assert(with.subs[i].groups[k].wf(idx));
                assert(spec_group_tidy(with.subs[i].groups[k]));
                assert(spec_group_counted(with.subs[i].groups[k], max));
            }
        }
    }
    assert forall|i: int, j: int| 0 <= i < j < after.subs.len() implies (
    #[trigger] after.subs[i]).uci != (#[trigger] after.subs[j]).uci by {
        assert(with.subs[i].uci != with.subs[j].uci);
    }
    // The highest index is that of the game.
    lemma_top_subs_bound(after.subs, 0, 0, idx);
    assert(after.subs[pos].groups[slot] == sum);
    lemma_select_all(sum.games, 0, sum.games.len() == 1);
    lemma_raise(sum.games);
    assert(spec_written(sum.games, 0) == sum.games);
    assert(sum.games[sum.games.len() - 1].0 == idx);
    lemma_top_subs_reaches(after.subs, 0, 0, pos, slot, sum.games.len() - 1);
}

/// Three operands of one game each give the same entry whether the store
/// wrote the entry of the first two in between or not.
pub proof fn lemma_three_operands(first: Single, second: Single, third: Single)
    requires
        first.wf(),
        second.wf(),
        third.wf(),
    ensures
        ({
            let e = spec_with_single(spec_with_single(EntryModel::spec_empty(), first), second);
            let all = spec_with_single(e, third);
            &&& spec_extend(
                EntryModel::spec_empty(),
                first.operand() + second.operand() + third.operand(),
            ) == Ok::<EntryModel, CodecError>(all)
            &&& spec_extend(EntryModel::spec_empty(), first.operand() + second.operand()) == Ok::<
                EntryModel,
                CodecError,
            >(e)
            &&& spec_extend(EntryModel::spec_empty(), spec_write_entry(e) + third.operand()) == Ok::<
                EntryModel,
                CodecError,
            >(all)
        }),
{
    reveal(spec_extend);
    let empty = EntryModel::spec_empty();
    let none = Seq::<u8>::empty();
    assert(spec_top_subs(empty.subs, 0, 0) == 0);
    lemma_with_single(empty, first);
    let e1 = spec_with_single(empty, first);
    lemma_with_single(e1, second);
    let e = spec_with_single(e1, second);
    lemma_with_single(e, third);
    let all = spec_with_single(e, third);
    // The first two.
    lemma_read_operand(empty, first, second.operand());
    lemma_read_operand(e1, second, none);
    assert(second.operand() + none == second.operand());
    assert(spec_extend(e, none) == Ok::<EntryModel, CodecError>(e));
    assert(spec_complete(e, none));
    let two = first.operand() + second.operand();
    // All three.
    lemma_read_operand(empty, first, second.operand() + third.operand());
    lemma_read_operand(e1, second, third.operand());
    lemma_read_operand(e, third, none);
    assert(third.operand() + none == third.operand());
    assert(spec_extend(all, none) == Ok::<EntryModel, CodecError>(all));
    assert(two + third.operand() == first.operand() + (second.operand() + third.operand()));
    // With the entry of the first two written in between.
    lemma_merge_with_compaction(two, e, third.operand());
}

/// Writing what was read from bytes, reading that and writing it again
/// gives the same bytes as writing it once: one round of writing and reading
/// is a fixed point for every byte string that can be read.
pub proof fn lemma_compaction_of_bytes(bytes: Seq<u8>, e: EntryModel)
    requires
        spec_extend(EntryModel::spec_empty(), bytes) == Ok::<EntryModel, CodecError>(e),
        e.wf(),
    ensures
        spec_extend(EntryModel::spec_empty(), spec_write_entry(e)) matches Ok(again)
            && spec_write_entry(again) == spec_write_entry(e),
{
    lemma_compaction_fixed_point(e);
}

/// Merging two operands into an entry, one after the other, gives what
/// reading the one followed by the other gives, where the first holds whole
/// moves: the store may join operands before it merges them.
pub proof fn lemma_merge_joined(e: EntryModel, a: Vec<u8>, b: Vec<u8>)
    requires
        spec_complete(e, a@),
    ensures
        spec_extend_all(e, seq![a, b]) == spec_extend(e, a@ + b@),
{
    lemma_extend_concat(e, a@, b@);
    let operands = seq![a, b];
    let merged = spec_extend(e, a@)->Ok_0;
    assert(operands.skip(1)[0] == b);
    assert(operands.skip(1).skip(1).len() == 0);
    assert(spec_extend_all(merged, operands.skip(1)) == spec_extend(merged, b@)) by {
        match spec_extend(merged, b@) {
            Ok(e2) => {
                assert(spec_extend_all(e2, operands.skip(1).skip(1)) == Ok::<
                    EntryModel,
                    CodecError,
                >(e2));
            },
            Err(err) => {},
        }
    }
}

} // verus!
