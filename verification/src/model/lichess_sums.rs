//! What reading adds to an entry: to each group the results and the games
//! that the bytes hold for it, which are those that the entry without moves
//! gets from the same bytes.

use crate::model::game_id::{spec_read_game_id, GameId};
use crate::model::lichess::{
    group_slot, lemma_read_games_len, lemma_read_header_len, lemma_read_stats_len,
    lemma_read_sub_entry_len, spec_empty_groups, spec_extend, spec_idx, spec_read_games,
    spec_read_groups, spec_read_header, spec_read_sub_entry, spec_write_entry, EntryModel,
    GroupModel, LichessHeader, SubEntryModel, GROUP_SLOTS,
};
use crate::model::lichess_proofs::{
    lemma_compact_small, lemma_read_operand, lemma_read_written_entry, lemma_three_operands,
    lemma_with_single, spec_group_counted, spec_top_subs, spec_with_single, Single,
};
use crate::model::reader::CodecError;
use crate::model::stats::{spec_read_stats, Stats};
use crate::model::uci::{spec_read_uci, UciMove};
use crate::model::uint::spec_read_uint;
use vstd::prelude::*;

verus! {

/// The group that `e` holds for `uci` in `slot`; the group without games
/// where it does not hold `uci`.
pub open spec fn spec_group_of(e: EntryModel, uci: UciMove, slot: int) -> GroupModel {
    if e.has(uci) {
        e.subs[e.position(uci)].groups[slot]
    } else {
        GroupModel::spec_empty()
    }
}

/// Whether each move of `e` stands once and has all its groups.
pub open spec fn spec_shaped(e: EntryModel) -> bool {
    &&& forall|i: int| 0 <= i < e.subs.len() ==> (#[trigger] e.subs[i]).groups.len() == GROUP_SLOTS
    &&& forall|i: int, j: int|
        0 <= i < j < e.subs.len() ==> (#[trigger] e.subs[i]).uci != (#[trigger] e.subs[j]).uci
}

/// Whether `after` is `before` with `added` added: the results are the
/// sums, the games of `before` stay in their order with their indices, and
/// after them come the games of `added` in their order, under whatever
/// indices.
pub open spec fn spec_group_sum(before: GroupModel, after: GroupModel, added: GroupModel) -> bool {
    &&& before.stats.can_add(added.stats)
    &&& after.stats == before.stats.spec_add(added.stats)
    &&& after.games.len() == before.games.len() + added.games.len()
    &&& forall|j: int| 0 <= j < before.games.len() ==> #[trigger] after.games[j] == before.games[j]
    &&& forall|j: int|
        0 <= j < added.games.len() ==> (#[trigger] after.games[before.games.len() + j]).1
            == added.games[j].1
}

/// Whether each group of `after` is that of `before` with that of `added`
/// added.
pub open spec fn spec_entry_sum(before: EntryModel, after: EntryModel, added: EntryModel) -> bool {
    forall|uci: UciMove, slot: int|
        0 <= slot < GROUP_SLOTS ==> spec_group_sum(
            spec_group_of(before, uci, slot),
            #[trigger] spec_group_of(after, uci, slot),
            spec_group_of(added, uci, slot),
        )
}

/// Whether each group of `after` is that of `before` with that of `added`
/// added, slot by slot.
pub open spec fn spec_groups_sum(
    before: Seq<GroupModel>,
    after: Seq<GroupModel>,
    added: Seq<GroupModel>,
) -> bool {
    &&& before.len() == GROUP_SLOTS
    &&& after.len() == GROUP_SLOTS
    &&& added.len() == GROUP_SLOTS
    &&& forall|slot: int|
        0 <= slot < GROUP_SLOTS ==> spec_group_sum(
            before[slot],
            #[trigger] after[slot],
            added[slot],
        )
}

/// The same games are read off the same bytes whatever the indices from
/// which they are counted: as many, with the same identifiers, and the same
/// bytes are left.
proof fn lemma_read_games_twice(
    acc: Seq<(u64, GameId)>,
    base: u64,
    max: u64,
    acc2: Seq<(u64, GameId)>,
    base2: u64,
    max2: u64,
    num: nat,
    s: Seq<u8>,
)
    requires
        acc.len() == acc2.len(),
        forall|j: int| 0 <= j < acc.len() ==> (#[trigger] acc[j]).1 == acc2[j].1,
    ensures
        match spec_read_games(acc, base, max, num, s) {
            Ok((games, top, rest)) => spec_read_games(acc2, base2, max2, num, s) matches Ok(
                (games2, top2, rest2),
            ) && rest2 == rest && games2.len() == games.len() && games.len() == acc.len() + num
                && forall|j: int| 0 <= j < games.len() ==> (#[trigger] games[j]).1 == games2[j].1,
            Err(e) => spec_read_games(acc2, base2, max2, num, s) matches Err(e2) && e2 == e,
        },
    decreases num,
{
    if num > 0 {
        if let Ok((delta, n)) = spec_read_uint(s) {
            let idx = spec_idx(base, delta);
            let idx2 = spec_idx(base2, delta);
            if let Ok((id, n2)) = spec_read_game_id(s.skip(n as int)) {
                let next = acc.push((idx, id));
                let next2 = acc2.push((idx2, id));
                assert forall|j: int| 0 <= j < next.len() implies (#[trigger] next[j]).1
                    == next2[j].1 by {
                    if j < acc.len() {
                        assert(next[j] == acc[j] && next2[j] == acc2[j]);
                    }
                }
                lemma_read_games_twice(
                    next,
                    base,
                    if idx > max {
                        idx
                    } else {
                        max
                    },
                    next2,
                    base2,
                    if idx2 > max2 {
                        idx2
                    } else {
                        max2
                    },
                    (num - 1) as nat,
                    s.skip((n + n2) as int),
                );
            }
        }
    }
}

/// Adding a group to a sum of groups is adding it to what was added.
proof fn lemma_group_sum_step(
    before: GroupModel,
    after: GroupModel,
    added: GroupModel,
    read: GroupModel,
    read2: GroupModel,
)
    requires
        spec_group_sum(before, after, added),
        after.stats.can_add(read.stats),
        read2.stats == read.stats,
        read2.games.len() == read.games.len(),
        forall|j: int| 0 <= j < read.games.len() ==> (#[trigger] read.games[j]).1 == read2.games[j].1,
    ensures
        added.stats.can_add(read2.stats),
        spec_group_sum(before, after.spec_add(read), added.spec_add(read2)),
{
    let a = after.spec_add(read);
    let b = added.spec_add(read2);
    assert forall|j: int| 0 <= j < before.games.len() implies #[trigger] a.games[j]
        == before.games[j] by {
        assert(a.games[j] == after.games[j]);
    }
    assert forall|j: int| 0 <= j < b.games.len() implies (#[trigger] a.games[before.games.len()
        + j]).1 == b.games[j].1 by {
        if j < added.games.len() {
            assert(a.games[before.games.len() + j] == after.games[before.games.len() + j]);
            assert(b.games[j] == added.games[j]);
        } else {
            let k = j - added.games.len();
            assert(a.games[before.games.len() + j] == read.games[k]);
            assert(b.games[j] == read2.games[k]);
        }
    }
}

/// The groups of a move that are read into groups that are a sum are read
/// into what was added, and the groups are the sum again.
proof fn lemma_read_groups_sum(
    before: Seq<GroupModel>,
    after: Seq<GroupModel>,
    added: Seq<GroupModel>,
    base: u64,
    max: u64,
    base2: u64,
    max2: u64,
    s: Seq<u8>,
)
    requires
        spec_groups_sum(before, after, added),
    ensures
        spec_read_groups(after, base, max, s) matches Ok((after2, top, rest)) ==> (spec_read_groups(
            added,
            base2,
            max2,
            s,
        ) matches Ok((added2, top2, rest2)) && rest2 == rest && spec_groups_sum(
            before,
            after2,
            added2,
        )),
    decreases s.len(),
{
    lemma_read_header_len(s);
    match spec_read_header(s) {
        Ok((LichessHeader::Group { rating_group, speed, num_games }, n)) => {
            lemma_read_stats_len(s.skip(n as int));
            if let Ok((stats, n2)) = spec_read_stats(s.skip(n as int)) {
                let s2 = s.skip((n + n2) as int);
                lemma_read_games_twice(
                    Seq::empty(),
                    base,
                    max,
                    Seq::empty(),
                    base2,
                    max2,
                    num_games as nat,
                    s2,
                );
                lemma_read_games_len(Seq::empty(), base, max, num_games as nat, s2);
                if let Ok((games, top, rest)) = spec_read_games(
                    Seq::empty(),
                    base,
                    max,
                    num_games as nat,
                    s2,
                ) {
                    let (games2, top2, rest2) = spec_read_games(
                        Seq::empty(),
                        base2,
                        max2,
                        num_games as nat,
                        s2,
                    )->Ok_0;
                    let slot = group_slot(speed, rating_group);
                    assert(0 <= slot < GROUP_SLOTS);
                    if after[slot].stats.can_add(stats) {
                        let read = GroupModel { stats, games };
                        let read2 = GroupModel { stats, games: games2 };
                        assert(spec_group_sum(before[slot], after[slot], added[slot]));
                        lemma_group_sum_step(before[slot], after[slot], added[slot], read, read2);
                        let after1 = after.update(slot, after[slot].spec_add(read));
                        let added1 = added.update(slot, added[slot].spec_add(read2));
                        assert forall|k: int| 0 <= k < GROUP_SLOTS implies spec_group_sum(
                            before[k],
                            #[trigger] after1[k],
                            added1[k],
                        ) by {
                            if k != slot {
                                assert(spec_group_sum(before[k], after[k], added[k]));
                            }
                        }
                        lemma_read_groups_sum(before, after1, added1, base, top, base2, top2, rest);
                    }
                }
            }
        },
        _ => {},
    }
}

/// The groups that an entry holds for a move after the move was looked up,
/// and after its groups were put in place.
proof fn lemma_group_of_step(
    e: EntryModel,
    uci: UciMove,
    groups: Seq<GroupModel>,
    max: u64,
    other: UciMove,
    slot: int,
)
    requires
        spec_shaped(e),
        groups.len() == GROUP_SLOTS,
        0 <= slot < GROUP_SLOTS,
    ensures
        ({
            let with = e.with_sub(uci);
            let pos = with.position(uci);
            let after = EntryModel {
                subs: with.subs.update(pos, SubEntryModel { uci, groups }),
                max_game_idx: max,
            };
            &&& 0 <= pos < with.subs.len()
            &&& with.subs[pos].groups.len() == GROUP_SLOTS
            &&& with.subs[pos].groups[slot] == spec_group_of(e, uci, slot)
            &&& spec_shaped(after)
            &&& spec_group_of(after, other, slot) == if other == uci {
                groups[slot]
            } else {
                spec_group_of(e, other, slot)
            }
        }),
{
    let with = e.with_sub(uci);
    let pos = with.position(uci);
    let after = EntryModel {
        subs: with.subs.update(pos, SubEntryModel { uci, groups }),
        max_game_idx: max,
    };
    if e.has(uci) {
        assert(with == e);
    } else {
        assert(with.subs[e.subs.len() as int].uci == uci);
        assert(pos == e.subs.len()) by {
            if pos < e.subs.len() {
                assert(e.subs[pos].uci == uci);
            }
        }
        assert(with.subs[pos].groups == spec_empty_groups());
    }
    assert(0 <= pos < with.subs.len() && with.subs[pos].uci == uci);
    assert forall|i: int| 0 <= i < with.subs.len() implies (#[trigger] with.subs[i]).groups.len()
        == GROUP_SLOTS by {
        if i < e.subs.len() {
            assert(with.subs[i] == e.subs[i]);
        }
    }
    assert forall|i: int, j: int| 0 <= i < j < with.subs.len() implies (#[trigger] with.subs[i]).uci
        != (#[trigger] with.subs[j]).uci by {
        if j < e.subs.len() {
            assert(e.subs[i].uci != e.subs[j].uci);
        } else {
            assert(e.subs[i].uci != uci);
        }
    }
    assert forall|i: int| 0 <= i < after.subs.len() implies (#[trigger] after.subs[i]).uci
        == with.subs[i].uci && after.subs[i].groups.len() == GROUP_SLOTS by {}
    assert forall|i: int, j: int| 0 <= i < j < after.subs.len() implies (
    #[trigger] after.subs[i]).uci != (#[trigger] after.subs[j]).uci by {
        assert(with.subs[i].uci != with.subs[j].uci);
    }
    // The move that was looked up.
    assert(after.subs[pos].uci == uci);
    assert(after.has(uci));
    let found = after.position(uci);
    assert(found == pos) by {
        assert(after.subs[found].uci == uci);
        if found < pos {
            assert(after.subs[found].uci != after.subs[pos].uci);
        } else if found > pos {
            assert(after.subs[pos].uci != after.subs[found].uci);
        }
    }
    // Another move.
    if other != uci {
        if e.has(other) {
            let at = e.position(other);
            assert(e.subs[at].uci == other);
            assert(with.subs[at] == e.subs[at]);
            assert(after.subs[at] == e.subs[at]);
            assert(after.has(other));
            let again = after.position(other);
            assert(after.subs[again].uci == other);
            assert(again == at) by {
                if again < at {
                    assert(after.subs[again].uci != after.subs[at].uci);
                } else if again > at {
                    assert(after.subs[at].uci != after.subs[again].uci);
                }
            }
        } else {
            if after.has(other) {
                let again = after.position(other);
                assert(after.subs[again].uci == other);
                assert(again != pos);
                assert(with.subs[again].uci == other);
                if again < e.subs.len() {
                    assert(e.subs[again].uci == other);
                }
            }
        }
    }
}

/// A move that is read into an entry that is a sum is read into what was
/// added, and the entry is the sum again.
#[verifier::rlimit(100)]
proof fn lemma_read_sub_entry_sum(
    before: EntryModel,
    after: EntryModel,
    added: EntryModel,
    s: Seq<u8>,
)
    requires
        spec_shaped(after),
        spec_shaped(added),
        spec_entry_sum(before, after, added),
    ensures
        spec_read_sub_entry(after, s) matches Ok((after2, rest)) ==> (spec_read_sub_entry(
            added,
            s,
        ) matches Ok((added2, rest2)) && rest2 == rest && spec_shaped(after2) && spec_shaped(added2)
            && spec_entry_sum(before, after2, added2)),
{
    if let Ok((uci, n)) = spec_read_uci(s) {
        let held = Seq::new(GROUP_SLOTS as nat, |slot: int| spec_group_of(before, uci, slot));
        let with = after.with_sub(uci);
        let pos = with.position(uci);
        let cur = with.subs[pos].groups;
        let with2 = added.with_sub(uci);
        let pos2 = with2.position(uci);
        let cur2 = with2.subs[pos2].groups;
        lemma_group_of_step(after, uci, spec_empty_groups(), 0, uci, 0);
        lemma_group_of_step(added, uci, spec_empty_groups(), 0, uci, 0);
        assert forall|slot: int| 0 <= slot < GROUP_SLOTS implies spec_group_sum(
            held[slot],
            #[trigger] cur[slot],
            cur2[slot],
        ) by {
            lemma_group_of_step(after, uci, spec_empty_groups(), 0, uci, slot);
            lemma_group_of_step(added, uci, spec_empty_groups(), 0, uci, slot);
            assert(spec_group_sum(
                spec_group_of(before, uci, slot),
                spec_group_of(after, uci, slot),
                spec_group_of(added, uci, slot),
            ));
        }
        lemma_read_groups_sum(
            held,
            cur,
            cur2,
            after.max_game_idx,
            after.max_game_idx,
            added.max_game_idx,
            added.max_game_idx,
            s.skip(n as int),
        );
        if let Ok((groups, max, rest)) = spec_read_groups(
            cur,
            after.max_game_idx,
            after.max_game_idx,
            s.skip(n as int),
        ) {
            let (groups2, max2, rest2) = spec_read_groups(
                cur2,
                added.max_game_idx,
                added.max_game_idx,
                s.skip(n as int),
            )->Ok_0;
            let after2 = EntryModel {
                subs: with.subs.update(pos, SubEntryModel { uci, groups }),
                max_game_idx: max,
            };
            let added2 = EntryModel {
                subs: with2.subs.update(pos2, SubEntryModel { uci, groups: groups2 }),
                max_game_idx: max2,
            };
            lemma_group_of_step(after, uci, groups, max, uci, 0);
            lemma_group_of_step(added, uci, groups2, max2, uci, 0);
            assert forall|other: UciMove, slot: int| 0 <= slot < GROUP_SLOTS implies spec_group_sum(
                spec_group_of(before, other, slot),
                #[trigger] spec_group_of(after2, other, slot),
                spec_group_of(added2, other, slot),
            ) by {
                lemma_group_of_step(after, uci, groups, max, other, slot);
                lemma_group_of_step(added, uci, groups2, max2, other, slot);
                if other == uci {
                    assert(spec_group_sum(held[slot], groups[slot], groups2[slot]));
                } else {
                    assert(spec_group_sum(
                        spec_group_of(before, other, slot),
                        spec_group_of(after, other, slot),
                        spec_group_of(added, other, slot),
                    ));
                }
            }
        }
    }
}

/// Bytes that are read into an entry that is a sum are read into what was
/// added, and the entry is the sum again.
proof fn lemma_extend_sum(before: EntryModel, after: EntryModel, added: EntryModel, s: Seq<u8>)
    requires
        spec_shaped(after),
        spec_shaped(added),
        spec_entry_sum(before, after, added),
    ensures
        spec_extend(after, s) matches Ok(after2) ==> (spec_extend(added, s) matches Ok(added2)
            && spec_entry_sum(before, after2, added2)),
    decreases s.len(),
{
    reveal(spec_extend);
    if s.len() >= 2 {
        lemma_read_sub_entry_sum(before, after, added, s);
        lemma_read_sub_entry_len(after, s);
        if let Ok((after2, rest)) = spec_read_sub_entry(after, s) {
            let (added2, rest2) = spec_read_sub_entry(added, s)->Ok_0;
            lemma_extend_sum(before, after2, added2, rest);
        }
    }
}

/// What reading adds: bytes that are read into an entry add to each group
/// of the entry the results that the same bytes give the group when they are
/// read into the entry without moves, which is the sum of the results of
/// all headers of the bytes for the group; the games that the group held
/// stay, in their order and under their indices, before those that the
/// bytes hold for it; and a group that the bytes do not name stays as it
/// is.
pub proof fn lemma_extend_adds(e: EntryModel, s: Seq<u8>)
    requires
        e.wf(),
    ensures
        spec_extend(e, s) matches Ok(after) ==> (spec_extend(EntryModel::spec_empty(), s) matches Ok(
            added,
        ) && spec_entry_sum(e, after, added)),
{
    let empty = EntryModel::spec_empty();
    assert forall|i: int| 0 <= i < e.subs.len() implies (#[trigger] e.subs[i]).groups.len()
        == GROUP_SLOTS by {
        assert(e.subs[i].wf(e.max_game_idx));
    }
    assert forall|uci: UciMove, slot: int| 0 <= slot < GROUP_SLOTS implies spec_group_sum(
        spec_group_of(e, uci, slot),
        #[trigger] spec_group_of(e, uci, slot),
        spec_group_of(empty, uci, slot),
    ) by {
        assert(!empty.has(uci));
    }
    lemma_extend_sum(e, e, empty, s);
}

/// Whether `a` counts no more than `b`, field by field.
pub open spec fn spec_stats_within(a: Stats, b: Stats) -> bool {
    &&& a.white <= b.white
    &&& a.draws <= b.draws
    &&& a.black <= b.black
    &&& a.rating_sum <= b.rating_sum
}

/// Reading the groups of a move takes no results away.
proof fn lemma_read_groups_grow(groups: Seq<GroupModel>, base: u64, max: u64, s: Seq<u8>)
    requires
        groups.len() == GROUP_SLOTS,
    ensures
        spec_read_groups(groups, base, max, s) matches Ok((after, top, rest)) ==> after.len()
            == GROUP_SLOTS && forall|slot: int|
            0 <= slot < GROUP_SLOTS ==> spec_stats_within(
                groups[slot].stats,
                (#[trigger] after[slot]).stats,
            ),
{
    let none = spec_empty_groups();
    assert forall|slot: int| 0 <= slot < GROUP_SLOTS implies spec_group_sum(
        groups[slot],
        #[trigger] groups[slot],
        none[slot],
    ) by {}
    lemma_read_groups_sum(groups, groups, none, base, max, base, max, s);
    if let Ok((after, top, rest)) = spec_read_groups(groups, base, max, s) {
        let added = spec_read_groups(none, base, max, s)->Ok_0.0;
        assert forall|slot: int| 0 <= slot < GROUP_SLOTS implies spec_stats_within(
            groups[slot].stats,
            (#[trigger] after[slot]).stats,
        ) by {
            assert(spec_group_sum(groups[slot], after[slot], added[slot]));
        }
    }
}

/// Reading takes no results away from an entry.
proof fn lemma_extend_grows(e: EntryModel, s: Seq<u8>, uci: UciMove, slot: int)
    requires
        spec_shaped(e),
        0 <= slot < GROUP_SLOTS,
    ensures
        spec_extend(e, s) matches Ok(after) ==> spec_stats_within(
            spec_group_of(e, uci, slot).stats,
            spec_group_of(after, uci, slot).stats,
        ),
{
    let empty = EntryModel::spec_empty();
    assert forall|other: UciMove, k: int| 0 <= k < GROUP_SLOTS implies spec_group_sum(
        spec_group_of(e, other, k),
        #[trigger] spec_group_of(e, other, k),
        spec_group_of(empty, other, k),
    ) by {
        assert(!empty.has(other));
    }
    lemma_extend_sum(e, e, empty, s);
    if let Ok(after) = spec_extend(e, s) {
        let added = spec_extend(empty, s)->Ok_0;
        assert(spec_group_sum(
            spec_group_of(e, uci, slot),
            spec_group_of(after, uci, slot),
            spec_group_of(added, uci, slot),
        ));
    }
}

/// The groups of a move are read into groups that are a sum wherever they
/// are read into what was added and the results that come of that can be
/// added to those that were there before.
proof fn lemma_read_groups_fit(
    before: Seq<GroupModel>,
    after: Seq<GroupModel>,
    added: Seq<GroupModel>,
    base: u64,
    max: u64,
    base2: u64,
    max2: u64,
    s: Seq<u8>,
)
    requires
        spec_groups_sum(before, after, added),
        spec_read_groups(added, base2, max2, s) matches Ok((added2, top2, rest2)) && forall|
            slot: int,
        |
            0 <= slot < GROUP_SLOTS ==> before[slot].stats.can_add((#[trigger] added2[slot]).stats),
    ensures
        spec_read_groups(after, base, max, s) is Ok,
    decreases s.len(),
{
    lemma_read_header_len(s);
    match spec_read_header(s) {
        Ok((LichessHeader::Group { rating_group, speed, num_games }, n)) => {
            lemma_read_stats_len(s.skip(n as int));
            let (stats, n2) = spec_read_stats(s.skip(n as int))->Ok_0;
            let s2 = s.skip((n + n2) as int);
            lemma_read_games_twice(
                Seq::empty(),
                base2,
                max2,
                Seq::empty(),
                base,
                max,
                num_games as nat,
                s2,
            );
            lemma_read_games_len(Seq::empty(), base, max, num_games as nat, s2);
            let (games2, top2, rest) = spec_read_games(
                Seq::empty(),
                base2,
                max2,
                num_games as nat,
                s2,
            )->Ok_0;
            let (games, top, rest1) = spec_read_games(
                Seq::empty(),
                base,
                max,
                num_games as nat,
                s2,
            )->Ok_0;
            let slot = group_slot(speed, rating_group);
            assert(0 <= slot < GROUP_SLOTS);
            let read = GroupModel { stats, games };
            let read2 = GroupModel { stats, games: games2 };
            let added1 = added.update(slot, added[slot].spec_add(read2));
            lemma_read_groups_grow(added1, base2, top2, rest);
            let added2 = spec_read_groups(added, base2, max2, s)->Ok_0.0;
            assert(spec_group_sum(before[slot], after[slot], added[slot]));
            assert(spec_stats_within(added1[slot].stats, added2[slot].stats));
            assert(before[slot].stats.can_add(added2[slot].stats));
            assert(after[slot].stats.can_add(stats));
            lemma_group_sum_step(before[slot], after[slot], added[slot], read, read2);
            let after1 = after.update(slot, after[slot].spec_add(read));
            assert forall|k: int| 0 <= k < GROUP_SLOTS implies spec_group_sum(
                before[k],
                #[trigger] after1[k],
                added1[k],
            ) by {
                if k != slot {
                    assert(spec_group_sum(before[k], after[k], added[k]));
                }
            }
            lemma_read_groups_fit(before, after1, added1, base, top, base2, top2, rest);
        },
        _ => {},
    }
}

/// A move is read into an entry that is a sum wherever it is read into
/// what was added and the results that come of that can be added to those
/// that were there before.
#[verifier::rlimit(100)]
proof fn lemma_read_sub_entry_fits(
    before: EntryModel,
    after: EntryModel,
    added: EntryModel,
    s: Seq<u8>,
)
    requires
        spec_shaped(after),
        spec_shaped(added),
        spec_entry_sum(before, after, added),
        spec_read_sub_entry(added, s) matches Ok((added2, rest2)) && forall|
            uci: UciMove,
            slot: int,
        |
            0 <= slot < GROUP_SLOTS ==> spec_group_of(before, uci, slot).stats.can_add(
                (#[trigger] spec_group_of(added2, uci, slot)).stats,
            ),
    ensures
        spec_read_sub_entry(after, s) is Ok,
{
    let (uci, n) = spec_read_uci(s)->Ok_0;
    let held = Seq::new(GROUP_SLOTS as nat, |slot: int| spec_group_of(before, uci, slot));
    let with = after.with_sub(uci);
    let pos = with.position(uci);
    let cur = with.subs[pos].groups;
    let with2 = added.with_sub(uci);
    let pos2 = with2.position(uci);
    let cur2 = with2.subs[pos2].groups;
    lemma_group_of_step(after, uci, spec_empty_groups(), 0, uci, 0);
    lemma_group_of_step(added, uci, spec_empty_groups(), 0, uci, 0);
    assert forall|slot: int| 0 <= slot < GROUP_SLOTS implies spec_group_sum(
        held[slot],
        #[trigger] cur[slot],
        cur2[slot],
    ) by {
        lemma_group_of_step(after, uci, spec_empty_groups(), 0, uci, slot);
        lemma_group_of_step(added, uci, spec_empty_groups(), 0, uci, slot);
        assert(spec_group_sum(
            spec_group_of(before, uci, slot),
            spec_group_of(after, uci, slot),
            spec_group_of(added, uci, slot),
        ));
    }
    let (groups2, max2, rest2) = spec_read_groups(
        cur2,
        added.max_game_idx,
        added.max_game_idx,
        s.skip(n as int),
    )->Ok_0;
    let added2 = spec_read_sub_entry(added, s)->Ok_0.0;
    lemma_read_groups_grow(cur2, added.max_game_idx, added.max_game_idx, s.skip(n as int));
    assert forall|slot: int| 0 <= slot < GROUP_SLOTS implies held[slot].stats.can_add(
        (#[trigger] groups2[slot]).stats,
    ) by {
        lemma_group_of_step(added, uci, groups2, max2, uci, slot);
        assert(spec_group_of(added2, uci, slot) == groups2[slot]);
    }
    lemma_read_groups_fit(
        held,
        cur,
        cur2,
        after.max_game_idx,
        after.max_game_idx,
        added.max_game_idx,
        added.max_game_idx,
        s.skip(n as int),
    );
}

/// Bytes are read into an entry that is a sum wherever they are read into
/// what was added and the results that come of that can be added to those
/// that were there before.
proof fn lemma_extend_fits(before: EntryModel, after: EntryModel, added: EntryModel, s: Seq<u8>)
    requires
        spec_shaped(after),
        spec_shaped(added),
        spec_entry_sum(before, after, added),
        spec_extend(added, s) matches Ok(added2) && forall|uci: UciMove, slot: int|
            0 <= slot < GROUP_SLOTS ==> spec_group_of(before, uci, slot).stats.can_add(
                (#[trigger] spec_group_of(added2, uci, slot)).stats,
            ),
    ensures
        spec_extend(after, s) is Ok,
    decreases s.len(),
{
    reveal(spec_extend);
    if s.len() >= 2 {
        let empty = EntryModel::spec_empty();
        let (added1, rest) = spec_read_sub_entry(added, s)->Ok_0;
        let added2 = spec_extend(added, s)->Ok_0;
        assert(spec_extend(added1, rest) == Ok::<EntryModel, CodecError>(added2));
        // What the move alone adds is within what all the bytes add.
        assert forall|uci: UciMove, slot: int| 0 <= slot < GROUP_SLOTS implies spec_group_sum(
            spec_group_of(added, uci, slot),
            #[trigger] spec_group_of(added, uci, slot),
            spec_group_of(empty, uci, slot),
        ) by {
            assert(!empty.has(uci));
        }
        lemma_read_sub_entry_sum(added, added, empty, s);
        assert forall|uci: UciMove, slot: int| 0 <= slot < GROUP_SLOTS implies spec_group_of(
            before,
            uci,
            slot,
        ).stats.can_add((#[trigger] spec_group_of(added1, uci, slot)).stats) by {
            lemma_extend_grows(added1, rest, uci, slot);
            assert(spec_group_of(before, uci, slot).stats.can_add(
                spec_group_of(added2, uci, slot).stats,
            ));
        }
        lemma_read_sub_entry_fits(before, after, added, s);
        lemma_read_sub_entry_sum(before, after, added, s);
        lemma_read_sub_entry_len(after, s);
        let (after1, rest1) = spec_read_sub_entry(after, s)->Ok_0;
        lemma_extend_fits(before, after1, added1, rest);
    }
}

/// When reading succeeds: bytes are read into an entry exactly when they
/// are read into the entry without moves and the results that they give
/// each group there can be added to those that the group has.
pub proof fn lemma_extend_succeeds(e: EntryModel, s: Seq<u8>)
    requires
        e.wf(),
    ensures
        spec_extend(e, s) is Ok <==> (spec_extend(EntryModel::spec_empty(), s) matches Ok(added)
            && forall|uci: UciMove, slot: int|
            0 <= slot < GROUP_SLOTS ==> spec_group_of(e, uci, slot).stats.can_add(
                (#[trigger] spec_group_of(added, uci, slot)).stats,
            )),
{
    let empty = EntryModel::spec_empty();
    lemma_extend_adds(e, s);
    if let Ok(after) = spec_extend(e, s) {
        let added = spec_extend(empty, s)->Ok_0;
        assert forall|uci: UciMove, slot: int| 0 <= slot < GROUP_SLOTS implies spec_group_of(
            e,
            uci,
            slot,
        ).stats.can_add((#[trigger] spec_group_of(added, uci, slot)).stats) by {
            assert(spec_group_sum(
                spec_group_of(e, uci, slot),
                spec_group_of(after, uci, slot),
                spec_group_of(added, uci, slot),
            ));
        }
    }
    if let Ok(added) = spec_extend(empty, s) {
        if forall|uci: UciMove, slot: int|
            0 <= slot < GROUP_SLOTS ==> spec_group_of(e, uci, slot).stats.can_add(
                (#[trigger] spec_group_of(added, uci, slot)).stats,
            ) {
            assert forall|i: int| 0 <= i < e.subs.len() implies (
            #[trigger] e.subs[i]).groups.len() == GROUP_SLOTS by {
                assert(e.subs[i].wf(e.max_game_idx));
            }
            assert forall|uci: UciMove, slot: int| 0 <= slot < GROUP_SLOTS implies spec_group_sum(
                spec_group_of(e, uci, slot),
                #[trigger] spec_group_of(e, uci, slot),
                spec_group_of(empty, uci, slot),
            ) by {
                assert(!empty.has(uci));
            }
            lemma_extend_fits(e, e, empty, s);
        }
    }
}

/// Whether two groups have the same results and the same games in the same
/// order, under whatever indices.
pub open spec fn spec_same_group(a: GroupModel, b: GroupModel) -> bool {
    &&& a.stats == b.stats
    &&& a.games.len() == b.games.len()
    &&& forall|j: int| 0 <= j < a.games.len() ==> (#[trigger] a.games[j]).1 == b.games[j].1
}

/// Two entries that are the sum of the same two entries have, in every
/// group, the same results and the same games in the same order.
pub proof fn lemma_sums_agree(
    before: EntryModel,
    added: EntryModel,
    a: EntryModel,
    b: EntryModel,
    uci: UciMove,
    slot: int,
)
    requires
        0 <= slot < GROUP_SLOTS,
        spec_entry_sum(before, a, added),
        spec_entry_sum(before, b, added),
    ensures
        spec_same_group(spec_group_of(a, uci, slot), spec_group_of(b, uci, slot)),
{
    let held = spec_group_of(before, uci, slot);
    let more = spec_group_of(added, uci, slot);
    let ga = spec_group_of(a, uci, slot);
    let gb = spec_group_of(b, uci, slot);
    assert(spec_group_sum(held, ga, more));
    assert(spec_group_sum(held, gb, more));
    assert forall|j: int| 0 <= j < ga.games.len() implies (#[trigger] ga.games[j]).1
        == gb.games[j].1 by {
        if j < held.games.len() {
            assert(ga.games[j] == held.games[j]);
            assert(gb.games[j] == held.games[j]);
        } else {
            let k = j - held.games.len();
            assert(ga.games[held.games.len() + k].1 == more.games[k].1);
            assert(gb.games[held.games.len() + k].1 == more.games[k].1);
        }
    }
}

/// Three operands of one game each are read, and give in every group the
/// same results and the same games in the same order, whether the store
/// wrote the entry of the last two before it read them after the first, or
/// not.
pub proof fn lemma_three_operands_last_two(
    first: Single,
    second: Single,
    third: Single,
    uci: UciMove,
    slot: int,
)
    requires
        first.wf(),
        second.wf(),
        third.wf(),
        0 <= slot < GROUP_SLOTS,
    ensures
        ({
            let last_two = spec_with_single(
                spec_with_single(EntryModel::spec_empty(), second),
                third,
            );
            let plain = spec_extend(
                EntryModel::spec_empty(),
                first.operand() + (second.operand() + third.operand()),
            );
            let compacted = spec_extend(
                EntryModel::spec_empty(),
                first.operand() + spec_write_entry(last_two),
            );
            &&& spec_extend(EntryModel::spec_empty(), second.operand() + third.operand()) == Ok::<
                EntryModel,
                CodecError,
            >(last_two)
            &&& plain is Ok
            &&& compacted is Ok
            &&& spec_same_group(
                spec_group_of(compacted->Ok_0, uci, slot),
                spec_group_of(plain->Ok_0, uci, slot),
            )
        }),
{
    let empty = EntryModel::spec_empty();
    // The last two, read alone.
    lemma_three_operands(second, third, first);
    let last_two = spec_with_single(spec_with_single(empty, second), third);
    let two = second.operand() + third.operand();
    // What their written entry reads as.
    assert(spec_top_subs(empty.subs, 0, 0) == 0);
    lemma_with_single(empty, second);
    lemma_with_single(spec_with_single(empty, second), third);
    lemma_read_written_entry(last_two);
    lemma_compact_small(last_two);
    let written = spec_write_entry(last_two);
    // The first, and then either.
    lemma_with_single(empty, first);
    let e1 = spec_with_single(empty, first);
    lemma_read_operand(empty, first, two);
    lemma_read_operand(empty, first, written);
    lemma_three_operands(first, second, third);
    assert(first.operand() + second.operand() + third.operand() == first.operand() + two);
    let plain = spec_extend(e1, two);
    lemma_extend_adds(e1, two);
    lemma_extend_adds(e1, written);
    // No group counts more than three games.
    assert forall|other: UciMove, k: int| 0 <= k < GROUP_SLOTS implies spec_group_of(
        e1,
        other,
        k,
    ).stats.can_add((#[trigger] spec_group_of(last_two, other, k)).stats) by {
        if e1.has(other) {
            assert(spec_group_counted(e1.subs[e1.position(other)].groups[k], e1.max_game_idx));
        }
        if last_two.has(other) {
            assert(spec_group_counted(
                last_two.subs[last_two.position(other)].groups[k],
                last_two.max_game_idx,
            ));
        }
    }
    lemma_extend_succeeds(e1, written);
    lemma_sums_agree(e1, last_two, spec_extend(e1, written)->Ok_0, plain->Ok_0, uci, slot);
}

} // verus!
