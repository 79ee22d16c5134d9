use lila_openingexplorer::model::color::{Color, Outcome};
use lila_openingexplorer::model::game_id::GameId;
use lila_openingexplorer::model::lichess::{LichessEntry, LichessGroup, LichessHeader};
use lila_openingexplorer::model::lichess_merge::merge_operands;
use lila_openingexplorer::model::rating_group::{ByRatingGroup, RatingGroup};
use lila_openingexplorer::model::reader::{ByteReader, CodecError};
use lila_openingexplorer::model::speed::{BySpeed, Mode, Speed};
use lila_openingexplorer::model::stats::Stats;
use lila_openingexplorer::model::uci::{Role, UciMove};

const E2E4: UciMove = UciMove::Normal { from: 12, to: 28, promotion: None };
const D2D4: UciMove = UciMove::Normal { from: 11, to: 27, promotion: None };
const G1F3: UciMove = UciMove::Normal { from: 6, to: 21, promotion: None };

fn game(n: u64) -> GameId {
    GameId(1000 + n)
}

fn single(uci: UciMove, speed: Speed, n: u64, outcome: Outcome, rating: u16) -> Vec<u8> {
    let entry = LichessEntry::new_single(uci, speed, game(n), outcome, rating, rating);
    let mut bytes = Vec::new();
    entry.write(&mut bytes);
    bytes
}

fn read(bytes: &[u8]) -> LichessEntry {
    let mut entry = LichessEntry::new();
    let mut reader = ByteReader::new(bytes);
    entry.extend_from_reader(&mut reader).expect("valid entry");
    entry
}

fn written(entry: &LichessEntry) -> Vec<u8> {
    let mut bytes = Vec::new();
    entry.write(&mut bytes);
    bytes
}

fn header_bytes(header: LichessHeader) -> Vec<u8> {
    let mut bytes = Vec::new();
    header.write(&mut bytes);
    bytes
}

#[test]
fn rating_group_is_selected_by_the_average() {
    assert_eq!(RatingGroup::select(1500, 1500), RatingGroup::GroupLow);
    assert_eq!(RatingGroup::select(0, 0), RatingGroup::GroupLow);
    assert_eq!(RatingGroup::select(1599, 1600), RatingGroup::GroupLow);
    assert_eq!(RatingGroup::select(1600, 1600), RatingGroup::Group1600);
    assert_eq!(RatingGroup::select(1601, 1599), RatingGroup::Group1600);
    assert_eq!(RatingGroup::select(1599, 1601), RatingGroup::Group1600);
    assert_eq!(RatingGroup::select(1799, 1800), RatingGroup::Group1600);
    assert_eq!(RatingGroup::select(3201, 3199), RatingGroup::Group3200);
    assert_eq!(RatingGroup::select(1799, 1799), RatingGroup::Group1600);
    assert_eq!(RatingGroup::select(1800, 1800), RatingGroup::Group1800);
    assert_eq!(RatingGroup::select(2000, 2000), RatingGroup::Group2000);
    assert_eq!(RatingGroup::select(2200, 2200), RatingGroup::Group2200);
    assert_eq!(RatingGroup::select(2499, 2499), RatingGroup::Group2200);
    assert_eq!(RatingGroup::select(2500, 2500), RatingGroup::Group2500);
    assert_eq!(RatingGroup::select(2800, 2800), RatingGroup::Group2800);
    assert_eq!(RatingGroup::select(3199, 3199), RatingGroup::Group2800);
    assert_eq!(RatingGroup::select(3200, 3200), RatingGroup::Group3200);
    assert_eq!(RatingGroup::select(u16::MAX, u16::MAX), RatingGroup::Group3200);
    assert_eq!(RatingGroup::select(4000, 1000), RatingGroup::Group2500);
}

#[test]
fn rating_groups_and_speeds_are_numbered() {
    let mut i: usize = 0;
    while i < 8 {
        assert_eq!(RatingGroup::from_index(i).index(), i);
        i += 1;
    }
    let mut i: usize = 0;
    while i < 6 {
        assert_eq!(Speed::from_index(i).index(), i);
        i += 1;
    }
    assert_eq!(Speed::UltraBullet.index(), 0);
    assert_eq!(Speed::Correspondence.index(), 5);
    assert_eq!(RatingGroup::Group3200.index(), 7);
    assert_eq!(Mode::from_rated(true), Mode::Rated);
    assert_eq!(Mode::from_rated(false), Mode::Casual);
    assert!(Mode::Rated.is_rated());
    assert!(!Mode::Casual.is_rated());
}

fn numbers() -> ByRatingGroup<u32> {
    ByRatingGroup {
        group_low: 0,
        group_1600: 1,
        group_1800: 2,
        group_2000: 3,
        group_2200: 4,
        group_2500: 5,
        group_2800: 6,
        group_3200: 7,
    }
}

#[test]
fn by_rating_group_gives_the_value_of_the_group() {
    let mut values = numbers();
    assert_eq!(*values.by_rating_group(RatingGroup::Group2000), 3);
    *values.by_rating_group_mut(RatingGroup::Group2000) = 30;
    assert_eq!(values.group_2000, 30);
    assert_eq!(values.group_1800, 2);
    assert_eq!(values.group_2200, 4);
    let refs = values.as_ref();
    assert_eq!(*refs.group_low, 0);
    assert_eq!(*refs.group_2000, 30);
    assert_eq!(*refs.group_3200, 7);
}

#[test]
fn by_rating_group_try_map_maps_in_order() {
    let mapped: Result<ByRatingGroup<usize>, ()> =
        numbers().try_map(|group, value| Ok(group.index() * 10 + value as usize));
    let mapped = mapped.expect("no error");
    assert_eq!(mapped.group_low, 0);
    assert_eq!(mapped.group_1600, 11);
    assert_eq!(mapped.group_2800, 66);
    assert_eq!(mapped.group_3200, 77);
}

#[test]
fn by_rating_group_try_map_stops_at_the_first_error() {
    let seen = std::cell::Cell::new(0u32);
    let mapped: Result<ByRatingGroup<u32>, RatingGroup> = numbers().try_map(|group, value| {
        seen.set(seen.get() + 1);
        if value >= 2 {
            Err(group)
        } else {
            Ok(value)
        }
    });
    assert_eq!(mapped.err(), Some(RatingGroup::Group1800));
    assert_eq!(seen.get(), 3);
}

#[test]
fn by_speed_gives_the_value_of_the_speed() {
    let mut values = BySpeed {
        ultra_bullet: 0,
        bullet: 1,
        blitz: 2,
        rapid: 3,
        classical: 4,
        correspondence: 5,
    };
    assert_eq!(*values.by_speed(Speed::Rapid), 3);
    *values.by_speed_mut(Speed::Rapid) = 33;
    assert_eq!(values.rapid, 33);
    assert_eq!(values.blitz, 2);
    assert_eq!(*values.as_ref().classical, 4);
}

#[test]
fn header_packs_speed_group_and_count_into_a_byte() {
    assert_eq!(header_bytes(LichessHeader::End), vec![0x00]);
    let header = |speed, rating_group, num_games| LichessHeader::Group {
        rating_group,
        speed,
        num_games,
    };
    assert_eq!(header_bytes(header(Speed::UltraBullet, RatingGroup::GroupLow, 0)), vec![1]);
    assert_eq!(header_bytes(header(Speed::Blitz, RatingGroup::GroupLow, 1)), vec![3 + 64]);
    assert_eq!(
        header_bytes(header(Speed::Correspondence, RatingGroup::Group3200, 2)),
        vec![6 + 7 * 8 + 2 * 64]
    );
    assert_eq!(
        header_bytes(header(Speed::Bullet, RatingGroup::Group1600, 3)),
        vec![2 + 8 + 3 * 64, 3]
    );
    assert_eq!(
        header_bytes(header(Speed::Bullet, RatingGroup::Group1600, 300)),
        vec![2 + 8 + 3 * 64, 0xac, 0x02]
    );
}

#[test]
fn header_round_trips() {
    let counts: [u64; 7] = [0, 1, 2, 3, 15, 128, u64::MAX];
    let mut s: usize = 0;
    while s < 6 {
        let mut g: usize = 0;
        while g < 8 {
            for num_games in counts {
                let header = LichessHeader::Group {
                    rating_group: RatingGroup::from_index(g),
                    speed: Speed::from_index(s),
                    num_games,
                };
                let bytes = header_bytes(header);
                let mut reader = ByteReader::new(&bytes);
                assert_eq!(LichessHeader::read(&mut reader), Ok(header));
                assert_eq!(reader.remaining(), 0);
            }
            g += 1;
        }
        s += 1;
    }
    let mut reader = ByteReader::new(&[0]);
    assert_eq!(LichessHeader::read(&mut reader), Ok(LichessHeader::End));
}

#[test]
fn header_read_errors_and_end() {
    let mut reader = ByteReader::new(&[]);
    assert_eq!(LichessHeader::read(&mut reader), Err(CodecError::UnexpectedEof));
    // Speed 7.
    let mut reader = ByteReader::new(&[7]);
    assert_eq!(LichessHeader::read(&mut reader), Err(CodecError::InvalidData));
    // Three or more games, and the count is missing.
    let mut reader = ByteReader::new(&[3 + 3 * 64]);
    assert_eq!(LichessHeader::read(&mut reader), Err(CodecError::UnexpectedEof));
    // Speed 0 ends the move whatever the other bits say.
    let mut reader = ByteReader::new(&[0xf8, 0x55]);
    assert_eq!(LichessHeader::read(&mut reader), Ok(LichessHeader::End));
    assert_eq!(reader.remaining(), 1);
    // The count after the byte is read as a whole integer.
    let mut reader = ByteReader::new(&[3 + 3 * 64, 0x80, 0x01]);
    assert_eq!(
        LichessHeader::read(&mut reader),
        Ok(LichessHeader::Group {
            rating_group: RatingGroup::GroupLow,
            speed: Speed::Blitz,
            num_games: 128
        })
    );
}

#[test]
fn group_adds_results_and_appends_games() {
    let mut group = LichessGroup::default();
    assert!(group.stats.is_empty());
    assert_eq!(group.games(), vec![]);
    group.add_assign(LichessGroup::new_single(Stats::new_single(Outcome::Draw, 1500), 4, game(1)));
    group.add_assign(LichessGroup::new_single(
        Stats::new_single(Outcome::Decisive { winner: Color::White }, 1400),
        9,
        game(2),
    ));
    assert_eq!(group.stats, Stats { white: 1, draws: 1, black: 0, rating_sum: 2900 });
    assert_eq!(group.games(), vec![(4, game(1)), (9, game(2))]);
    let mut other = LichessGroup::default();
    other.add_assign(group);
    assert_eq!(other.games(), vec![(4, game(1)), (9, game(2))]);
}

#[test]
fn merging_reads_the_value_and_the_operands_in_order() {
    let a = single(E2E4, Speed::Blitz, 1, Outcome::Draw, 1500);
    let b = single(D2D4, Speed::Rapid, 2, Outcome::Decisive { winner: Color::White }, 2100);
    let c = single(E2E4, Speed::Blitz, 3, Outcome::Decisive { winner: Color::Black }, 1550);
    let mut joined = a.clone();
    joined.extend_from_slice(&b);
    joined.extend_from_slice(&c);
    let expected = written(&read(&joined));

    assert_eq!(merge_operands(&Some(a.clone()), &vec![b.clone(), c.clone()]), Ok(expected.clone()));
    assert_eq!(merge_operands(&None, &vec![a.clone(), b.clone(), c.clone()]), Ok(expected.clone()));
    let mut bc = b.clone();
    bc.extend_from_slice(&c);
    assert_eq!(merge_operands(&Some(a.clone()), &vec![bc]), Ok(expected.clone()));
    assert_eq!(merge_operands(&Some(joined), &vec![]), Ok(expected));
    assert_eq!(merge_operands(&None, &vec![]), Ok(vec![]));
}

#[test]
fn merging_fails_on_the_first_byte_string_that_cannot_be_read() {
    let a = single(E2E4, Speed::Blitz, 1, Outcome::Draw, 1500);
    let cut = a[..5].to_vec();
    let bad = vec![0x01, 0x70, 0x00];
    assert_eq!(merge_operands(&Some(cut.clone()), &vec![bad.clone()]), Err(CodecError::UnexpectedEof));
    assert_eq!(merge_operands(&Some(a.clone()), &vec![bad.clone(), cut.clone()]), Err(CodecError::InvalidData));
    assert_eq!(merge_operands(&None, &vec![a, cut, bad]), Err(CodecError::UnexpectedEof));
}

#[test]
fn new_single_holds_one_game_at_index_zero() {
    let entry = LichessEntry::new_single(E2E4, Speed::Blitz, game(1), Outcome::Draw, 1700, 1900);
    assert_eq!(entry.len(), 1);
    assert_eq!(entry.max_game_idx(), 0);
    assert_eq!(
        entry.get_group(E2E4, Speed::Blitz, RatingGroup::Group1800),
        Some((Stats { white: 0, draws: 1, black: 0, rating_sum: 1700 }, vec![(0, game(1))]))
    );
    // Written and read back into the entry without moves, the game has the first index.
    let again = read(&written(&entry));
    assert_eq!(again.max_game_idx(), 1);
    assert_eq!(
        again.get_group(E2E4, Speed::Blitz, RatingGroup::Group1800),
        Some((Stats { white: 0, draws: 1, black: 0, rating_sum: 1700 }, vec![(1, game(1))]))
    );
    assert_eq!(
        entry.get_group(E2E4, Speed::Blitz, RatingGroup::Group1600),
        Some((Stats::zero(), vec![]))
    );
    assert_eq!(
        entry.get_group(E2E4, Speed::Rapid, RatingGroup::Group1800),
        Some((Stats::zero(), vec![]))
    );
    assert_eq!(entry.get_group(D2D4, Speed::Blitz, RatingGroup::Group1800), None);
}

#[test]
fn new_single_is_written_in_sixteen_bytes() {
    let id = GameId::from_str("abcd1234").expect("valid game id");
    let entry = LichessEntry::new_single(E2E4, Speed::Blitz, id, Outcome::Draw, 1500, 1500);
    assert_eq!(
        written(&entry),
        vec![
            0x0c, 0x07, // e2e4
            0x43, // blitz, lowest group, one game
            0x00, 0x01, 0x00, 0xdc, 0x0b, // no win, one draw, no loss, rating sum 1500
            0x00, // the first index after those of the entry that reads it
            0x0a, 0xe6, 0xad, 0xdd, 0xf7, 0x0c, // abcd1234
            0x00, // end of the move
        ]
    );
}

#[test]
fn empty_entry_is_written_as_nothing() {
    let entry = LichessEntry::new();
    assert_eq!(entry.len(), 0);
    assert_eq!(entry.max_game_idx(), 0);
    assert_eq!(written(&entry), Vec::<u8>::new());
    let entry = read(&[]);
    assert_eq!(entry.len(), 0);
}

#[test]
fn reading_raises_indices_beyond_those_held() {
    let bytes = single(E2E4, Speed::Blitz, 1, Outcome::Draw, 1500);
    let mut entry = read(&bytes);
    assert_eq!(entry.max_game_idx(), 1);
    entry.extend_from_reader(&mut ByteReader::new(&bytes)).expect("valid entry");
    assert_eq!(entry.max_game_idx(), 2);
    let (stats, games) =
        entry.get_group(E2E4, Speed::Blitz, RatingGroup::GroupLow).expect("move is there");
    assert_eq!(stats, Stats { white: 0, draws: 2, black: 0, rating_sum: 3000 });
    assert_eq!(games, vec![(1, game(1)), (2, game(1))]);
}

#[test]
fn a_single_trailing_byte_is_passed_over() {
    let mut bytes = single(E2E4, Speed::Blitz, 1, Outcome::Draw, 1500);
    bytes.push(0x55);
    let entry = read(&bytes);
    assert_eq!(entry.len(), 1);
    assert_eq!(read(&[0x55]).len(), 0);
}

#[test]
fn reading_in_pieces_is_reading_in_one_piece() {
    let a = single(E2E4, Speed::Blitz, 1, Outcome::Draw, 1500);
    let b = single(D2D4, Speed::Rapid, 2, Outcome::Decisive { winner: Color::White }, 2100);
    let c = single(E2E4, Speed::Blitz, 3, Outcome::Decisive { winner: Color::Black }, 1550);

    let mut one_by_one = LichessEntry::new();
    for bytes in [&a, &b, &c] {
        one_by_one.extend_from_reader(&mut ByteReader::new(bytes)).expect("valid entry");
    }

    let mut joined = a.clone();
    joined.extend_from_slice(&b);
    joined.extend_from_slice(&c);
    let at_once = read(&joined);

    let mut ab = a.clone();
    ab.extend_from_slice(&b);
    let mut first_two = read(&ab);
    first_two.extend_from_reader(&mut ByteReader::new(&c)).expect("valid entry");

    let mut bc = b.clone();
    bc.extend_from_slice(&c);
    let mut last_two = read(&a);
    last_two.extend_from_reader(&mut ByteReader::new(&bc)).expect("valid entry");

    let expected = written(&one_by_one);
    assert_eq!(written(&at_once), expected);
    assert_eq!(written(&first_two), expected);
    assert_eq!(written(&last_two), expected);
    assert_eq!(at_once.max_game_idx(), 3);
    assert_eq!(at_once.len(), 2);
    assert_eq!(
        at_once.get_group(E2E4, Speed::Blitz, RatingGroup::GroupLow),
        Some((
            Stats { white: 0, draws: 1, black: 1, rating_sum: 3050 },
            vec![(1, game(1)), (3, game(3))]
        ))
    );
    assert_eq!(
        at_once.get_group(D2D4, Speed::Rapid, RatingGroup::Group2000),
        Some((Stats { white: 1, draws: 0, black: 0, rating_sum: 2100 }, vec![(2, game(2))]))
    );
}

#[test]
fn a_compaction_between_operands_changes_nothing() {
    let white = Outcome::Decisive { winner: Color::White };
    let o1 = single(E2E4, Speed::Blitz, 1, Outcome::Draw, 1500);
    let o2 = single(D2D4, Speed::Rapid, 2, white, 2100);
    let o3 = single(E2E4, Speed::Blitz, 3, white, 1550);
    let mut all = o1.clone();
    all.extend_from_slice(&o2);
    all.extend_from_slice(&o3);
    let plain = read(&all);

    let mut first_two = o1.clone();
    first_two.extend_from_slice(&o2);
    let mut left = written(&read(&first_two));
    left.extend_from_slice(&o3);
    let left = read(&left);

    let mut last_two = o2.clone();
    last_two.extend_from_slice(&o3);
    let mut right = o1.clone();
    right.extend_from_slice(&written(&read(&last_two)));
    let right = read(&right);

    for entry in [&left, &right] {
        assert_eq!(entry.max_game_idx(), 3);
        assert_eq!(entry.len(), 2);
        assert_eq!(
            entry.get_group(E2E4, Speed::Blitz, RatingGroup::GroupLow),
            plain.get_group(E2E4, Speed::Blitz, RatingGroup::GroupLow)
        );
        assert_eq!(
            entry.get_group(D2D4, Speed::Rapid, RatingGroup::Group2000),
            plain.get_group(D2D4, Speed::Rapid, RatingGroup::Group2000)
        );
        assert_eq!(written(entry), written(&plain));
    }
    assert_eq!(
        plain.get_group(E2E4, Speed::Blitz, RatingGroup::GroupLow),
        Some((
            Stats { white: 1, draws: 1, black: 0, rating_sum: 3050 },
            vec![(1, game(1)), (3, game(3))]
        ))
    );
}

#[test]
fn moves_are_written_in_the_order_in_which_they_came() {
    let mut joined = single(G1F3, Speed::Blitz, 1, Outcome::Draw, 1500);
    joined.extend_from_slice(&single(E2E4, Speed::Blitz, 2, Outcome::Draw, 1500));
    joined.extend_from_slice(&single(G1F3, Speed::Blitz, 3, Outcome::Draw, 1500));
    let bytes = written(&read(&joined));
    // g1f3 first, then e2e4.
    assert_eq!(&bytes[..2], &[0x46, 0x05]);
    // The move of e2e4 takes 25 bytes: the distance of its game wraps.
    let second = bytes.len() - 25;
    assert_eq!(&bytes[second..second + 2], &[0x0c, 0x07]);
}

#[test]
fn only_the_fifteen_newest_games_of_a_group_are_written() {
    let mut entry = LichessEntry::new();
    let mut n: u64 = 1;
    while n <= 20 {
        let bytes = single(E2E4, Speed::Blitz, n, Outcome::Draw, 1500);
        entry.extend_from_reader(&mut ByteReader::new(&bytes)).expect("valid entry");
        n += 1;
    }
    assert_eq!(entry.max_game_idx(), 20);
    let (stats, games) =
        entry.get_group(E2E4, Speed::Blitz, RatingGroup::GroupLow).expect("move is there");
    assert_eq!(games.len(), 20);
    assert_eq!(stats.draws, 20);

    let compacted = read(&written(&entry));
    let (stats, games) =
        compacted.get_group(E2E4, Speed::Blitz, RatingGroup::GroupLow).expect("move is there");
    // The results of all twenty games are kept.
    assert_eq!(stats, Stats { white: 0, draws: 20, black: 0, rating_sum: 30_000 });
    // Of the games those with an index above 20 - 15, under their indices.
    assert_eq!(games.len(), 15);
    let expected: Vec<(u64, GameId)> = (6..=20).map(|n| (n, game(n))).collect();
    assert_eq!(games, expected);
    assert_eq!(compacted.max_game_idx(), 20);
}

#[test]
fn the_only_game_of_a_group_is_always_written() {
    let mut entry = read(&single(D2D4, Speed::Rapid, 99, Outcome::Draw, 1500));
    let mut n: u64 = 1;
    while n <= 30 {
        let bytes = single(E2E4, Speed::Blitz, n, Outcome::Draw, 1500);
        entry.extend_from_reader(&mut ByteReader::new(&bytes)).expect("valid entry");
        n += 1;
    }
    let compacted = read(&written(&entry));
    let (stats, games) =
        compacted.get_group(D2D4, Speed::Rapid, RatingGroup::GroupLow).expect("move is there");
    assert_eq!(stats.draws, 1);
    assert_eq!(games.len(), 1);
    assert_eq!(games[0].1, game(99));
    let (_, games) =
        compacted.get_group(E2E4, Speed::Blitz, RatingGroup::GroupLow).expect("move is there");
    assert_eq!(games.len(), 15);
}

#[test]
fn results_without_games_are_kept() {
    // e2e4, blitz in the lowest group without games, two wins of white, rating sum 3000.
    let bytes = vec![0x0c, 0x07, 0x03, 0x02, 0x00, 0x00, 0xb8, 0x17, 0x00];
    let entry = read(&bytes);
    assert_eq!(
        entry.get_group(E2E4, Speed::Blitz, RatingGroup::GroupLow),
        Some((Stats { white: 2, draws: 0, black: 0, rating_sum: 3000 }, vec![]))
    );
    assert_eq!(entry.max_game_idx(), 0);
    assert_eq!(written(&entry), bytes);
}

#[test]
fn a_group_without_results_and_games_is_not_written() {
    // e2e4 with a group whose counts are zero, the rating sum alone is not kept.
    let bytes = vec![0x0c, 0x07, 0x03, 0x00, 0x00, 0x00, 0x05, 0x00];
    let entry = read(&bytes);
    assert_eq!(
        entry.get_group(E2E4, Speed::Blitz, RatingGroup::GroupLow),
        Some((Stats { white: 0, draws: 0, black: 0, rating_sum: 5 }, vec![]))
    );
    assert_eq!(written(&entry), vec![0x0c, 0x07, 0x00]);
}

#[test]
fn compaction_of_an_entry_without_games_comes_to_rest() {
    let mut bytes = vec![0x0c, 0x07, 0x03, 0x02, 0x00, 0x01, 0xb8, 0x17, 0x00];
    bytes.extend_from_slice(&[0x0b, 0x06, 0x0c, 0x00, 0x05, 0x00, 0x00, 0x00]);
    bytes.extend_from_slice(&[0x0c, 0x07, 0x03, 0x01, 0x00, 0x00, 0x01, 0x00]);
    let once = written(&read(&bytes));
    let twice = written(&read(&once));
    assert_eq!(once, twice);
    assert_ne!(once, bytes);
}

#[test]
fn compaction_of_an_entry_of_one_game_comes_to_rest() {
    let bytes = single(E2E4, Speed::Blitz, 1, Outcome::Draw, 1500);
    let once = written(&read(&bytes));
    let twice = written(&read(&once));
    assert_eq!(once, bytes);
    assert_eq!(twice, once);
}

#[test]
fn compaction_keeps_the_indices_of_games_across_moves() {
    // e2e4, then d2d4, then e2e4 again: the games of e2e4 have the indices 1 and 3.
    let mut joined = single(E2E4, Speed::Blitz, 1, Outcome::Draw, 1500);
    joined.extend_from_slice(&single(D2D4, Speed::Blitz, 2, Outcome::Draw, 1500));
    joined.extend_from_slice(&single(E2E4, Speed::Blitz, 3, Outcome::Draw, 1500));
    let entry = read(&joined);
    let once = written(&entry);
    let again = read(&once);
    assert_eq!(again.max_game_idx(), 3);
    assert_eq!(
        again.get_group(E2E4, Speed::Blitz, RatingGroup::GroupLow),
        Some((
            Stats { white: 0, draws: 2, black: 0, rating_sum: 3000 },
            vec![(1, game(1)), (3, game(3))]
        ))
    );
    assert_eq!(
        again.get_group(D2D4, Speed::Blitz, RatingGroup::GroupLow),
        Some((Stats { white: 0, draws: 1, black: 0, rating_sum: 1500 }, vec![(2, game(2))]))
    );
    assert_eq!(written(&again), once);
    // The game of d2d4 lies two before the first index after e2e4: its distance wraps.
    let d2d4 = once.len() - 25;
    assert_eq!(&once[d2d4..d2d4 + 2], &[0xcb, 0x06]);
    assert_eq!(
        &once[d2d4 + 8..d2d4 + 18],
        &[0xfe, 0xff, 0xff, 0xff, 0xff, 0xff, 0xff, 0xff, 0xff, 0x01]
    );
}

#[test]
fn compaction_comes_to_rest_after_one_round() {
    let moves = [E2E4, D2D4, G1F3];
    let mut entry = LichessEntry::new();
    let mut n: u64 = 1;
    while n <= 60 {
        let uci = moves[(n % 3) as usize];
        let speed = Speed::from_index((n % 2) as usize);
        let bytes = single(uci, speed, n, Outcome::Draw, 1500 + (n as u16 % 5) * 200);
        entry.extend_from_reader(&mut ByteReader::new(&bytes)).expect("valid entry");
        n += 1;
    }
    let once = written(&entry);
    let again = read(&once);
    let twice = written(&again);
    assert_eq!(twice, once);
    assert_eq!(again.max_game_idx(), 60);
    // What comes later is newer than all that was kept.
    let mut merged = read(&once);
    let next = single(E2E4, Speed::Bullet, 61, Outcome::Draw, 1500);
    merged.extend_from_reader(&mut ByteReader::new(&next)).expect("valid entry");
    assert_eq!(merged.max_game_idx(), 61);
    let thrice = written(&read(&written(&merged)));
    assert_eq!(thrice, written(&merged));
}

#[test]
fn extend_from_reader_errors() {
    let whole = single(E2E4, Speed::Blitz, 1, Outcome::Draw, 1500);
    // Cut anywhere after the move, the bytes end in the middle of a value.
    let mut cut: usize = 2;
    while cut < whole.len() {
        let mut entry = LichessEntry::new();
        let mut reader = ByteReader::new(&whole[..cut]);
        assert_eq!(entry.extend_from_reader(&mut reader), Err(CodecError::UnexpectedEof));
        cut += 1;
    }
    // A role that is none.
    let mut entry = LichessEntry::new();
    assert_eq!(
        entry.extend_from_reader(&mut ByteReader::new(&[0x01, 0x70, 0x00])),
        Err(CodecError::InvalidData)
    );
    // A speed that is none.
    let mut entry = LichessEntry::new();
    assert_eq!(
        entry.extend_from_reader(&mut ByteReader::new(&[0x0c, 0x07, 0x07])),
        Err(CodecError::InvalidData)
    );
    // A game identifier that is none.
    let mut bytes = whole.clone();
    for byte in &mut bytes[9..15] {
        *byte = 0xff;
    }
    let mut entry = LichessEntry::new();
    assert_eq!(
        entry.extend_from_reader(&mut ByteReader::new(&bytes)),
        Err(CodecError::InvalidData)
    );
}

#[test]
fn game_indices_wrap() {
    // The distance of the game is the highest that there is: its index is 0.
    let mut bytes = vec![0x0c, 0x07, 0x43, 0x00, 0x01, 0x00, 0x00];
    bytes.extend_from_slice(&[0xff, 0xff, 0xff, 0xff, 0xff, 0xff, 0xff, 0xff, 0xff, 0x01]);
    bytes.extend_from_slice(&[1, 0, 0, 0, 0, 0, 0x00]);
    let entry = read(&bytes);
    assert_eq!(entry.max_game_idx(), 0);
    assert_eq!(
        entry.get_group(E2E4, Speed::Blitz, RatingGroup::GroupLow),
        Some((Stats { white: 0, draws: 1, black: 0, rating_sum: 0 }, vec![(0, GameId(1))]))
    );
    // The index 0 is written as the first index.
    let once = written(&entry);
    assert_eq!(
        once,
        vec![0x0c, 0x07, 0x43, 0x00, 0x01, 0x00, 0x00, 0x00, 1, 0, 0, 0, 0, 0, 0x00]
    );
    let again = read(&once);
    assert_eq!(again.max_game_idx(), 1);
    assert_eq!(
        again.get_group(E2E4, Speed::Blitz, RatingGroup::GroupLow),
        Some((Stats { white: 0, draws: 1, black: 0, rating_sum: 0 }, vec![(1, GameId(1))]))
    );
    assert_eq!(written(&again), once);
}

#[test]
fn extend_from_reader_rejects_what_does_not_fit() {
    // Counts whose sum leaves the u64.
    let mut bytes = vec![0x0c, 0x07, 0x03];
    bytes.extend_from_slice(&[0xff, 0xff, 0xff, 0xff, 0xff, 0xff, 0xff, 0xff, 0xff, 0x01]);
    bytes.extend_from_slice(&[0x00, 0x00, 0x00, 0x00]);
    let mut entry = read(&bytes);
    assert_eq!(
        entry.extend_from_reader(&mut ByteReader::new(&bytes)),
        Err(CodecError::InvalidData)
    );
}

#[test]
fn promotions_and_drops_are_moves_of_an_entry() {
    let promotion = UciMove::Normal { from: 52, to: 60, promotion: Some(Role::Queen) };
    let drop = UciMove::Put { role: Role::Knight, to: 20 };
    let mut joined = single(promotion, Speed::Bullet, 1, Outcome::Draw, 2900);
    joined.extend_from_slice(&single(drop, Speed::Classical, 2, Outcome::Draw, 2900));
    joined.extend_from_slice(&single(UciMove::Null, Speed::UltraBullet, 3, Outcome::Draw, 2900));
    let entry = read(&joined);
    assert_eq!(entry.len(), 3);
    assert!(entry.get_group(promotion, Speed::Bullet, RatingGroup::Group2800).is_some());
    assert!(entry.get_group(drop, Speed::Classical, RatingGroup::Group2800).is_some());
    let (stats, games) = entry
        .get_group(UciMove::Null, Speed::UltraBullet, RatingGroup::Group2800)
        .expect("move is there");
    assert_eq!(stats.draws, 1);
    assert_eq!(games, vec![(3, game(3))]);
}
