use lila_openingexplorer::indexer::PersonalMerge;
use lila_openingexplorer::model::color::{Color, Outcome};
use lila_openingexplorer::model::game_id::GameId;
use lila_openingexplorer::model::personal::{PersonalEntry, PersonalGroup, PersonalHeader};
use lila_openingexplorer::model::personal_merge::merge_operands;
use lila_openingexplorer::model::reader::{ByteReader, CodecError};
use lila_openingexplorer::model::speed::{ByMode, Mode, Speed};
use lila_openingexplorer::model::stats::Stats;
use lila_openingexplorer::model::uci::UciMove;
use lila_openingexplorer::model::Month;

const E2E4: UciMove = UciMove::Normal { from: 12, to: 28, promotion: None };
const D2D4: UciMove = UciMove::Normal { from: 11, to: 27, promotion: None };

fn game(n: u64) -> GameId {
    GameId(1000 + n)
}

fn single(uci: UciMove, speed: Speed, mode: Mode, n: u64, outcome: Outcome) -> Vec<u8> {
    let entry = PersonalEntry::new_single(uci, speed, mode, game(n), outcome);
    let mut bytes = Vec::new();
    entry.write(&mut bytes);
    bytes
}

fn read(bytes: &[u8]) -> PersonalEntry {
    let mut entry = PersonalEntry::new();
    entry.extend_from_reader(&mut ByteReader::new(bytes)).expect("valid entry");
    entry
}

fn written(entry: &PersonalEntry) -> Vec<u8> {
    let mut bytes = Vec::new();
    entry.write(&mut bytes);
    bytes
}

fn header_bytes(header: PersonalHeader) -> Vec<u8> {
    let mut bytes = Vec::new();
    header.write(&mut bytes);
    bytes
}

#[test]
fn personal_header_packs_speed_mode_and_count_into_a_byte() {
    assert_eq!(header_bytes(PersonalHeader::End), vec![0x00]);
    let header = |speed, mode, num_games| PersonalHeader::Group { mode, speed, num_games };
    assert_eq!(header_bytes(header(Speed::UltraBullet, Mode::Casual, 0)), vec![1]);
    assert_eq!(header_bytes(header(Speed::Blitz, Mode::Rated, 1)), vec![3 + 8 + 16]);
    assert_eq!(header_bytes(header(Speed::Correspondence, Mode::Rated, 14)), vec![6 + 8 + 14 * 16]);
    assert_eq!(header_bytes(header(Speed::Bullet, Mode::Casual, 15)), vec![2 + 15 * 16, 15]);
    assert_eq!(
        header_bytes(header(Speed::Bullet, Mode::Casual, 300)),
        vec![2 + 15 * 16, 0xac, 0x02]
    );
}

#[test]
fn personal_header_round_trips() {
    let counts: [u64; 7] = [0, 1, 14, 15, 16, 128, u64::MAX];
    let mut s: usize = 0;
    while s < 6 {
        let mut m: usize = 0;
        while m < 2 {
            for num_games in counts {
                let header = PersonalHeader::Group {
                    mode: Mode::from_index(m),
                    speed: Speed::from_index(s),
                    num_games,
                };
                let bytes = header_bytes(header);
                let mut reader = ByteReader::new(&bytes);
                assert_eq!(PersonalHeader::read(&mut reader), Ok(header));
                assert_eq!(reader.remaining(), 0);
            }
            m += 1;
        }
        s += 1;
    }
    assert_eq!(Mode::Casual.index(), 0);
    assert_eq!(Mode::Rated.index(), 1);
}

#[test]
fn personal_header_read_errors() {
    let mut reader = ByteReader::new(&[]);
    assert_eq!(PersonalHeader::read(&mut reader), Err(CodecError::UnexpectedEof));
    let mut reader = ByteReader::new(&[7]);
    assert_eq!(PersonalHeader::read(&mut reader), Err(CodecError::InvalidData));
    let mut reader = ByteReader::new(&[3 + 15 * 16]);
    assert_eq!(PersonalHeader::read(&mut reader), Err(CodecError::UnexpectedEof));
    let mut reader = ByteReader::new(&[0xf8]);
    assert_eq!(PersonalHeader::read(&mut reader), Ok(PersonalHeader::End));
}

#[test]
fn by_mode_gives_the_value_of_the_mode() {
    let mut values = ByMode { rated: 1, casual: 2 };
    assert_eq!(*values.by_mode(Mode::Rated), 1);
    assert_eq!(*values.by_mode(Mode::Casual), 2);
    *values.by_mode_mut(Mode::Casual) = 20;
    assert_eq!(values.casual, 20);
    assert_eq!(values.rated, 1);
    assert_eq!(*values.as_ref().casual, 20);
}

#[test]
fn personal_new_single_is_written_in_fifteen_bytes() {
    let id = GameId::from_str("abcd1234").expect("valid game id");
    let entry = PersonalEntry::new_single(E2E4, Speed::Blitz, Mode::Rated, id, Outcome::Draw);
    assert_eq!(entry.len(), 1);
    assert_eq!(entry.max_game_idx(), 0);
    assert_eq!(
        written(&entry),
        vec![
            0x0c, 0x07, // e2e4
            0x1b, // blitz, rated, one game
            0x00, 0x01, 0x00, 0x00, // no win, one draw, no loss, no rating
            0x00, // the first index after those of the entry that reads it
            0x0a, 0xe6, 0xad, 0xdd, 0xf7, 0x0c, // abcd1234
            0x00, // end of the move
        ]
    );
    assert_eq!(
        entry.get_group(E2E4, Speed::Blitz, Mode::Rated),
        Some((Stats { white: 0, draws: 1, black: 0, rating_sum: 0 }, vec![(0, id)]))
    );
    assert_eq!(entry.get_group(E2E4, Speed::Blitz, Mode::Casual), Some((Stats::zero(), vec![])));
    assert_eq!(entry.get_group(D2D4, Speed::Blitz, Mode::Rated), None);
}

#[test]
fn personal_group_adds_results_and_appends_games() {
    let mut group = PersonalGroup::default();
    group.add_assign(PersonalGroup::new_single(Stats::new_single(Outcome::Draw, 0), 4, game(1)));
    group.add_assign(PersonalGroup::new_single(Stats::new_single(Outcome::Draw, 0), 9, game(2)));
    assert_eq!(group.stats.draws, 2);
    assert_eq!(group.games(), vec![(4, game(1)), (9, game(2))]);
}

#[test]
fn personal_entries_merge_by_appending() {
    let white = Outcome::Decisive { winner: Color::White };
    let a = single(E2E4, Speed::Blitz, Mode::Rated, 1, Outcome::Draw);
    let b = single(D2D4, Speed::Rapid, Mode::Casual, 2, white);
    let c = single(E2E4, Speed::Blitz, Mode::Rated, 3, white);
    let mut joined = a.clone();
    joined.extend_from_slice(&b);
    joined.extend_from_slice(&c);
    let at_once = read(&joined);
    assert_eq!(at_once.len(), 2);
    assert_eq!(at_once.max_game_idx(), 3);
    assert_eq!(
        at_once.get_group(E2E4, Speed::Blitz, Mode::Rated),
        Some((
            Stats { white: 1, draws: 1, black: 0, rating_sum: 0 },
            vec![(1, game(1)), (3, game(3))]
        ))
    );
    assert_eq!(
        at_once.get_group(D2D4, Speed::Rapid, Mode::Casual),
        Some((Stats { white: 1, draws: 0, black: 0, rating_sum: 0 }, vec![(2, game(2))]))
    );

    let mut one_by_one = PersonalEntry::new();
    for bytes in [&a, &b, &c] {
        one_by_one.extend_from_reader(&mut ByteReader::new(bytes)).expect("valid entry");
    }
    let expected = written(&at_once);
    assert_eq!(written(&one_by_one), expected);
    assert_eq!(merge_operands(&Some(a.clone()), &vec![b.clone(), c.clone()]), Ok(expected.clone()));
    let mut bc = b.clone();
    bc.extend_from_slice(&c);
    assert_eq!(merge_operands(&Some(a.clone()), &vec![bc]), Ok(expected.clone()));
    assert_eq!(merge_operands(&None, &vec![a, b, c]), Ok(expected));
    assert_eq!(merge_operands(&None, &vec![vec![0x0c]]), Ok(vec![]));
    assert_eq!(merge_operands(&None, &vec![vec![0x0c, 0x07]]), Err(CodecError::UnexpectedEof));
}

#[test]
fn a_game_that_comes_again_is_kept_once() {
    let bytes = single(E2E4, Speed::Blitz, Mode::Rated, 1, Outcome::Draw);
    let mut entry = read(&bytes);
    entry.extend_from_reader(&mut ByteReader::new(&bytes)).expect("valid entry");
    let (stats, games) = entry.get_group(E2E4, Speed::Blitz, Mode::Rated).expect("move is there");
    // The results count twice, the game is held once, under its first index.
    assert_eq!(stats.draws, 2);
    assert_eq!(games, vec![(1, game(1))]);
    // The index of the game that was passed over is used up all the same.
    assert_eq!(entry.max_game_idx(), 2);
    // In another group the game is new.
    let casual = single(E2E4, Speed::Blitz, Mode::Casual, 1, Outcome::Draw);
    entry.extend_from_reader(&mut ByteReader::new(&casual)).expect("valid entry");
    let (_, games) = entry.get_group(E2E4, Speed::Blitz, Mode::Casual).expect("move is there");
    assert_eq!(games, vec![(3, game(1))]);
}

#[test]
fn only_the_fifteen_newest_games_of_a_personal_group_are_written() {
    let mut entry = PersonalEntry::new();
    let mut n: u64 = 1;
    while n <= 20 {
        let bytes = single(E2E4, Speed::Blitz, Mode::Rated, n, Outcome::Draw);
        entry.extend_from_reader(&mut ByteReader::new(&bytes)).expect("valid entry");
        n += 1;
    }
    let compacted = read(&written(&entry));
    let (stats, games) =
        compacted.get_group(E2E4, Speed::Blitz, Mode::Rated).expect("move is there");
    assert_eq!(stats.draws, 20);
    let expected: Vec<(u64, GameId)> = (6..=20).map(|n| (n, game(n))).collect();
    assert_eq!(games, expected);
    assert_eq!(compacted.max_game_idx(), 20);
}

#[test]
fn personal_compaction_comes_to_rest_after_one_round() {
    let moves = [E2E4, D2D4];
    let mut entry = PersonalEntry::new();
    let mut n: u64 = 1;
    while n <= 50 {
        let uci = moves[(n % 2) as usize];
        let mode = Mode::from_index((n % 3 % 2) as usize);
        let bytes = single(uci, Speed::Blitz, mode, n % 40, Outcome::Draw);
        entry.extend_from_reader(&mut ByteReader::new(&bytes)).expect("valid entry");
        n += 1;
    }
    let once = written(&entry);
    let again = read(&once);
    assert_eq!(written(&again), once);
    let one = single(E2E4, Speed::Blitz, Mode::Rated, 1, Outcome::Draw);
    assert_eq!(written(&read(&one)), one);
}

#[test]
fn personal_extend_from_reader_errors() {
    let whole = single(E2E4, Speed::Blitz, Mode::Rated, 1, Outcome::Draw);
    let mut cut: usize = 2;
    while cut < whole.len() {
        let mut entry = PersonalEntry::new();
        let mut reader = ByteReader::new(&whole[..cut]);
        assert_eq!(entry.extend_from_reader(&mut reader), Err(CodecError::UnexpectedEof));
        cut += 1;
    }
    let mut entry = PersonalEntry::new();
    assert_eq!(
        entry.extend_from_reader(&mut ByteReader::new(&[0x0c, 0x07, 0x07])),
        Err(CodecError::InvalidData)
    );
    // Counts whose sum leaves the u64.
    let mut bytes = vec![0x0c, 0x07, 0x03];
    bytes.extend_from_slice(&[0xff, 0xff, 0xff, 0xff, 0xff, 0xff, 0xff, 0xff, 0xff, 0x01]);
    bytes.extend_from_slice(&[0x00, 0x00, 0x00, 0x00]);
    let mut entry = read(&bytes);
    assert_eq!(
        entry.extend_from_reader(&mut ByteReader::new(&bytes)),
        Err(CodecError::InvalidData)
    );
}

#[test]
fn an_observation_is_merged_as_the_entry_of_one_game() {
    let id = GameId::from_str("abcd1234").expect("valid game id");
    let merge = PersonalMerge {
        color: Color::White,
        rules: shakmaty::variant::Variant::Chess,
        zobrist: 7,
        month: Month::from_str("2023/05").expect("valid month"),
        uci: E2E4,
        speed: Speed::Blitz,
        mode: Mode::Rated,
        game_id: id,
        outcome: Outcome::Draw,
    };
    let expected =
        written(&PersonalEntry::new_single(E2E4, Speed::Blitz, Mode::Rated, id, Outcome::Draw));
    assert_eq!(merge.operand(), expected);
    assert_eq!(written(&merge.entry()), expected);
    assert_eq!(expected.len(), 15);
}
