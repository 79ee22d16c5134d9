use lila_openingexplorer::model::color::{Color, Outcome};
use lila_openingexplorer::model::game_id::{GameId, InvalidGameId};
use lila_openingexplorer::model::reader::{write_u16, write_u48, ByteReader, CodecError};
use lila_openingexplorer::model::stats::Stats;
use lila_openingexplorer::model::uci::{read_uci, write_uci, Role, UciMove};
use lila_openingexplorer::model::uint::{read_uint, write_uint};
use lila_openingexplorer::model::user::UserId;

fn uint_bytes(n: u64) -> Vec<u8> {
    let mut bytes = Vec::new();
    write_uint(&mut bytes, n);
    bytes
}

#[test]
fn uint_writes_seven_bits_to_a_byte() {
    assert_eq!(uint_bytes(0), vec![0x00]);
    assert_eq!(uint_bytes(1), vec![0x01]);
    assert_eq!(uint_bytes(127), vec![0x7f]);
    assert_eq!(uint_bytes(128), vec![0x80, 0x01]);
    assert_eq!(uint_bytes(300), vec![0xac, 0x02]);
    assert_eq!(uint_bytes(1500), vec![0xdc, 0x0b]);
    assert_eq!(
        uint_bytes(u64::MAX),
        vec![0xff, 0xff, 0xff, 0xff, 0xff, 0xff, 0xff, 0xff, 0xff, 0x01]
    );
}

#[test]
fn uint_appends_to_what_is_there() {
    let mut bytes = vec![9u8];
    write_uint(&mut bytes, 128);
    assert_eq!(bytes, vec![9, 0x80, 0x01]);
}

#[test]
fn uint_round_trips() {
    let numbers: [u64; 12] = [
        0,
        1,
        127,
        128,
        255,
        16_383,
        16_384,
        1 << 32,
        (1 << 56) - 1,
        1 << 63,
        u64::MAX - 1,
        u64::MAX,
    ];
    for n in numbers {
        let mut bytes = uint_bytes(n);
        bytes.push(0xaa);
        let mut reader = ByteReader::new(&bytes);
        assert_eq!(read_uint(&mut reader), Ok(n));
        assert_eq!(reader.remaining(), 1);
        assert_eq!(reader.read_u8(), Ok(0xaa));
    }
}

#[test]
fn uint_reads_encodings_that_are_longer_than_needed() {
    let bytes = [0x80u8, 0x80, 0x00];
    let mut reader = ByteReader::new(&bytes);
    assert_eq!(read_uint(&mut reader), Ok(0));
    assert_eq!(reader.remaining(), 0);
}

#[test]
fn uint_read_errors() {
    let mut reader = ByteReader::new(&[]);
    assert_eq!(read_uint(&mut reader), Err(CodecError::UnexpectedEof));

    let bytes = [0x80u8];
    let mut reader = ByteReader::new(&bytes);
    assert_eq!(read_uint(&mut reader), Err(CodecError::UnexpectedEof));

    // Ten bytes that write two to the power 64.
    let bytes = [0x80u8, 0x80, 0x80, 0x80, 0x80, 0x80, 0x80, 0x80, 0x80, 0x02];
    let mut reader = ByteReader::new(&bytes);
    assert_eq!(read_uint(&mut reader), Err(CodecError::InvalidData));

    // An eleventh byte.
    let bytes = [0x80u8, 0x80, 0x80, 0x80, 0x80, 0x80, 0x80, 0x80, 0x80, 0x80, 0x00];
    let mut reader = ByteReader::new(&bytes);
    assert_eq!(read_uint(&mut reader), Err(CodecError::InvalidData));
}

#[test]
fn reader_reads_little_endian() {
    let bytes = [0x34u8, 0x12, 1, 2, 3, 4, 5, 6, 0xff];
    let mut reader = ByteReader::new(&bytes);
    assert_eq!(reader.remaining(), 9);
    assert_eq!(reader.read_u16(), Ok(0x1234));
    assert_eq!(reader.read_u48(), Ok(0x0605_0403_0201));
    assert_eq!(reader.read_u8(), Ok(0xff));
    assert_eq!(reader.read_u8(), Err(CodecError::UnexpectedEof));
    assert_eq!(reader.remaining(), 0);
}

#[test]
fn reader_reports_the_end() {
    let bytes = [1u8, 2, 3, 4, 5];
    let mut reader = ByteReader::new(&bytes);
    assert_eq!(reader.read_u48(), Err(CodecError::UnexpectedEof));
    let bytes = [1u8];
    let mut reader = ByteReader::new(&bytes);
    assert_eq!(reader.read_u16(), Err(CodecError::UnexpectedEof));
}

#[test]
fn writer_writes_little_endian() {
    let mut bytes = Vec::new();
    write_u16(&mut bytes, 0x1234);
    write_u48(&mut bytes, 0x0605_0403_0201);
    assert_eq!(bytes, vec![0x34, 0x12, 1, 2, 3, 4, 5, 6]);
}

fn uci_bytes(m: UciMove) -> Vec<u8> {
    let mut bytes = Vec::new();
    write_uci(&mut bytes, &m);
    bytes
}

#[test]
fn uci_encodes_in_two_bytes() {
    let e2e4 = UciMove::Normal { from: 12, to: 28, promotion: None };
    assert_eq!(e2e4.code(), 1804);
    assert_eq!(uci_bytes(e2e4), vec![0x0c, 0x07]);
    let e7e8q = UciMove::Normal { from: 52, to: 60, promotion: Some(Role::Queen) };
    assert_eq!(uci_bytes(e7e8q), vec![0x34, 0x5f]);
    let drop = UciMove::Put { role: Role::Queen, to: 53 };
    assert_eq!(uci_bytes(drop), vec![0x75, 0x5d]);
    assert_eq!(uci_bytes(UciMove::Null), vec![0x00, 0x00]);
}

#[test]
fn uci_round_trips() {
    let roles = [None, Some(Role::Pawn), Some(Role::Knight), Some(Role::Bishop), Some(Role::Rook),
        Some(Role::Queen), Some(Role::King)];
    let mut from: u8 = 0;
    while from < 64 {
        let mut to: u8 = 0;
        while to < 64 {
            for promotion in roles {
                if from != to {
                    let m = UciMove::Normal { from, to, promotion };
                    assert!(m.is_wf());
                    let bytes = uci_bytes(m);
                    let mut reader = ByteReader::new(&bytes);
                    assert_eq!(read_uci(&mut reader), Ok(m));
                    assert_eq!(UciMove::from_code(m.code()), Ok(m));
                }
            }
            to += 1;
        }
        for role in roles {
            if let Some(role) = role {
                let m = UciMove::Put { role, to: from };
                let bytes = uci_bytes(m);
                let mut reader = ByteReader::new(&bytes);
                assert_eq!(read_uci(&mut reader), Ok(m));
            }
        }
        from += 1;
    }
    let bytes = uci_bytes(UciMove::Null);
    let mut reader = ByteReader::new(&bytes);
    assert_eq!(read_uci(&mut reader), Ok(UciMove::Null));
}

#[test]
fn uci_read_errors() {
    let bytes = [0x0cu8];
    let mut reader = ByteReader::new(&bytes);
    assert_eq!(read_uci(&mut reader), Err(CodecError::UnexpectedEof));
    // Role 7.
    let bytes = [0x01u8, 0x70];
    let mut reader = ByteReader::new(&bytes);
    assert_eq!(read_uci(&mut reader), Err(CodecError::InvalidData));
    // Role 15.
    assert_eq!(UciMove::from_code(0xf040), Err(CodecError::InvalidData));
}

#[test]
fn uci_equal_squares_without_role_is_the_null_move() {
    // From b1 to b1.
    assert_eq!(UciMove::from_code(1 + 64), Ok(UciMove::Null));
    assert_eq!(UciMove::from_code(1 + 64 + 4096), Ok(UciMove::Put { role: Role::Pawn, to: 1 }));
}

#[test]
fn uci_wf_wants_squares_on_the_board() {
    assert!(!UciMove::Normal { from: 64, to: 1, promotion: None }.is_wf());
    assert!(!UciMove::Normal { from: 1, to: 64, promotion: None }.is_wf());
    assert!(!UciMove::Normal { from: 5, to: 5, promotion: None }.is_wf());
    assert!(!UciMove::Put { role: Role::Pawn, to: 64 }.is_wf());
    assert!(UciMove::Null.is_wf());
    assert_eq!(UciMove::normal(12, 28, None), Some(UciMove::Normal { from: 12, to: 28, promotion: None }));
    assert_eq!(UciMove::normal(12, 12, None), None);
    assert_eq!(UciMove::normal(12, 64, None), None);
}

#[test]
fn role_codes() {
    assert_eq!(Role::Pawn.code(), 1);
    assert_eq!(Role::King.code(), 6);
    assert_eq!(Role::from_code(0), None);
    assert_eq!(Role::from_code(3), Some(Role::Bishop));
    assert_eq!(Role::from_code(7), None);
}

#[test]
fn game_id_parses_base_62() {
    assert_eq!(GameId::from_str("abcd1234"), Ok(GameId(14_258_715_616_778)));
    assert_eq!(GameId::from_str("00000000"), Ok(GameId(0)));
    assert_eq!(GameId::from_str("10000000"), Ok(GameId(1)));
    assert_eq!(GameId::from_str("A0000000"), Ok(GameId(10)));
    assert_eq!(GameId::from_str("a0000000"), Ok(GameId(36)));
    assert_eq!(GameId::from_str("01000000"), Ok(GameId(62)));
    assert_eq!(GameId::from_str("zzzzzzzz"), Ok(GameId(218_340_105_584_895)));
}

#[test]
fn game_id_rejects_what_is_no_identifier() {
    assert_eq!(GameId::from_str("abcd123"), Err(InvalidGameId));
    assert_eq!(GameId::from_str("abcd12345"), Err(InvalidGameId));
    assert_eq!(GameId::from_str(""), Err(InvalidGameId));
    assert_eq!(GameId::from_str("abcd-234"), Err(InvalidGameId));
    assert_eq!(GameId::from_str("abcd123 "), Err(InvalidGameId));
    assert_eq!(GameId::from_str("abcd123\u{e9}"), Err(InvalidGameId));
}

#[test]
fn game_id_round_trips_through_its_text() {
    let names = ["abcd1234", "00000000", "zzzzzzzz", "Zz09AaBb", "q7ZvsdUF"];
    for name in names {
        let id = GameId::from_str(name).expect("valid game id");
        assert!(id.is_wf());
        assert_eq!(id.to_string(), name);
    }
    assert_eq!(GameId(14_258_715_616_778).to_string(), "abcd1234");
}

#[test]
fn game_id_is_stored_in_six_bytes() {
    let id = GameId::from_str("abcd1234").expect("valid game id");
    let mut bytes = Vec::new();
    id.write(&mut bytes);
    assert_eq!(bytes, vec![0x0a, 0xe6, 0xad, 0xdd, 0xf7, 0x0c]);
    let mut reader = ByteReader::new(&bytes);
    assert_eq!(GameId::read(&mut reader), Ok(id));
    assert_eq!(reader.remaining(), 0);
}

#[test]
fn game_id_read_errors() {
    let bytes = [1u8, 2, 3, 4, 5];
    let mut reader = ByteReader::new(&bytes);
    assert_eq!(GameId::read(&mut reader), Err(CodecError::UnexpectedEof));
    // 62 to the power 8, the first number that is no identifier.
    let mut bytes = Vec::new();
    write_u48(&mut bytes, 218_340_105_584_896);
    let mut reader = ByteReader::new(&bytes);
    assert_eq!(GameId::read(&mut reader), Err(CodecError::InvalidData));
    assert!(!GameId(218_340_105_584_896).is_wf());
}

#[test]
fn stats_of_one_game() {
    let white = Stats::new_single(Outcome::Decisive { winner: Color::White }, 1500);
    assert_eq!(white, Stats { white: 1, draws: 0, black: 0, rating_sum: 1500 });
    let black = Stats::new_single(Outcome::Decisive { winner: Color::Black }, 2000);
    assert_eq!(black, Stats { white: 0, draws: 0, black: 1, rating_sum: 2000 });
    let draw = Stats::new_single(Outcome::Draw, 0);
    assert_eq!(draw, Stats { white: 0, draws: 1, black: 0, rating_sum: 0 });
    assert!(!draw.is_empty());
    assert!(Stats::zero().is_empty());
    assert!(Stats { white: 0, draws: 0, black: 0, rating_sum: 7 }.is_empty());
}

#[test]
fn stats_add_field_by_field() {
    let a = Stats { white: 1, draws: 2, black: 3, rating_sum: 1000 };
    let b = Stats { white: 10, draws: 20, black: 30, rating_sum: 2000 };
    let sum = Stats { white: 11, draws: 22, black: 33, rating_sum: 3000 };
    assert_eq!(a.checked_add(&b), Some(sum));
    assert_eq!(b.checked_add(&a), Some(sum));
    assert_eq!(a.checked_add(&Stats::zero()), Some(a));
    let mut c = a;
    c.add_assign(&b);
    assert_eq!(c, sum);
    assert_eq!(sum.total(), Some(66));
    let full = Stats { white: u64::MAX, draws: 0, black: 0, rating_sum: 0 };
    assert_eq!(full.checked_add(&a), None);
    assert_eq!(Stats { white: 0, draws: 0, black: 0, rating_sum: u64::MAX }.checked_add(&a), None);
    assert_eq!(full.total(), Some(u64::MAX));
    assert_eq!(Stats { white: u64::MAX, draws: 1, black: 0, rating_sum: 0 }.total(), None);
}

#[test]
fn stats_are_written_as_four_integers() {
    let stats = Stats { white: 1, draws: 128, black: 0, rating_sum: 1500 };
    let mut bytes = Vec::new();
    stats.write(&mut bytes);
    assert_eq!(bytes, vec![0x01, 0x80, 0x01, 0x00, 0xdc, 0x0b]);
    let mut reader = ByteReader::new(&bytes);
    assert_eq!(Stats::read(&mut reader), Ok(stats));
    assert_eq!(reader.remaining(), 0);
    let mut reader = ByteReader::new(&bytes[..4]);
    assert_eq!(Stats::read(&mut reader), Err(CodecError::UnexpectedEof));
}

#[test]
fn outcome_from_winner() {
    assert_eq!(Outcome::from_winner(None), Outcome::Draw);
    assert_eq!(
        Outcome::from_winner(Some(Color::Black)),
        Outcome::Decisive { winner: Color::Black }
    );
    assert_eq!(Outcome::Draw.winner(), None);
    assert_eq!(Outcome::Decisive { winner: Color::White }.winner(), Some(Color::White));
    assert_eq!(Color::White.other(), Color::Black);
}

#[test]
fn user_id_is_lowercased() {
    let alice = UserId::new("Alice");
    assert_eq!(alice.as_str(), "alice");
    assert!(alice.same(&UserId::new("ALICE")));
    assert!(!alice.same(&UserId::new("bob")));
    assert_eq!(alice.copy(), alice);
}
