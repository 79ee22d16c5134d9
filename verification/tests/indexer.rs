use lila_openingexplorer::indexer::{
    build_table, classify_game, collapse_repetitions, color_of, from_raw, game_info_for,
    index_classified, personal_merges, plan_index_player, replay, responsible_indexer, rules_of,
    Classified, Enqueued, Game, GameStatus, IndexJob, IndexerOpt, Indexing, LilaVariant,
    PersonalMerge, Player, RawUci, Registration, SkipReason, QUEUE_CAPACITY,
};
use lila_openingexplorer::model::color::{ByColor, Color, Outcome};
use lila_openingexplorer::model::game_id::GameId;
use lila_openingexplorer::model::game_info::{already_indexed, GameInfo};
use lila_openingexplorer::model::speed::{Mode, Speed};
use lila_openingexplorer::model::status::PersonalStatus;
use lila_openingexplorer::model::uci::{Role, UciMove};
use lila_openingexplorer::model::user::UserId;
use lila_openingexplorer::model::Month;

const E2E4: UciMove = UciMove::Normal { from: 12, to: 28, promotion: None };
const E7E5: UciMove = UciMove::Normal { from: 52, to: 36, promotion: None };
const G1F3: UciMove = UciMove::Normal { from: 6, to: 21, promotion: None };
const G8F6: UciMove = UciMove::Normal { from: 62, to: 45, promotion: None };
const F3G1: UciMove = UciMove::Normal { from: 21, to: 6, promotion: None };
const F6G8: UciMove = UciMove::Normal { from: 45, to: 62, promotion: None };

fn sans(moves: &[&str]) -> Vec<String> {
    moves.iter().map(|san| san.to_string()).collect()
}

fn player(name: &str, rating: u16) -> Player {
    Player { user: Some(UserId::new(name)), rating: Some(rating) }
}

fn game_of(moves: &[&str]) -> Game {
    Game {
        id: GameId::from_str("abcd1234").expect("valid game id"),
        rated: true,
        created_at: 1_684_150_000_000,
        last_move_at: 1_684_152_000_000,
        status: GameStatus::Terminated,
        variant: LilaVariant::Standard,
        players: ByColor { white: player("alice", 1500), black: player("bob", 1600) },
        speed: Speed::Blitz,
        moves: sans(moves),
        winner: None,
        initial_fen: None,
    }
}

fn may_2023() -> Month {
    Month::from_str("2023/05").expect("valid month")
}

fn indexed_for(game: &Game, name: &str, info: &Option<GameInfo>) -> (GameInfo, Vec<PersonalMerge>) {
    let mut status = PersonalStatus::default();
    match classify_game(&UserId::new(name), game, &mut status) {
        Classified::Index { color, month, outcome } => {
            let indexed = index_classified(game, color, month, outcome, info).expect("not indexed yet");
            (indexed.game_info, indexed.merges)
        }
        Classified::Skip(reason) => panic!("skipped: {:?}", reason),
    }
}

#[test]
fn fresh_user_one_game() {
    let game = game_of(&["e4", "e5", "Nf3"]);
    let alice = UserId::new("alice");
    let mut status = PersonalStatus::default();
    let classified = classify_game(&alice, &game, &mut status);
    assert_eq!(
        classified,
        Classified::Index { color: Color::White, month: may_2023(), outcome: Outcome::Draw }
    );
    assert_eq!(status.latest_created_at, game.created_at);
    assert_eq!(status.revisit_ongoing_created_at, None);

    let (white_info, white) = indexed_for(&game, "alice", &None);
    assert_eq!(white.len(), 3);
    let mut ucis: Vec<UciMove> = white.iter().map(|merge| merge.uci).collect();
    ucis.sort_by_key(|uci| uci.code());
    assert_eq!(ucis, vec![G1F3, E2E4, E7E5]);
    for merge in &white {
        assert_eq!(merge.color, Color::White);
        assert_eq!(merge.month, may_2023());
        assert_eq!(merge.speed, Speed::Blitz);
        assert_eq!(merge.mode, Mode::Rated);
        assert_eq!(merge.game_id, game.id);
        assert_eq!(merge.outcome, Outcome::Draw);
        assert_eq!(merge.rules, shakmaty::variant::Variant::Chess);
    }
    assert_ne!(white[0].zobrist, white[1].zobrist);
    assert_ne!(white[0].zobrist, white[2].zobrist);
    assert_ne!(white[1].zobrist, white[2].zobrist);
    assert_eq!(white_info.indexed, ByColor { white: true, black: false });
    assert_eq!(white_info.winner, None);
    assert_eq!(white_info.speed, Speed::Blitz);
    assert!(white_info.rated);
    assert_eq!(white_info.month, may_2023());
    assert_eq!(white_info.players.white.name.as_deref(), Some("alice"));
    assert_eq!(white_info.players.white.rating, Some(1500));
    assert_eq!(white_info.players.black.name.as_deref(), Some("bob"));
    assert_eq!(white_info.players.black.rating, Some(1600));

    let stored = Some(white_info);
    let (black_info, black) = indexed_for(&game, "bob", &stored);
    assert_eq!(black.len(), 3);
    for merge in &black {
        assert_eq!(merge.color, Color::Black);
    }
    assert_eq!(black_info.indexed, ByColor { white: false, black: true });
    let mut merged = stored.expect("stored");
    merged.merge(&black_info);
    assert_eq!(merged.indexed, ByColor { white: true, black: true });
    assert_eq!(merged.players.white.name.as_deref(), Some("alice"));
}

#[test]
fn a_game_is_indexed_once_for_each_side() {
    let game = game_of(&["e4", "e5", "Nf3"]);
    let (info, _) = indexed_for(&game, "alice", &None);
    let stored = Some(info);
    assert!(already_indexed(&stored, Color::White));
    assert!(!already_indexed(&stored, Color::Black));
    assert!(!already_indexed(&None, Color::White));
    assert!(index_classified(&game, Color::White, may_2023(), Outcome::Draw, &stored).is_none());
    assert!(index_classified(&game, Color::Black, may_2023(), Outcome::Draw, &stored).is_some());
}

#[test]
fn repetition_collapse() {
    let game = game_of(&["Nf3", "Nf6", "Ng1", "Ng8", "Nf3", "Nf6", "Ng1", "Ng8", "e4"]);
    let plies = replay(game.variant, &game.initial_fen, &game.moves).expect("position is valid");
    assert_eq!(plies.len(), 9);
    assert_eq!(plies[0].0, plies[4].0);
    assert_eq!(plies[0].0, plies[8].0);
    assert_eq!(plies[1].0, plies[5].0);
    assert_ne!(plies[0].0, plies[1].0);
    let moves: Vec<UciMove> = plies.iter().map(|ply| ply.1).collect();
    assert_eq!(moves, vec![G1F3, G8F6, F3G1, F6G8, G1F3, G8F6, F3G1, F6G8, E2E4]);

    let (_, merges) = indexed_for(&game, "alice", &None);
    assert_eq!(merges.len(), 4);
    let start: Vec<&PersonalMerge> =
        merges.iter().filter(|merge| merge.zobrist == plies[0].0).collect();
    assert_eq!(start.len(), 1);
    assert_eq!(start[0].uci, E2E4);
    let (_, merges) = indexed_for(&game, "bob", &None);
    assert_eq!(merges.len(), 4);
    let start: Vec<&PersonalMerge> =
        merges.iter().filter(|merge| merge.zobrist == plies[0].0).collect();
    assert_eq!(start.len(), 1);
    assert_eq!(start[0].uci, E2E4);
}

#[test]
fn illegal_san_cutoff() {
    let game = game_of(&["e4", "e5", "Nf3", "Nc6", "Bb5", "a6", "Ba4", "??", "O-O"]);
    let plies = replay(game.variant, &game.initial_fen, &game.moves).expect("position is valid");
    assert_eq!(plies.len(), 7);
    let (info, merges) = indexed_for(&game, "alice", &None);
    assert_eq!(merges.len(), 7);
    assert_eq!(info.indexed, ByColor { white: true, black: false });

    // A move that is notation, but not legal where it stands.
    let game = game_of(&["e4", "e5", "Ke3", "Nc6"]);
    let plies = replay(game.variant, &game.initial_fen, &game.moves).expect("position is valid");
    assert_eq!(plies.len(), 2);
    // The next game is indexed as ever.
    let next = game_of(&["d4"]);
    let (_, merges) = indexed_for(&next, "alice", &None);
    assert_eq!(merges.len(), 1);
}

#[test]
fn ongoing_game() {
    let mut game = game_of(&["e4"]);
    game.status = GameStatus::Ongoing;
    game.created_at = 1000;
    let mut status = PersonalStatus::default();
    let classified = classify_game(&UserId::new("alice"), &game, &mut status);
    assert_eq!(classified, Classified::Skip(SkipReason::Ongoing));
    assert_eq!(status.revisit_ongoing_created_at, Some(1000));
    assert_eq!(status.latest_created_at, 1000);
    status.finish_run(77);

    // A second ongoing game does not take the place of the first.
    game.created_at = 2000;
    classify_game(&UserId::new("alice"), &game, &mut status);
    assert_eq!(status.revisit_ongoing_created_at, Some(1000));
    assert_eq!(status.latest_created_at, 2000);

    // The next run starts from the ongoing game, however soon it comes.
    let job = plan_index_player(&mut status, 78, 86_400, 5, 16);
    assert_eq!(job, Some(IndexJob { indexer: 5, since_created_at: 1000 }));
    assert_eq!(status.revisit_ongoing_created_at, None);
}

#[test]
fn games_that_stay_out_of_the_index() {
    let alice = UserId::new("alice");
    let mut status = PersonalStatus::default();

    let mut game = game_of(&["e4"]);
    game.status = GameStatus::Unindexable;
    assert_eq!(
        classify_game(&alice, &game, &mut status),
        Classified::Skip(SkipReason::Unindexable)
    );
    assert_eq!(status.revisit_ongoing_created_at, None);

    let mut game = game_of(&["e4"]);
    game.players.black.user = None;
    assert_eq!(
        classify_game(&alice, &game, &mut status),
        Classified::Skip(SkipReason::AnonymousPlayer)
    );

    let game = game_of(&["e4"]);
    assert_eq!(
        classify_game(&UserId::new("carol"), &game, &mut status),
        Classified::Skip(SkipReason::NotAPlayer)
    );

    let mut game = game_of(&["e4"]);
    game.last_move_at = i64::MAX;
    assert_eq!(
        classify_game(&alice, &game, &mut status),
        Classified::Skip(SkipReason::UnknownTime)
    );

    let mut game = game_of(&["e4"]);
    game.winner = Some(Color::Black);
    assert_eq!(
        classify_game(&UserId::new("BOB"), &game, &mut status),
        Classified::Index {
            color: Color::Black,
            month: may_2023(),
            outcome: Outcome::Decisive { winner: Color::Black }
        }
    );
}

#[test]
fn the_latest_game_seen_never_moves_back() {
    let alice = UserId::new("alice");
    let mut status = PersonalStatus::default();
    let mut latest: u64 = 0;
    for created_at in [500u64, 300, 900, 900, 100, 1200, 0] {
        let mut game = game_of(&["e4"]);
        game.created_at = created_at;
        classify_game(&alice, &game, &mut status);
        assert!(status.latest_created_at >= latest);
        assert!(status.latest_created_at >= created_at);
        latest = status.latest_created_at;
    }
    assert_eq!(status.latest_created_at, 1200);
}

#[test]
fn color_of_finds_the_side_of_a_player() {
    let players = ByColor { white: player("alice", 1500), black: player("bob", 1600) };
    assert_eq!(color_of(&players, &UserId::new("alice")), Some(Color::White));
    assert_eq!(color_of(&players, &UserId::new("bob")), Some(Color::Black));
    assert_eq!(color_of(&players, &UserId::new("carol")), None);
    let both = ByColor { white: player("alice", 1500), black: player("alice", 1500) };
    assert_eq!(color_of(&both, &UserId::new("alice")), Some(Color::White));
    let anonymous = ByColor { white: Player { user: None, rating: None }, black: player("bob", 1) };
    assert_eq!(color_of(&anonymous, &UserId::new("bob")), Some(Color::Black));
    assert_eq!(*players.by_color(Color::Black).rating.as_ref().expect("rated"), 1600);
    assert_eq!(players.into_color(Color::White).rating, Some(1500));
}

#[test]
fn replay_starts_from_a_position_of_its_own() {
    let fen = Some("rnbqkbnr/pppppppp/8/8/4P3/8/PPPP1PPP/RNBQKBNR b KQkq - 0 1".to_string());
    let plies = replay(LilaVariant::FromPosition, &fen, &sans(&["e5", "Nf3"])).expect("valid");
    let moves: Vec<UciMove> = plies.iter().map(|ply| ply.1).collect();
    assert_eq!(moves, vec![E7E5, G1F3]);
    let usual = replay(LilaVariant::Standard, &None, &sans(&["e4", "e5", "Nf3"])).expect("valid");
    assert_eq!(plies[0].0, usual[1].0);
    assert_eq!(plies[1].0, usual[2].0);
}

#[test]
fn replay_refuses_a_position_that_is_none() {
    let fen = Some("no position".to_string());
    assert_eq!(replay(LilaVariant::Standard, &fen, &sans(&["e4"])), None);
    // Two kings next to each other.
    let fen = Some("8/8/8/8/8/8/8/Kk6 w - - 0 1".to_string());
    assert_eq!(replay(LilaVariant::Standard, &fen, &sans(&["Kxb1"])), None);
    // The summary of such a game is written all the same, without observations.
    let mut game = game_of(&["e4"]);
    game.initial_fen = Some("no position".to_string());
    let (info, merges) = indexed_for(&game, "alice", &None);
    assert!(merges.is_empty());
    assert_eq!(info.indexed, ByColor { white: true, black: false });
}

#[test]
fn replay_refuses_a_position_whose_description_is_too_long() {
    // 136 ranks, which shakmaty cannot count.
    let mut fen = "8/".repeat(136);
    fen.push_str("8[]");
    assert_eq!(fen.len(), 275);
    assert_eq!(replay(LilaVariant::Crazyhouse, &Some(fen), &sans(&["e4"])), None);
    // The longest that is handed on: 271 characters, which are no position.
    let mut fen = "8/".repeat(134);
    fen.push_str("8[]");
    assert_eq!(fen.len(), 271);
    assert_eq!(replay(LilaVariant::Crazyhouse, &Some(fen), &sans(&["e4"])), None);
}

#[test]
fn status_names() {
    assert_eq!(GameStatus::from_name("created"), GameStatus::Ongoing);
    assert_eq!(GameStatus::from_name("started"), GameStatus::Ongoing);
    assert_eq!(GameStatus::from_name("aborted"), GameStatus::Unindexable);
    assert_eq!(GameStatus::from_name("noStart"), GameStatus::Unindexable);
    assert_eq!(GameStatus::from_name("unknownFinish"), GameStatus::Unindexable);
    assert_eq!(GameStatus::from_name("cheat"), GameStatus::Unindexable);
    for name in ["mate", "resign", "stalemate", "timeout", "draw", "outoftime", "variantEnd"] {
        assert_eq!(GameStatus::from_name(name), GameStatus::Terminated);
    }
    assert_eq!(GameStatus::from_name(""), GameStatus::Terminated);
    assert_eq!(GameStatus::from_name("Created"), GameStatus::Terminated);
    assert_eq!(GameStatus::from_name("cheats"), GameStatus::Terminated);
    assert_eq!(GameStatus::from_name("chea"), GameStatus::Terminated);
}

#[test]
fn replay_of_no_moves_gives_no_plies() {
    assert_eq!(replay(LilaVariant::Standard, &None, &Vec::new()), Some(Vec::new()));
    assert_eq!(replay(LilaVariant::Horde, &None, &sans(&["??"])), Some(Vec::new()));
}

#[test]
fn replay_names_castling_by_king_and_rook() {
    let moves = sans(&["e4", "e5", "Nf3", "Nc6", "Bc4", "Bc5", "O-O"]);
    let plies = replay(LilaVariant::Standard, &None, &moves).expect("valid");
    assert_eq!(plies.len(), 7);
    // The king goes from e1 to the rook on h1.
    assert_eq!(plies[6].1, UciMove::Normal { from: 4, to: 7, promotion: None });
}

#[test]
fn replay_knows_promotions_and_drops() {
    let fen = Some("8/4P1k1/8/8/8/8/8/4K3 w - - 0 1".to_string());
    let plies = replay(LilaVariant::Standard, &fen, &sans(&["e8=Q"])).expect("valid");
    assert_eq!(plies[0].1, UciMove::Normal { from: 52, to: 60, promotion: Some(Role::Queen) });

    let moves = sans(&["e4", "d5", "exd5", "Qxd5", "Nc3", "Qa5", "P@d7+"]);
    let plies = replay(LilaVariant::Crazyhouse, &None, &moves).expect("valid");
    assert_eq!(plies.len(), 7);
    assert_eq!(plies[6].1, UciMove::Put { role: Role::Pawn, to: 51 });
}

#[test]
fn replay_follows_the_rules_of_the_variant() {
    assert_eq!(rules_of(LilaVariant::Standard), shakmaty::variant::Variant::Chess);
    assert_eq!(rules_of(LilaVariant::Chess960), shakmaty::variant::Variant::Chess);
    assert_eq!(rules_of(LilaVariant::FromPosition), shakmaty::variant::Variant::Chess);
    assert_eq!(rules_of(LilaVariant::Antichess), shakmaty::variant::Variant::Antichess);
    assert_eq!(rules_of(LilaVariant::Atomic), shakmaty::variant::Variant::Atomic);
    assert_eq!(rules_of(LilaVariant::Crazyhouse), shakmaty::variant::Variant::Crazyhouse);
    assert_eq!(rules_of(LilaVariant::Horde), shakmaty::variant::Variant::Horde);
    assert_eq!(rules_of(LilaVariant::KingOfTheHill), shakmaty::variant::Variant::KingOfTheHill);
    assert_eq!(rules_of(LilaVariant::RacingKings), shakmaty::variant::Variant::RacingKings);
    assert_eq!(rules_of(LilaVariant::ThreeCheck), shakmaty::variant::Variant::ThreeCheck);
    // In antichess the king may be taken, in chess no such move exists.
    let start = replay(LilaVariant::Standard, &None, &sans(&["e4"])).expect("valid");
    let horde = replay(LilaVariant::Horde, &None, &sans(&["e5"])).expect("valid");
    assert_eq!(start.len(), 1);
    assert_eq!(horde.len(), 1);
    assert_ne!(start[0].0, horde[0].0);
}

#[test]
fn from_raw_checks_the_numbers() {
    assert_eq!(from_raw(RawUci::Normal { from: 12, to: 28, promotion: 0 }), Some(E2E4));
    assert_eq!(
        from_raw(RawUci::Normal { from: 52, to: 60, promotion: 5 }),
        Some(UciMove::Normal { from: 52, to: 60, promotion: Some(Role::Queen) })
    );
    assert_eq!(from_raw(RawUci::Normal { from: 12, to: 12, promotion: 0 }), None);
    assert_eq!(from_raw(RawUci::Normal { from: 64, to: 12, promotion: 0 }), None);
    assert_eq!(from_raw(RawUci::Normal { from: 12, to: 28, promotion: 7 }), None);
    assert_eq!(
        from_raw(RawUci::Put { role: 2, to: 20 }),
        Some(UciMove::Put { role: Role::Knight, to: 20 })
    );
    assert_eq!(from_raw(RawUci::Put { role: 0, to: 20 }), None);
    assert_eq!(from_raw(RawUci::Put { role: 2, to: 64 }), None);
    assert_eq!(from_raw(RawUci::Null), Some(UciMove::Null));
}

#[test]
fn the_table_keeps_the_last_move_of_each_position() {
    let plies = vec![(1u128, E2E4), (2, E7E5), (1, G1F3), (3, G8F6), (2, F3G1), (1, F6G8)];
    let table = build_table(&plies);
    assert_eq!(table.len(), 3);
    assert_eq!(table.get(&1), Some(&F6G8));
    assert_eq!(table.get(&2), Some(&F3G1));
    assert_eq!(table.get(&3), Some(&G8F6));
    let mut entries = collapse_repetitions(&plies);
    entries.sort_by_key(|entry| entry.0);
    assert_eq!(entries, vec![(1, F6G8), (2, F3G1), (3, G8F6)]);
    assert_eq!(collapse_repetitions(&Vec::new()), Vec::new());
}

#[test]
fn personal_merges_are_one_for_each_entry() {
    let mut game = game_of(&[]);
    game.rated = false;
    game.variant = LilaVariant::Atomic;
    let entries = vec![(7u128, E2E4), (9, E7E5)];
    let merges = personal_merges(
        &game,
        Color::Black,
        may_2023(),
        Outcome::Decisive { winner: Color::White },
        &entries,
    );
    assert_eq!(merges.len(), 2);
    assert_eq!(merges[0].zobrist, 7);
    assert_eq!(merges[0].uci, E2E4);
    assert_eq!(merges[1].zobrist, 9);
    assert_eq!(merges[1].uci, E7E5);
    assert_eq!(merges[1].mode, Mode::Casual);
    assert_eq!(merges[1].color, Color::Black);
    assert_eq!(merges[1].rules, shakmaty::variant::Variant::Atomic);
    assert_eq!(merges[1].outcome, Outcome::Decisive { winner: Color::White });
    let info = game_info_for(&game, Color::Black, may_2023(), Outcome::Decisive { winner: Color::White });
    assert_eq!(info.winner, Some(Color::White));
    assert!(!info.rated);
    assert_eq!(info.indexed, ByColor { white: false, black: true });
}

#[test]
fn status_says_when_to_index() {
    let mut status = PersonalStatus::default();
    assert_eq!(status.maybe_index(0, 86_400), Some(0));
    assert_eq!(status.maybe_index(1_000_000, 86_400), Some(0));
    status.latest_created_at = 5000;
    status.finish_run(1_000_000);
    assert_eq!(status.indexed_at, Some(1_000_000));
    assert_eq!(status.maybe_index(1_000_000, 86_400), None);
    assert_eq!(status.maybe_index(1_086_399, 86_400), None);
    assert_eq!(status.maybe_index(1_086_400, 86_400), Some(5001));
    assert_eq!(status.maybe_index(999_999, 86_400), None);
    assert_eq!(status.maybe_index(999_999, 0), None);
    assert_eq!(status.maybe_index(1_000_000, 0), Some(5001));
    status.latest_created_at = u64::MAX;
    assert_eq!(status.maybe_index(2_000_000, 86_400), Some(u64::MAX));
}

#[test]
fn status_revisits_an_ongoing_game_first() {
    let mut status = PersonalStatus {
        latest_created_at: 5000,
        revisit_ongoing_created_at: Some(3000),
        indexed_at: Some(1_000_000),
    };
    assert_eq!(status.since_created_at(1_000_001, 86_400), Some(3000));
    assert_eq!(status.revisit_ongoing_created_at, None);
    assert_eq!(status.since_created_at(1_000_001, 86_400), None);
    assert_eq!(status.since_created_at(1_100_000, 86_400), Some(5001));
    status.revisit_ongoing_created_at = Some(4000);
    assert_eq!(status.maybe_revisit_ongoing(), Some(4000));
    assert_eq!(status.maybe_revisit_ongoing(), None);
    status.observe(4500, true);
    assert_eq!(status.latest_created_at, 5000);
    assert_eq!(status.revisit_ongoing_created_at, Some(4500));
}

#[test]
fn plan_index_player_picks_the_indexer_by_hash() {
    let mut status = PersonalStatus::default();
    assert_eq!(
        plan_index_player(&mut status, 100, 86_400, 35, 16),
        Some(IndexJob { indexer: 3, since_created_at: 0 })
    );
    status.finish_run(100);
    assert_eq!(plan_index_player(&mut status, 101, 86_400, 35, 16), None);
    assert_eq!(responsible_indexer(35, 16), 3);
    assert_eq!(responsible_indexer(u64::MAX, 16), 15);
    assert_eq!(responsible_indexer(u64::MAX, 1), 0);
    assert_eq!(responsible_indexer(17, 5), 2);
    assert_eq!(QUEUE_CAPACITY, 500);
}

#[test]
fn indexer_options() {
    let opt = IndexerOpt::default();
    assert_eq!(opt.lila(), "https://lichess.org");
    assert_eq!(opt.bearer(), &None);
    assert_eq!(opt.indexers(), 16);
    let opt = IndexerOpt::new("http://localhost:9663".to_string(), Some("token".to_string()), 4);
    assert_eq!(opt.lila(), "http://localhost:9663");
    assert_eq!(opt.bearer().as_deref(), Some("token"));
    assert_eq!(opt.indexers(), 4);
}

#[test]
fn single_flight() {
    let alice = UserId::new("alice");
    let mut indexing: Indexing<u32> = Indexing::new();
    let mut queued: usize = 0;

    // The first caller finds no run, queues one and registers it.
    assert_eq!(indexing.get(&alice), None);
    queued += 1;
    assert_eq!(indexing.register(alice.copy(), 7, Enqueued::Sent), Registration::Started);
    // The second caller finds the run and waits on what the first holds.
    assert_eq!(indexing.get(&alice), Some(&7));
    assert_eq!(queued, 1);
    assert_eq!(indexing.len(), 1);
    assert_eq!(indexing.get(&UserId::new("bob")), None);

    // When the run ends, what was held is handed back, once.
    assert_eq!(indexing.finish(&alice), Some(7));
    assert_eq!(indexing.finish(&alice), None);
    assert_eq!(indexing.get(&alice), None);
    assert_eq!(indexing.len(), 0);
}

#[test]
fn backpressure() {
    let alice = UserId::new("alice");
    let mut indexing: Indexing<u32> = Indexing::new();
    // The queue is full: nothing is in flight afterwards.
    assert_eq!(indexing.register(alice.copy(), 1, Enqueued::Full), Registration::QueueFull);
    assert_eq!(indexing.get(&alice), None);
    assert_eq!(indexing.len(), 0);
    // After a slot was drained the next call succeeds.
    assert_eq!(indexing.register(alice.copy(), 2, Enqueued::Sent), Registration::Started);
    assert_eq!(indexing.get(&alice), Some(&2));
    assert_ne!(Enqueued::Closed, Enqueued::Full);
}

#[test]
fn runs_of_different_players_are_in_flight_together() {
    let mut indexing: Indexing<String> = Indexing::new();
    for name in ["alice", "bob", "carol"] {
        let user = UserId::new(name);
        assert_eq!(indexing.register(user, name.to_uppercase(), Enqueued::Sent), Registration::Started);
    }
    assert_eq!(indexing.len(), 3);
    assert_eq!(indexing.finish(&UserId::new("bob")), Some("BOB".to_string()));
    assert_eq!(indexing.len(), 2);
    assert_eq!(indexing.get(&UserId::new("alice")).map(String::as_str), Some("ALICE"));
    assert_eq!(indexing.get(&UserId::new("carol")).map(String::as_str), Some("CAROL"));
    assert_eq!(indexing.get(&UserId::new("bob")), None);
}
