use lila_openingexplorer::model::color::Color;
use lila_openingexplorer::model::game_id::GameId;
use lila_openingexplorer::model::keys::{
    game_info_key, status_key, user_hash, PersonalKeyBuilder, PERSONAL_KEY_LEN, USER_PREFIX_LEN,
};
use lila_openingexplorer::model::user::UserId;
use lila_openingexplorer::model::Month;
use shakmaty::variant::Variant;

#[test]
fn user_hash_is_fnv_1a() {
    assert_eq!(user_hash(&UserId::new("")), 0xcbf2_9ce4_8422_2325);
    assert_eq!(user_hash(&UserId::new("a")), 0xaf63_dc4c_8601_ec8c);
    assert_eq!(user_hash(&UserId::new("foobar")), 0x8594_4171_f739_67e8);
    assert_eq!(user_hash(&UserId::new("FooBar")), 0x8594_4171_f739_67e8);
}

#[test]
fn personal_key_has_its_parts_in_order() {
    let month = Month::from_str("2023/05").expect("valid month");
    let key = PersonalKeyBuilder::with_user_hash(0x0102_0304_0506_0708, Color::Black)
        .with_zobrist(Variant::Crazyhouse, 0x1112_1314_1516_1718_191a_1b1c_1d1e_1f20)
        .with_month(month);
    assert_eq!(
        key.0,
        vec![
            1, 2, 3, 4, 5, 6, 7, 8, // player
            1, // black
            5, // crazyhouse
            0x11, 0x12, 0x13, 0x14, 0x15, 0x16, 0x17, 0x18, // position
            0x19, 0x1a, 0x1b, 0x1c, 0x1d, 0x1e, 0x1f, 0x20, //
            0x5e, 0xd8, // month 24280
        ]
    );
    assert_eq!(key.0.len(), PERSONAL_KEY_LEN);
}

#[test]
fn personal_keys_of_a_player_share_their_start() {
    let alice = UserId::new("alice");
    let builder = PersonalKeyBuilder::with_user_pov(&alice, Color::White);
    assert_eq!(builder.as_bytes().len(), USER_PREFIX_LEN);
    assert_eq!(&builder.as_bytes()[..8], &user_hash(&alice).to_be_bytes());
    assert_eq!(builder.as_bytes()[8], 0);
    let months = [Month::default(), Month::max_value()];
    let positions: [u128; 3] = [0, 1, u128::MAX];
    let variants = [Variant::Chess, Variant::Horde];
    let mut keys = Vec::new();
    for month in months {
        for zobrist in positions {
            for variant in variants {
                let key = builder.with_zobrist(variant, zobrist).with_month(month);
                assert_eq!(&key.0[..USER_PREFIX_LEN], &builder.as_bytes()[..]);
                assert!(!keys.contains(&key));
                keys.push(key);
            }
        }
    }
    let black = PersonalKeyBuilder::with_user_pov(&alice, Color::Black);
    assert_ne!(black.as_bytes(), builder.as_bytes());
    let bob = PersonalKeyBuilder::with_user_pov(&UserId::new("bob"), Color::White);
    assert_ne!(bob.as_bytes(), builder.as_bytes());
}

#[test]
fn personal_keys_of_a_position_are_ordered_by_month() {
    let prefix = PersonalKeyBuilder::with_user_hash(7, Color::White).with_zobrist(Variant::Chess, 9);
    let earlier = prefix.with_month(Month::from_str("2022/12").expect("valid month"));
    let later = prefix.with_month(Month::from_str("2023/01").expect("valid month"));
    assert!(earlier.0 < later.0);
    assert_eq!(&later.0[26..], &[0x5e, 0xd4]);
}

#[test]
fn other_keys() {
    let id = GameId::from_str("abcd1234").expect("valid game id");
    assert_eq!(game_info_key(&id), "abcd1234");
    assert_eq!(status_key(&UserId::new("Alice")), "statusalice");
}
