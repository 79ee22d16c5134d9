//! The keys under which the store holds what the indexer writes. The key
//! of an entry of a player starts with the player and the side, so that all
//! of them lie in one range; then come the variant, the position and the
//! month, each of fixed width.

use crate::model::color::Color;
use crate::model::game_id::{spec_base62_string, GameId};
use crate::model::month::Month;
use crate::model::user::UserId;
use shakmaty::variant::Variant;
use vstd::prelude::*;
use vstd::utf8::encode_utf8;

verus! {

/// Where the hash of a name starts.
pub const FNV_OFFSET: u64 = 0xcbf2_9ce4_8422_2325;

/// By what the hash of a name is multiplied for each byte.
pub const FNV_PRIME: u64 = 0x0100_0000_01b3;

/// The length of the first part of a key: the player and the side.
pub const USER_PREFIX_LEN: usize = 9;

/// The length of the key of an entry.
pub const PERSONAL_KEY_LEN: usize = 28;

/// The hash `hash` after the byte `byte`: exclusive or, then a product that
/// wraps at 64 bits.
pub open spec fn spec_hash_step(hash: u64, byte: u8) -> u64 {
    (((hash ^ (byte as u64)) * FNV_PRIME) % 0x1_0000_0000_0000_0000) as u64
}

/// The hash `hash` after the bytes `bytes`.
pub open spec fn spec_hash_bytes(bytes: Seq<u8>, hash: u64) -> u64
    decreases bytes.len(),
{
    if bytes.len() == 0 {
        hash
    } else {
        spec_hash_bytes(bytes.skip(1), spec_hash_step(hash, bytes[0]))
    }
}

/// The eight bytes of `n`, highest first.
pub open spec fn spec_be_u64(n: u64) -> Seq<u8> {
    seq![
        (n / 0x100_0000_0000_0000 % 256) as u8,
        (n / 0x1_0000_0000_0000 % 256) as u8,
        (n / 0x100_0000_0000 % 256) as u8,
        (n / 0x1_0000_0000 % 256) as u8,
        (n / 0x100_0000 % 256) as u8,
        (n / 0x1_0000 % 256) as u8,
        (n / 0x100 % 256) as u8,
        (n % 256) as u8,
    ]
}

/// The sixteen bytes of `n`, highest first.
pub open spec fn spec_be_u128(n: u128) -> Seq<u8> {
    spec_be_u64((n / 0x1_0000_0000_0000_0000) as u64) + spec_be_u64(
        (n % 0x1_0000_0000_0000_0000) as u64,
    )
}

/// The byte that stands for a side.
pub open spec fn spec_color_tag(color: Color) -> u8 {
    match color {
        Color::White => 0,
        Color::Black => 1,
    }
}

/// The byte that stands for a variant.
pub open spec fn spec_variant_tag(rules: Variant) -> u8 {
    match rules {
        Variant::Chess => 0,
        Variant::Atomic => 1,
        Variant::Antichess => 2,
        Variant::KingOfTheHill => 3,
        Variant::ThreeCheck => 4,
        Variant::Crazyhouse => 5,
        Variant::RacingKings => 6,
        Variant::Horde => 7,
    }
}

/// The first part of the keys of a player on one side: the hash of the
/// name, then the side.
pub open spec fn spec_user_prefix(user_hash: u64, color: Color) -> Seq<u8> {
    spec_be_u64(user_hash) + seq![spec_color_tag(color)]
}

/// The key of an entry: the player and the side, the variant, the hash of
/// the position, and the month with its high byte first.
pub open spec fn spec_personal_key(
    user_hash: u64,
    color: Color,
    rules: Variant,
    zobrist: u128,
    month: int,
) -> Seq<u8> {
    spec_user_prefix(user_hash, color) + seq![spec_variant_tag(rules)] + spec_be_u128(zobrist)
        + seq![(month / 256) as u8, (month % 256) as u8]
}

fn push_be_u64(out: &mut Vec<u8>, n: u64)
    ensures
        final(out)@ == old(out)@ + spec_be_u64(n),
{
    out.push((n / 0x100_0000_0000_0000 % 256) as u8);
    out.push((n / 0x1_0000_0000_0000 % 256) as u8);
    out.push((n / 0x100_0000_0000 % 256) as u8);
    out.push((n / 0x1_0000_0000 % 256) as u8);
    out.push((n / 0x100_0000 % 256) as u8);
    out.push((n / 0x1_0000 % 256) as u8);
    out.push((n / 0x100 % 256) as u8);
    out.push((n % 256) as u8);
    assert(out@ == old(out)@ + spec_be_u64(n));
}

/// The hash of the name of `user`: FNV-1a in 64 bits over the bytes of the
/// name in UTF-8.
pub fn user_hash(user: &UserId) -> (hash: u64)
    ensures
        hash == spec_hash_bytes(encode_utf8(user@), FNV_OFFSET),
{
    let bytes = user.as_str().as_bytes();
    let mut hash: u64 = FNV_OFFSET;
    let mut i: usize = 0;
    assert(bytes@.skip(0) == bytes@);
    while i < bytes.len()
        invariant
            i <= bytes@.len(),
            spec_hash_bytes(bytes@.skip(i as int), hash) == spec_hash_bytes(bytes@, FNV_OFFSET),
        decreases bytes@.len() - i,
    {
        let mixed: u64 = hash ^ (bytes[i] as u64);
        assert(bytes@.skip(i as int).skip(1) == bytes@.skip(i + 1));
        assert(mixed as u128 * FNV_PRIME as u128 <= u128::MAX) by (nonlinear_arith)
            requires
                mixed <= u64::MAX,
                FNV_PRIME == 0x0100_0000_01b3,
        ;
        hash = ((mixed as u128 * FNV_PRIME as u128) % 0x1_0000_0000_0000_0000) as u64;
        i = i + 1;
    }
    hash
}

/// The start of the keys of one player on one side.
pub struct PersonalKeyBuilder {
    prefix: Vec<u8>,
}

/// The start of the keys of one player on one side in one position.
pub struct PersonalKeyPrefix {
    prefix: Vec<u8>,
}

/// The key of an entry.
#[derive(Debug, Clone, PartialEq, Eq, Hash)]
pub struct PersonalKey(pub Vec<u8>);

impl View for PersonalKeyBuilder {
    type V = Seq<u8>;

    closed spec fn view(&self) -> Seq<u8> {
        self.prefix@
    }
}

impl View for PersonalKeyPrefix {
    type V = Seq<u8>;

    closed spec fn view(&self) -> Seq<u8> {
        self.prefix@
    }
}

impl View for PersonalKey {
    type V = Seq<u8>;

    open spec fn view(&self) -> Seq<u8> {
        self.0@
    }
}

impl PersonalKeyBuilder {
    /// The start of the keys of the player whose name hashes to `user_hash`,
    /// on the side `color`.
    pub fn with_user_hash(user_hash: u64, color: Color) -> (builder: PersonalKeyBuilder)
        ensures
            builder@ == spec_user_prefix(user_hash, color),
    {
        let mut prefix: Vec<u8> = Vec::new();
        push_be_u64(&mut prefix, user_hash);
        prefix.push(
            match color {
                Color::White => 0,
                Color::Black => 1,
            },
        );
        assert(prefix@ == spec_user_prefix(user_hash, color));
        PersonalKeyBuilder { prefix }
    }

    /// The start of the keys of `user` on the side `color`.
    pub fn with_user_pov(user: &UserId, color: Color) -> (builder: PersonalKeyBuilder)
        ensures
            builder@ == spec_user_prefix(
                spec_hash_bytes(encode_utf8(user@), FNV_OFFSET),
                color,
            ),
    {
        PersonalKeyBuilder::with_user_hash(user_hash(user), color)
    }

    /// These keys, narrowed to the position with the hash `zobrist` in a game
    /// of `rules`.
    pub fn with_zobrist(&self, rules: Variant, zobrist: u128) -> (prefix: PersonalKeyPrefix)
        ensures
            prefix@ == self@ + seq![spec_variant_tag(rules)] + spec_be_u128(zobrist),
    {
        let mut prefix: Vec<u8> = self.prefix.clone();
        prefix.push(
            match rules {
                Variant::Chess => 0,
                Variant::Atomic => 1,
                Variant::Antichess => 2,
                Variant::KingOfTheHill => 3,
                Variant::ThreeCheck => 4,
                Variant::Crazyhouse => 5,
                Variant::RacingKings => 6,
                Variant::Horde => 7,
            },
        );
        let ghost tagged = prefix@;
        push_be_u64(&mut prefix, (zobrist / 0x1_0000_0000_0000_0000) as u64);
        push_be_u64(&mut prefix, (zobrist % 0x1_0000_0000_0000_0000) as u64);
        assert(prefix@ == tagged + spec_be_u128(zobrist));
        PersonalKeyPrefix { prefix }
    }

    /// The bytes with which every key of the player on this side starts.
    pub fn as_bytes(&self) -> (bytes: &Vec<u8>)
        ensures
            bytes@ == self@,
    {
        &self.prefix
    }
}

impl PersonalKeyPrefix {
    /// The key of the entry of `month`.
    pub fn with_month(&self, month: Month) -> (key: PersonalKey)
        ensures
            key@ == self@ + seq![(month@ / 256) as u8, (month@ % 256) as u8],
    {
        let ordinal: u16 = month.to_u16();
        let mut key: Vec<u8> = self.prefix.clone();
        key.push((ordinal / 256) as u8);
        key.push((ordinal % 256) as u8);
        assert(key@ == self@ + seq![(month@ / 256) as u8, (month@ % 256) as u8]);
        PersonalKey(key)
    }
}

/// Eight bytes, highest first, write one number only.
pub proof fn lemma_be_u64_injective(a: u64, b: u64)
    requires
        spec_be_u64(a) == spec_be_u64(b),
    ensures
        a == b,
{
    let x = spec_be_u64(a);
    let y = spec_be_u64(b);
    assert(x[0] == y[0] && x[1] == y[1] && x[2] == y[2] && x[3] == y[3] && x[4] == y[4] && x[5]
        == y[5] && x[6] == y[6] && x[7] == y[7]);
    lemma_be_u64_value(a);
    lemma_be_u64_value(b);
}

proof fn lemma_be_u64_value(n: u64)
    ensures
        n == (n / 0x100_0000_0000_0000 % 256) * 0x100_0000_0000_0000 + (n / 0x1_0000_0000_0000
            % 256) * 0x1_0000_0000_0000 + (n / 0x100_0000_0000 % 256) * 0x100_0000_0000 + (n
            / 0x1_0000_0000 % 256) * 0x1_0000_0000 + (n / 0x100_0000 % 256) * 0x100_0000 + (n
            / 0x1_0000 % 256) * 0x1_0000 + (n / 0x100 % 256) * 0x100 + n % 256,
{
    assert(n == (n / 0x100_0000_0000_0000 % 256) * 0x100_0000_0000_0000 + (n / 0x1_0000_0000_0000
        % 256) * 0x1_0000_0000_0000 + (n / 0x100_0000_0000 % 256) * 0x100_0000_0000 + (n
        / 0x1_0000_0000 % 256) * 0x1_0000_0000 + (n / 0x100_0000 % 256) * 0x100_0000 + (n
        / 0x1_0000 % 256) * 0x1_0000 + (n / 0x100 % 256) * 0x100 + n % 256) by (bit_vector);
}

/// Every key of a player on one side starts with the same bytes, whatever
/// the variant, the position and the month.
pub proof fn lemma_key_prefix_stable(
    user_hash: u64,
    color: Color,
    rules: Variant,
    zobrist: u128,
    month: int,
)
    ensures
        spec_user_prefix(user_hash, color).len() == USER_PREFIX_LEN,
        spec_personal_key(user_hash, color, rules, zobrist, month).len() == PERSONAL_KEY_LEN,
        spec_personal_key(user_hash, color, rules, zobrist, month).take(USER_PREFIX_LEN as int)
            == spec_user_prefix(user_hash, color),
{
    let key = spec_personal_key(user_hash, color, rules, zobrist, month);
    assert(key.take(USER_PREFIX_LEN as int) =~= spec_user_prefix(user_hash, color));
}

/// Where the parts of a key lie in it.
proof fn lemma_key_parts(user_hash: u64, color: Color, rules: Variant, zobrist: u128, month: int)
    ensures
        ({
            let key = spec_personal_key(user_hash, color, rules, zobrist, month);
            &&& key.len() == PERSONAL_KEY_LEN
            &&& key.subrange(0, 8) == spec_be_u64(user_hash)
            &&& key[8] == spec_color_tag(color)
            &&& key[9] == spec_variant_tag(rules)
            &&& key.subrange(10, 18) == spec_be_u64((zobrist / 0x1_0000_0000_0000_0000) as u64)
            &&& key.subrange(18, 26) == spec_be_u64((zobrist % 0x1_0000_0000_0000_0000) as u64)
            &&& key[26] == (month / 256) as u8
            &&& key[27] == (month % 256) as u8
        }),
{
    let key = spec_personal_key(user_hash, color, rules, zobrist, month);
    let a = spec_be_u64(user_hash);
    let hi = spec_be_u64((zobrist / 0x1_0000_0000_0000_0000) as u64);
    let lo = spec_be_u64((zobrist % 0x1_0000_0000_0000_0000) as u64);
    let parts = a + seq![spec_color_tag(color)] + seq![spec_variant_tag(rules)] + (hi + lo) + seq![
        (month / 256) as u8,
        (month % 256) as u8,
    ];
    assert(key == parts);
    assert(parts.subrange(0, 8) =~= a);
    assert(parts.subrange(10, 18) =~= hi);
    assert(parts.subrange(18, 26) =~= lo);
}

/// Two keys are the same only where the hash of the player, the side, the
/// variant, the position and the month are.
pub proof fn lemma_key_injective(
    user_hash: u64,
    color: Color,
    rules: Variant,
    zobrist: u128,
    month: Month,
    user_hash2: u64,
    color2: Color,
    rules2: Variant,
    zobrist2: u128,
    month2: Month,
)
    requires
        spec_personal_key(user_hash, color, rules, zobrist, month@) == spec_personal_key(
            user_hash2,
            color2,
            rules2,
            zobrist2,
            month2@,
        ),
        month.wf(),
        month2.wf(),
    ensures
        user_hash == user_hash2,
        color == color2,
        rules == rules2,
        zobrist == zobrist2,
        month == month2,
{
    lemma_key_parts(user_hash, color, rules, zobrist, month@);
    lemma_key_parts(user_hash2, color2, rules2, zobrist2, month2@);
    let hi = (zobrist / 0x1_0000_0000_0000_0000) as u64;
    let lo = (zobrist % 0x1_0000_0000_0000_0000) as u64;
    let hi2 = (zobrist2 / 0x1_0000_0000_0000_0000) as u64;
    let lo2 = (zobrist2 % 0x1_0000_0000_0000_0000) as u64;
    lemma_be_u64_injective(user_hash, user_hash2);
    lemma_be_u64_injective(hi, hi2);
    lemma_be_u64_injective(lo, lo2);
    assert(month@ == month2@);
    Month::lemma_view_injective(month, month2);
}

/// The key of the summary of a game: the eight characters of its
/// identifier.
pub fn game_info_key(id: &GameId) -> (key: String)
    requires
        id.wf(),
    ensures
        key@ == spec_base62_string(id.0 as nat, 8),
{
    id.to_string()
}

/// The key of the status of a player: `status`, then the name.
pub fn status_key(user: &UserId) -> (key: String)
    ensures
        key@ == "status"@ + user@,
{
    let key = "status".to_owned();
    key.concat(user.as_str())
}

} // verus!
