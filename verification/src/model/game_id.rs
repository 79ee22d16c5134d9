//! Game identifiers: eight characters out of `0-9A-Za-z`, read as a number
//! in base 62 with the first character the lowest digit, and stored in six
//! bytes.

use crate::model::month::push_char;
use crate::model::reader::{
    lemma_read_fixed_prefix, lemma_read_write_u48, read_result, spec_le_u48_bytes, spec_read_u48, write_u48, ByteReader,
    CodecError,
};
use vstd::prelude::*;

verus! {

/// The number of identifiers: 62 to the power 8.
pub const GAME_ID_LIMIT: u64 = 218_340_105_584_896;

/// The identifier of a game, as a number below [`GAME_ID_LIMIT`].
#[derive(Debug, Copy, Clone, PartialEq, Eq, Structural, Hash)]
pub struct GameId(pub u64);

/// The error of parsing what is not a game identifier.
#[derive(Debug, Copy, Clone, PartialEq, Eq, Structural)]
pub struct InvalidGameId;

/// 62 to the power `k`.
pub open spec fn pow62(k: nat) -> nat
    decreases k,
{
    if k == 0 {
        1
    } else {
        62 * pow62((k - 1) as nat)
    }
}

/// The character that writes the digit `d` of base 62.
pub open spec fn spec_digit62_char(d: int) -> char {
    if d < 10 {
        (48 + d) as u8 as char
    } else if d < 36 {
        (65 + d - 10) as u8 as char
    } else {
        (97 + d - 36) as u8 as char
    }
}

/// The digit of base 62 that `c` writes, if it writes one.
pub open spec fn spec_char_digit62(c: char) -> Option<int> {
    let v = c as u32 as int;
    if 48 <= v <= 57 {
        Some(v - 48)
    } else if 65 <= v <= 90 {
        Some(v - 65 + 10)
    } else if 97 <= v <= 122 {
        Some(v - 97 + 36)
    } else {
        None
    }
}

/// The `len` lowest digits of `n` in base 62, lowest first, as characters.
pub open spec fn spec_base62_string(n: nat, len: nat) -> Seq<char>
    decreases len,
{
    if len == 0 {
        Seq::empty()
    } else {
        seq![spec_digit62_char((n % 62) as int)] + spec_base62_string(n / 62, (len - 1) as nat)
    }
}

/// The number that `s` writes in base 62, lowest digit first, if every
/// character of `s` is a digit.
pub open spec fn spec_base62_value(s: Seq<char>) -> Option<nat>
    decreases s.len(),
{
    if s.len() == 0 {
        Some(0)
    } else {
        match (spec_char_digit62(s[0]), spec_base62_value(s.skip(1))) {
            (Some(d), Some(v)) => Some((d + 62 * v) as nat),
            _ => None,
        }
    }
}

/// The identifier that `s` names: eight digits of base 62.
pub open spec fn spec_parse_game_id(s: Seq<char>) -> Result<GameId, InvalidGameId> {
    if s.len() == 8 && spec_base62_value(s) is Some {
        Ok(GameId(spec_base62_value(s)->0 as u64))
    } else {
        Err(InvalidGameId)
    }
}

/// The six bytes that write `id`.
pub open spec fn spec_write_game_id(id: GameId) -> Seq<u8> {
    spec_le_u48_bytes(id.0)
}

/// What reading an identifier off `s` gives. Six bytes that write
/// [`GAME_ID_LIMIT`] or more are invalid.
pub open spec fn spec_read_game_id(s: Seq<u8>) -> Result<(GameId, nat), CodecError> {
    match spec_read_u48(s) {
        Ok((n, len)) => if n < GAME_ID_LIMIT {
            Ok((GameId(n), len))
        } else {
            Err(CodecError::InvalidData)
        },
        Err(e) => Err(e),
    }
}

proof fn lemma_pow62_values()
    ensures
        pow62(0) == 1,
        pow62(1) == 62,
        pow62(2) == 3844,
        pow62(3) == 238328,
        pow62(4) == 14776336,
        pow62(5) == 916132832,
        pow62(6) == 56800235584,
        pow62(7) == 3521614606208,
        pow62(8) == 218340105584896,
{
    reveal_with_fuel(pow62, 9);
}

fn digit62_char(d: u64) -> (c: char)
    requires
        d < 62,
    ensures
        c == spec_digit62_char(d as int),
        spec_char_digit62(c) == Some(d as int),
{
    if d < 10 {
        (48 + d as u8) as char
    } else if d < 36 {
        (65 + (d as u8 - 10)) as char
    } else {
        (97 + (d as u8 - 36)) as char
    }
}

fn char_digit62(c: char) -> (d: Option<u64>)
    ensures
        match spec_char_digit62(c) {
            Some(v) => d == Some(v as u64) && v < 62,
            None => d is None,
        },
{
    let v: u32 = c as u32;
    if 48 <= v && v <= 57 {
        Some((v - 48) as u64)
    } else if 65 <= v && v <= 90 {
        Some((v - 65 + 10) as u64)
    } else if 97 <= v && v <= 122 {
        Some((v - 97 + 36) as u64)
    } else {
        None
    }
}

impl GameId {
    /// Whether the number is below [`GAME_ID_LIMIT`], so that eight
    /// characters name it.
    pub open spec fn wf(self) -> bool {
        self.0 < GAME_ID_LIMIT
    }

    /// Checks [`GameId::wf`].
    pub fn is_wf(&self) -> (ok: bool)
        ensures
            ok == self.wf(),
    {
        self.0 < GAME_ID_LIMIT
    }

    /// Parses an identifier of eight characters.
    pub fn from_str(s: &str) -> (r: Result<GameId, InvalidGameId>)
        ensures
            r == spec_parse_game_id(s@),
            r matches Ok(id) ==> id.wf(),
    {
        if s.unicode_len() != 8 {
            return Err(InvalidGameId);
        }
        let mut n: u64 = 0;
        let mut i: usize = 8;
        proof {
            lemma_pow62_values();
            assert(s@.skip(8).len() == 0);
        }
        while i > 0
            invariant
                i <= 8 == s@.len(),
                spec_base62_value(s@.skip(i as int)) == Some(n as nat),
                n < pow62((8 - i) as nat),
            decreases i,
        {
            proof {
                lemma_pow62_values();
                assert(s@.skip(i - 1).skip(1) == s@.skip(i as int));
                assert(pow62((8 - (i - 1)) as nat) == 62 * pow62((8 - i) as nat));
            }
            i = i - 1;
            match char_digit62(s.get_char(i)) {
                Some(d) => {
                    n = d + 62 * n;
                },
                None => {
                    proof {
                        lemma_base62_value_suffix(s@, i as int);
                    }
                    return Err(InvalidGameId);
                },
            }
        }
        assert(s@.skip(0) == s@);
        Ok(GameId(n))
    }

    /// The eight characters that name this identifier.
    pub fn to_string(&self) -> (s: String)
        requires
            self.wf(),
        ensures
            s@ == spec_base62_string(self.0 as nat, 8),
    {
        let mut s = String::new();
        let mut n: u64 = self.0;
        let mut i: usize = 0;
        let ghost whole = spec_base62_string(self.0 as nat, 8);
        assert(s@ + whole == whole);
        while i < 8
            invariant
                i <= 8,
                s@ + spec_base62_string(n as nat, (8 - i) as nat) == whole,
            decreases 8 - i,
        {
            let ghost before = s@;
            let ghost c = spec_digit62_char((n % 62) as int);
            push_char(&mut s, digit62_char(n % 62));
            proof {
                let tail = spec_base62_string((n / 62) as nat, (8 - i - 1) as nat);
                assert(spec_base62_string(n as nat, (8 - i) as nat) == seq![c] + tail);
                assert(before.push(c) + tail == before + (seq![c] + tail));
            }
            n = n / 62;
            i = i + 1;
        }
        assert(s@ + Seq::<char>::empty() == s@);
        s
    }

    /// Reads an identifier.
    pub fn read(reader: &mut ByteReader) -> (r: Result<GameId, CodecError>)
        ensures
            read_result(spec_read_game_id(old(reader)@), r, old(reader)@, final(reader)@),
            r matches Ok(id) ==> id.wf(),
    {
        let n: u64 = match reader.read_u48() {
            Ok(n) => n,
            Err(e) => { return Err(e); },
        };
        if n < GAME_ID_LIMIT {
            Ok(GameId(n))
        } else {
            Err(CodecError::InvalidData)
        }
    }

    /// Appends the six bytes of this identifier.
    pub fn write(&self, writer: &mut Vec<u8>)
        requires
            self.wf(),
        ensures
            final(writer)@ == old(writer)@ + spec_write_game_id(*self),
    {
        write_u48(writer, self.0);
    }
}

/// Where a suffix of `s` writes no number, `s` writes none.
proof fn lemma_base62_value_suffix(s: Seq<char>, i: int)
    requires
        0 <= i < s.len(),
        spec_char_digit62(s[i]) is None,
    ensures
        spec_base62_value(s) is None,
    decreases i,
{
    if i > 0 {
        lemma_base62_value_suffix(s.skip(1), i - 1);
    }
}

/// An identifier that is written reads back as itself, whatever follows it.
pub proof fn lemma_read_write_game_id(id: GameId, rest: Seq<u8>)
    requires
        id.wf(),
    ensures
        spec_read_game_id(spec_write_game_id(id) + rest) == Ok::<(GameId, nat), CodecError>(
            (id, 6),
        ),
        spec_write_game_id(id).len() == 6,
        (spec_write_game_id(id) + rest).skip(6) == rest,
{
    lemma_read_write_u48(id.0, rest);
}

/// The `len` digits of a number below `62^len` write that number.
pub proof fn lemma_base62_round_trip(n: nat, len: nat)
    requires
        n < pow62(len),
    ensures
        spec_base62_string(n, len).len() == len,
        spec_base62_value(spec_base62_string(n, len)) == Some(n),
    decreases len,
{
    if len > 0 {
        let s = spec_base62_string(n, len);
        let tail = spec_base62_string(n / 62, (len - 1) as nat);
        assert(n / 62 < pow62((len - 1) as nat));
        lemma_base62_round_trip(n / 62, (len - 1) as nat);
        assert(s.skip(1) == tail);
        assert(spec_char_digit62(s[0]) == Some((n % 62) as int));
    }
}

/// The characters of an identifier parse to that identifier.
pub proof fn lemma_game_id_round_trip(id: GameId)
    requires
        id.wf(),
    ensures
        spec_parse_game_id(spec_base62_string(id.0 as nat, 8)) == Ok::<GameId, InvalidGameId>(id),
{
    lemma_pow62_values();
    lemma_base62_round_trip(id.0 as nat, 8);
}

/// An identifier that was read off `s` is read off `s + t` too, and leaves
/// `t` more.
pub proof fn lemma_read_game_id_prefix(s: Seq<u8>, t: Seq<u8>)
    ensures
        spec_read_game_id(s) matches Ok((v, n)) ==> spec_read_game_id(s + t) == spec_read_game_id(s)
            && n == 6 && s.len() >= 6 && v.wf() && (s + t).skip(6) == s.skip(6) + t,
{
    lemma_read_fixed_prefix(s, t);
}

} // verus!
