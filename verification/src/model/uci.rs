//! Moves as the UCI protocol names them, and their encoding in two bytes:
//! the origin square in bits 0 to 5, the target square in bits 6 to 11, the
//! role in bits 12 to 15.

use crate::model::reader::{
    lemma_read_fixed_prefix, lemma_read_write_u16, read_result, spec_le_u16_bytes, spec_read_u16, write_u16, ByteReader,
    CodecError,
};
use vstd::prelude::*;

verus! {

/// A kind of piece.
#[derive(Debug, Copy, Clone, PartialEq, Eq, Structural, Hash)]
pub enum Role {
    Pawn,
    Knight,
    Bishop,
    Rook,
    Queen,
    King,
}

impl Role {
    /// The number of this role, from 1 for the pawn to 6 for the king.
    pub open spec fn spec_code(self) -> int {
        match self {
            Role::Pawn => 1,
            Role::Knight => 2,
            Role::Bishop => 3,
            Role::Rook => 4,
            Role::Queen => 5,
            Role::King => 6,
        }
    }

    /// The role with the number `code`, if it is one of 1 to 6.
    pub open spec fn spec_from_code(code: int) -> Option<Role> {
        if code == 1 {
            Some(Role::Pawn)
        } else if code == 2 {
            Some(Role::Knight)
        } else if code == 3 {
            Some(Role::Bishop)
        } else if code == 4 {
            Some(Role::Rook)
        } else if code == 5 {
            Some(Role::Queen)
        } else if code == 6 {
            Some(Role::King)
        } else {
            None
        }
    }

    /// The number of this role, from 1 for the pawn to 6 for the king.
    pub fn code(self) -> (code: u16)
        ensures
            code == self.spec_code(),
            1 <= code <= 6,
    {
        match self {
            Role::Pawn => 1,
            Role::Knight => 2,
            Role::Bishop => 3,
            Role::Rook => 4,
            Role::Queen => 5,
            Role::King => 6,
        }
    }

    /// The role with the number `code`, if it is one of 1 to 6.
    pub fn from_code(code: u16) -> (role: Option<Role>)
        ensures
            role == Role::spec_from_code(code as int),
    {
        if code == 1 {
            Some(Role::Pawn)
        } else if code == 2 {
            Some(Role::Knight)
        } else if code == 3 {
            Some(Role::Bishop)
        } else if code == 4 {
            Some(Role::Rook)
        } else if code == 5 {
            Some(Role::Queen)
        } else if code == 6 {
            Some(Role::King)
        } else {
            None
        }
    }
}

/// A move. Squares are numbered from 0 for a1, along the ranks, to 63 for h8.
#[derive(Debug, Copy, Clone, PartialEq, Eq, Structural, Hash)]
pub enum UciMove {
    /// A piece goes from one square to another; castling is the king going
    /// to the square of its rook.
    Normal { from: u8, to: u8, promotion: Option<Role> },
    /// A piece is dropped on a square.
    Put { role: Role, to: u8 },
    /// The turn passes.
    Null,
}

impl UciMove {
    /// Whether the squares are on the board, and a normal move leaves its
    /// square. Only such moves have an encoding that reads back as the move.
    pub open spec fn wf(self) -> bool {
        match self {
            UciMove::Normal { from, to, promotion } => from < 64 && to < 64 && from != to,
            UciMove::Put { role, to } => to < 64,
            UciMove::Null => true,
        }
    }

    /// The 16-bit number that encodes this move.
    pub open spec fn spec_code(self) -> int {
        match self {
            UciMove::Normal { from, to, promotion } => from + 64 * to + 4096 * (match promotion {
                Some(role) => role.spec_code(),
                None => 0,
            }),
            UciMove::Put { role, to } => to + 64 * to + 4096 * role.spec_code(),
            UciMove::Null => 0,
        }
    }

    /// The move that `code` encodes. A role number from 7 to 15 is invalid.
    /// Equal squares mean a drop where there is a role, the null move where
    /// there is none.
    pub open spec fn spec_from_code(code: u16) -> Result<UciMove, CodecError> {
        let from = (code % 64) as u8;
        let to = (code / 64 % 64) as u8;
        let role_code = code / 4096;
        let role = Role::spec_from_code(role_code as int);
        if role_code != 0 && role is None {
            Err(CodecError::InvalidData)
        } else if from == to {
            match role {
                Some(role) => Ok(UciMove::Put { role, to }),
                None => Ok(UciMove::Null),
            }
        } else {
            Ok(UciMove::Normal { from, to, promotion: role })
        }
    }

    /// The move with the given squares and promotion, where that is a move
    /// that leaves its square and stays on the board.
    pub fn normal(from: u8, to: u8, promotion: Option<Role>) -> (m: Option<UciMove>)
        ensures
            m == if from < 64 && to < 64 && from != to {
                Some(UciMove::Normal { from, to, promotion })
            } else {
                None
            },
            m matches Some(m) ==> m.wf(),
    {
        if from < 64 && to < 64 && from != to {
            Some(UciMove::Normal { from, to, promotion })
        } else {
            None
        }
    }

    /// Checks [`UciMove::wf`].
    pub fn is_wf(&self) -> (ok: bool)
        ensures
            ok == self.wf(),
    {
        match *self {
            UciMove::Normal { from, to, promotion } => from < 64 && to < 64 && from != to,
            UciMove::Put { role, to } => to < 64,
            UciMove::Null => true,
        }
    }

    /// The 16-bit number that encodes this move.
    pub fn code(&self) -> (code: u16)
        requires
            self.wf(),
        ensures
            code == self.spec_code(),
            UciMove::spec_from_code(code) == Ok::<UciMove, CodecError>(*self),
    {
        proof {
            lemma_code_round_trip(*self);
        }
        match *self {
            UciMove::Normal { from, to, promotion } => {
                let role_code: u16 = match promotion {
                    Some(role) => role.code(),
                    None => 0,
                };
                from as u16 + 64 * to as u16 + 4096 * role_code
            },
            UciMove::Put { role, to } => to as u16 + 64 * to as u16 + 4096 * role.code(),
            UciMove::Null => 0,
        }
    }

    /// The move that `code` encodes, as [`UciMove::spec_from_code`] says.
    pub fn from_code(code: u16) -> (r: Result<UciMove, CodecError>)
        ensures
            r == UciMove::spec_from_code(code),
            r matches Ok(m) ==> m.wf(),
    {
        let from: u8 = (code % 64) as u8;
        let to: u8 = (code / 64 % 64) as u8;
        let role_code: u16 = code / 4096;
        let role: Option<Role> = Role::from_code(role_code);
        if role_code != 0 && role.is_none() {
            Err(CodecError::InvalidData)
        } else if from == to {
            match role {
                Some(role) => Ok(UciMove::Put { role, to }),
                None => Ok(UciMove::Null),
            }
        } else {
            Ok(UciMove::Normal { from, to, promotion: role })
        }
    }
}

/// The two bytes that write `m`.
pub open spec fn spec_write_uci(m: UciMove) -> Seq<u8> {
    spec_le_u16_bytes(m.spec_code() as u16)
}

/// What reading a move off `s` gives.
pub open spec fn spec_read_uci(s: Seq<u8>) -> Result<(UciMove, nat), CodecError> {
    match spec_read_u16(s) {
        Ok((code, n)) => match UciMove::spec_from_code(code) {
            Ok(m) => Ok((m, n)),
            Err(e) => Err(e),
        },
        Err(e) => Err(e),
    }
}

/// Reads a move.
pub fn read_uci(reader: &mut ByteReader) -> (r: Result<UciMove, CodecError>)
    ensures
        read_result(spec_read_uci(old(reader)@), r, old(reader)@, final(reader)@),
        r matches Ok(m) ==> m.wf(),
{
    let code: u16 = match reader.read_u16() {
        Ok(code) => code,
        Err(e) => { return Err(e); },
    };
    UciMove::from_code(code)
}

/// Appends the two bytes of `m`.
pub fn write_uci(writer: &mut Vec<u8>, m: &UciMove)
    requires
        m.wf(),
    ensures
        final(writer)@ == old(writer)@ + spec_write_uci(*m),
{
    write_u16(writer, m.code());
}

/// A move that is written reads back as itself, whatever follows it.
pub proof fn lemma_read_write_uci(m: UciMove, rest: Seq<u8>)
    requires
        m.wf(),
    ensures
        spec_read_uci(spec_write_uci(m) + rest) == Ok::<(UciMove, nat), CodecError>((m, 2)),
        spec_write_uci(m).len() == 2,
        (spec_write_uci(m) + rest).skip(2) == rest,
{
    lemma_read_write_u16(m.spec_code() as u16, rest);
    lemma_code_round_trip(m);
}

/// The squares and the role can be read off the number that packs them.
proof fn lemma_code_parts(from: u16, to: u16, role: u16)
    requires
        from < 64,
        to < 64,
        role <= 6,
    ensures
        from + 64 * to + 4096 * role < 0x7000,
        (from + 64 * to + 4096 * role) % 64 == from,
        (from + 64 * to + 4096 * role) / 64 % 64 == to,
        (from + 64 * to + 4096 * role) / 4096 == role,
{
    assert(from + 64 * to + 4096 * role < 0x7000 && (from + 64 * to + 4096 * role) % 64 == from && (
    from + 64 * to + 4096 * role) / 64 % 64 == to && (from + 64 * to + 4096 * role) / 4096 == role)
        by (bit_vector)
        requires
            from < 64,
            to < 64,
            role <= 6,
    ;
}

/// The number of a move decodes to the move.
pub proof fn lemma_code_round_trip(m: UciMove)
    requires
        m.wf(),
    ensures
        0 <= m.spec_code() < 0x7000,
        UciMove::spec_from_code(m.spec_code() as u16) == Ok::<UciMove, CodecError>(m),
{
    match m {
        UciMove::Normal { from, to, promotion } => {
            let role = match promotion {
                Some(role) => role.spec_code(),
                None => 0,
            };
            lemma_code_parts(from as u16, to as u16, role as u16);
            assert(Role::spec_from_code(role) == promotion);
        },
        UciMove::Put { role, to } => {
            lemma_code_parts(to as u16, to as u16, role.spec_code() as u16);
            assert(Role::spec_from_code(role.spec_code()) == Some(role));
        },
        UciMove::Null => {},
    }
}

/// A move that was read off `s` is read off `s + t` too, and leaves `t`
/// more.
pub proof fn lemma_read_uci_prefix(s: Seq<u8>, t: Seq<u8>)
    ensures
        spec_read_uci(s) matches Ok((v, n)) ==> spec_read_uci(s + t) == spec_read_uci(s) && n == 2
            && s.len() >= 2 && (s + t).skip(2) == s.skip(2) + t,
{
    lemma_read_fixed_prefix(s, t);
}

} // verus!
