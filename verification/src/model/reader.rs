//! Reading bytes off the front of a buffer, and the little-endian integers
//! of fixed width that the encodings use.

use byteorder::{ByteOrder, LittleEndian};
use vstd::prelude::*;
use vstd::slice::slice_subrange;

verus! {

/// Why a byte string could not be decoded.
#[derive(Debug, Copy, Clone, PartialEq, Eq, Structural)]
pub enum CodecError {
    /// The bytes end in the middle of a value.
    UnexpectedEof,
    /// The bytes do not encode a value.
    InvalidData,
}

/// The 16-bit number that the first two bytes of `s` write, low byte first.
pub open spec fn spec_le_u16(s: Seq<u8>) -> int {
    s[0] + 256 * s[1]
}

/// The two bytes that write `n`, low byte first.
pub open spec fn spec_le_u16_bytes(n: u16) -> Seq<u8> {
    seq![(n % 256) as u8, (n / 256) as u8]
}

/// The 48-bit number that the first six bytes of `s` write, low byte first.
pub open spec fn spec_le_u48(s: Seq<u8>) -> int {
    s[0] + 0x100 * s[1] + 0x1_0000 * s[2] + 0x100_0000 * s[3] + 0x1_0000_0000 * s[4]
        + 0x100_0000_0000 * s[5]
}

/// The six bytes that write `n`, low byte first.
pub open spec fn spec_le_u48_bytes(n: u64) -> Seq<u8> {
    seq![
        (n % 256) as u8,
        (n / 0x100 % 256) as u8,
        (n / 0x1_0000 % 256) as u8,
        (n / 0x100_0000 % 256) as u8,
        (n / 0x1_0000_0000 % 256) as u8,
        (n / 0x100_0000_0000 % 256) as u8,
    ]
}

/// `<LittleEndian as ByteOrder>::read_u16` of byteorder. Trusted: it gives
/// the number whose low byte is `buf[0]` and whose high byte is `buf[1]`.
#[verifier::external_body]
fn le_read_u16(buf: &[u8]) -> (n: u16)
    requires
        buf@.len() >= 2,
    ensures
        n == spec_le_u16(buf@),
{
    LittleEndian::read_u16(buf)
}

/// `<LittleEndian as ByteOrder>::read_u48` of byteorder. Trusted: it gives
/// the number that the first six bytes of `buf` write, low byte first.
#[verifier::external_body]
fn le_read_u48(buf: &[u8]) -> (n: u64)
    requires
        buf@.len() >= 6,
    ensures
        n == spec_le_u48(buf@),
{
    LittleEndian::read_u48(buf)
}

/// `<LittleEndian as ByteOrder>::write_u16` of byteorder, on a fresh buffer of
/// two bytes. Trusted: it stores the low byte of `n`, then the high byte.
#[verifier::external_body]
fn le_write_u16(n: u16) -> (buf: [u8; 2])
    ensures
        buf@ == spec_le_u16_bytes(n),
{
    let mut buf = [0u8; 2];
    LittleEndian::write_u16(&mut buf, n);
    buf
}

/// `<LittleEndian as ByteOrder>::write_u48` of byteorder, on a fresh buffer of
/// six bytes. Trusted: it stores the six low bytes of `n`, lowest first. The
/// call panics on a number of 48 bits or more, which `requires` leaves out.
#[verifier::external_body]
fn le_write_u48(n: u64) -> (buf: [u8; 6])
    requires
        n < 0x1_0000_0000_0000,
    ensures
        buf@ == spec_le_u48_bytes(n),
{
    let mut buf = [0u8; 6];
    LittleEndian::write_u48(&mut buf, n);
    buf
}

/// What a read leaves behind: on success the value `v`, with the `n` bytes
/// that encode it taken off the front; on failure the error, the reader then
/// standing anywhere in its buffer.
pub open spec fn read_result<T>(
    expected: Result<(T, nat), CodecError>,
    got: Result<T, CodecError>,
    before: Seq<u8>,
    after: Seq<u8>,
) -> bool {
    match expected {
        Ok((v, n)) => got == Ok::<T, CodecError>(v) && n <= before.len() && after == before.skip(
            n as int,
        ),
        Err(e) => got == Err::<T, CodecError>(e),
    }
}

/// What reading one byte off `s` gives.
pub open spec fn spec_read_u8(s: Seq<u8>) -> Result<(u8, nat), CodecError> {
    if s.len() >= 1 {
        Ok((s[0], 1))
    } else {
        Err(CodecError::UnexpectedEof)
    }
}

/// What reading a little-endian `u16` off `s` gives.
pub open spec fn spec_read_u16(s: Seq<u8>) -> Result<(u16, nat), CodecError> {
    if s.len() >= 2 {
        Ok((spec_le_u16(s) as u16, 2))
    } else {
        Err(CodecError::UnexpectedEof)
    }
}

/// What reading a little-endian number of six bytes off `s` gives.
pub open spec fn spec_read_u48(s: Seq<u8>) -> Result<(u64, nat), CodecError> {
    if s.len() >= 6 {
        Ok((spec_le_u48(s) as u64, 6))
    } else {
        Err(CodecError::UnexpectedEof)
    }
}

/// A position in a byte buffer. Its view is the bytes not yet read.
pub struct ByteReader<'a> {
    bytes: &'a [u8],
    pos: usize,
}

impl<'a> View for ByteReader<'a> {
    type V = Seq<u8>;

    closed spec fn view(&self) -> Seq<u8> {
        self.bytes@.skip(self.pos as int)
    }
}

impl<'a> ByteReader<'a> {
    #[verifier::type_invariant]
    spec fn inv(self) -> bool {
        self.pos <= self.bytes@.len()
    }

    /// A reader at the start of `bytes`.
    pub fn new(bytes: &'a [u8]) -> (reader: ByteReader<'a>)
        ensures
            reader@ == bytes@,
    {
        ByteReader { bytes, pos: 0 }
    }

    /// The number of bytes not yet read.
    pub fn remaining(&self) -> (n: usize)
        ensures
            n == self@.len(),
    {
        proof {
            use_type_invariant(self);
        }
        self.bytes.len() - self.pos
    }

    /// Reads one byte.
    pub fn read_u8(&mut self) -> (r: Result<u8, CodecError>)
        ensures
            read_result(spec_read_u8(old(self)@), r, old(self)@, final(self)@),
    {
        proof {
            use_type_invariant(&*self);
        }
        if self.pos < self.bytes.len() {
            let b: u8 = self.bytes[self.pos];
            self.pos = self.pos + 1;
            assert(self@ == old(self)@.skip(1));
            Ok(b)
        } else {
            Err(CodecError::UnexpectedEof)
        }
    }

    /// Reads two bytes as a little-endian number.
    pub fn read_u16(&mut self) -> (r: Result<u16, CodecError>)
        ensures
            read_result(spec_read_u16(old(self)@), r, old(self)@, final(self)@),
    {
        proof {
            use_type_invariant(&*self);
        }
        if self.bytes.len() - self.pos >= 2 {
            let n: u16 = le_read_u16(slice_subrange(self.bytes, self.pos, self.pos + 2));
            self.pos = self.pos + 2;
            assert(self@ == old(self)@.skip(2));
            Ok(n)
        } else {
            Err(CodecError::UnexpectedEof)
        }
    }

    /// Reads six bytes as a little-endian number.
    pub fn read_u48(&mut self) -> (r: Result<u64, CodecError>)
        ensures
            read_result(spec_read_u48(old(self)@), r, old(self)@, final(self)@),
    {
        proof {
            use_type_invariant(&*self);
        }
        if self.bytes.len() - self.pos >= 6 {
            let n: u64 = le_read_u48(slice_subrange(self.bytes, self.pos, self.pos + 6));
            self.pos = self.pos + 6;
            assert(self@ == old(self)@.skip(6));
            Ok(n)
        } else {
            Err(CodecError::UnexpectedEof)
        }
    }
}

/// Appends `n` as two bytes, low byte first.
pub fn write_u16(writer: &mut Vec<u8>, n: u16)
    ensures
        final(writer)@ == old(writer)@ + spec_le_u16_bytes(n),
{
    let buf: [u8; 2] = le_write_u16(n);
    writer.push(buf[0]);
    writer.push(buf[1]);
    assert(writer@ == old(writer)@ + spec_le_u16_bytes(n));
}

/// Appends `n` as six bytes, low byte first.
pub fn write_u48(writer: &mut Vec<u8>, n: u64)
    requires
        n < 0x1_0000_0000_0000,
    ensures
        final(writer)@ == old(writer)@ + spec_le_u48_bytes(n),
{
    let buf: [u8; 6] = le_write_u48(n);
    writer.push(buf[0]);
    writer.push(buf[1]);
    writer.push(buf[2]);
    writer.push(buf[3]);
    writer.push(buf[4]);
    writer.push(buf[5]);
    assert(writer@ == old(writer)@ + spec_le_u48_bytes(n));
}

/// Two bytes written for `n` read back as `n`, whatever follows them.
pub proof fn lemma_read_write_u16(n: u16, rest: Seq<u8>)
    ensures
        spec_read_u16(spec_le_u16_bytes(n) + rest) == Ok::<(u16, nat), CodecError>((n, 2)),
        (spec_le_u16_bytes(n) + rest).skip(2) == rest,
{
    let s = spec_le_u16_bytes(n) + rest;
    assert(s[0] == spec_le_u16_bytes(n)[0]);
    assert(s[1] == spec_le_u16_bytes(n)[1]);
    assert(s.skip(2) =~= rest);
}

/// Six bytes written for `n` read back as `n`, whatever follows them.
pub proof fn lemma_read_write_u48(n: u64, rest: Seq<u8>)
    requires
        n < 0x1_0000_0000_0000,
    ensures
        spec_read_u48(spec_le_u48_bytes(n) + rest) == Ok::<(u64, nat), CodecError>((n, 6)),
        (spec_le_u48_bytes(n) + rest).skip(6) == rest,
{
    let b = spec_le_u48_bytes(n);
    let s = b + rest;
    assert(s[0] == b[0] && s[1] == b[1] && s[2] == b[2] && s[3] == b[3] && s[4] == b[4] && s[5]
        == b[5]);
    assert(s.skip(6) =~= rest);
    assert(n == n % 256 + 0x100 * (n / 0x100 % 256) + 0x1_0000 * (n / 0x1_0000 % 256) + 0x100_0000
        * (n / 0x100_0000 % 256) + 0x1_0000_0000 * (n / 0x1_0000_0000 % 256) + 0x100_0000_0000 * (n
        / 0x100_0000_0000 % 256)) by (bit_vector)
        requires
            n < 0x1_0000_0000_0000,
    ;
}

/// What was read off `s` is read off `s + t` too, and leaves `t` more.
pub proof fn lemma_read_fixed_prefix(s: Seq<u8>, t: Seq<u8>)
    ensures
        spec_read_u8(s) matches Ok((v, n)) ==> spec_read_u8(s + t) == spec_read_u8(s) && (s
            + t).skip(n as int) == s.skip(n as int) + t,
        spec_read_u16(s) matches Ok((v, n)) ==> spec_read_u16(s + t) == spec_read_u16(s) && (s
            + t).skip(n as int) == s.skip(n as int) + t,
        spec_read_u48(s) matches Ok((v, n)) ==> spec_read_u48(s + t) == spec_read_u48(s) && (s
            + t).skip(n as int) == s.skip(n as int) + t,
{
    if s.len() >= 1 {
        assert((s + t)[0] == s[0]);
        assert((s + t).skip(1) == s.skip(1) + t);
    }
    if s.len() >= 2 {
        assert((s + t)[1] == s[1]);
        assert((s + t).skip(2) == s.skip(2) + t);
    }
    if s.len() >= 6 {
        assert((s + t)[2] == s[2] && (s + t)[3] == s[3] && (s + t)[4] == s[4] && (s + t)[5]
            == s[5]);
        assert((s + t).skip(6) == s.skip(6) + t);
    }
}

/// Skipping `n` bytes of `s` leaves what follows them with `t` appended.
pub proof fn lemma_skip_append(s: Seq<u8>, t: Seq<u8>, n: nat)
    requires
        n <= s.len(),
    ensures
        (s + t).skip(n as int) == s.skip(n as int) + t,
{
    assert((s + t).skip(n as int) == s.skip(n as int) + t);
}

} // verus!
