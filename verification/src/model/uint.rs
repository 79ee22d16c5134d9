//! Unsigned integers of variable length: seven bits to a byte, low bits
//! first, the high bit of a byte saying that another byte follows.

use crate::model::reader::{read_result, ByteReader, CodecError};
use vstd::prelude::*;

verus! {

/// The longest encoding that is read: ten bytes hold 70 bits.
pub const MAX_UINT_BYTES: u8 = 10;

/// 128 to the power `k`.
pub open spec fn pow128(k: nat) -> nat
    decreases k,
{
    if k == 0 {
        1
    } else {
        128 * pow128((k - 1) as nat)
    }
}

/// The bytes that write `n`.
pub open spec fn spec_write_uint(n: nat) -> Seq<u8>
    decreases n,
{
    if n < 128 {
        seq![n as u8]
    } else {
        seq![(n % 128 + 128) as u8] + spec_write_uint(n / 128)
    }
}

/// Reads on from the byte of index `depth` of an encoding, of which the
/// earlier bytes gave `acc`. Gives the number and the length of the
/// whole encoding.
pub open spec fn spec_read_uint_digits(s: Seq<u8>, depth: nat, acc: nat) -> Result<
    (nat, nat),
    CodecError,
>
    decreases s.len(),
{
    if depth >= MAX_UINT_BYTES {
        Err(CodecError::InvalidData)
    } else if s.len() == 0 {
        Err(CodecError::UnexpectedEof)
    } else {
        let acc2 = (acc + (s[0] % 128) * pow128(depth)) as nat;
        if s[0] < 128 {
            Ok((acc2, depth + 1))
        } else {
            spec_read_uint_digits(s.skip(1), depth + 1, acc2)
        }
    }
}

/// What reading an integer off `s` gives: the number and the length of its
/// encoding. An encoding that runs to an eleventh byte, or writes a number
/// above `u64::MAX`, is invalid.
pub open spec fn spec_read_uint(s: Seq<u8>) -> Result<(u64, nat), CodecError> {
    match spec_read_uint_digits(s, 0, 0) {
        Ok((v, n)) => if v <= u64::MAX {
            Ok((v as u64, n))
        } else {
            Err(CodecError::InvalidData)
        },
        Err(e) => Err(e),
    }
}

proof fn lemma_pow128_values()
    ensures
        pow128(0) == 1,
        pow128(1) == 0x80,
        pow128(2) == 0x4000,
        pow128(3) == 0x20_0000,
        pow128(4) == 0x1000_0000,
        pow128(5) == 0x8_0000_0000,
        pow128(6) == 0x400_0000_0000,
        pow128(7) == 0x2_0000_0000_0000,
        pow128(8) == 0x100_0000_0000_0000,
        pow128(9) == 0x8000_0000_0000_0000,
        pow128(10) == 0x40_0000_0000_0000_0000,
{
    reveal_with_fuel(pow128, 11);
}

proof fn lemma_pow128_monotonic(a: nat, b: nat)
    requires
        a <= b,
    ensures
        pow128(a) <= pow128(b),
        pow128(a) >= 1,
    decreases b,
{
    if a < b {
        lemma_pow128_monotonic(a, (b - 1) as nat);
    } else if a > 0 {
        lemma_pow128_monotonic((a - 1) as nat, (a - 1) as nat);
    }
}

proof fn lemma_read_uint_digits_len(s: Seq<u8>, depth: nat, acc: nat)
    ensures
        spec_read_uint_digits(s, depth, acc) matches Ok((v, n)) ==> depth < n <= depth + s.len(),
    decreases s.len(),
{
    if depth < MAX_UINT_BYTES && s.len() > 0 && s[0] >= 128 {
        lemma_read_uint_digits_len(
            s.skip(1),
            depth + 1,
            (acc + (s[0] % 128) * pow128(depth)) as nat,
        );
    }
}

/// An integer that is read took at least one byte, and no more than there
/// are.
pub proof fn lemma_read_uint_len(s: Seq<u8>)
    ensures
        spec_read_uint(s) matches Ok((v, n)) ==> 1 <= n <= s.len(),
{
    lemma_read_uint_digits_len(s, 0, 0);
}

/// Reads an integer.
pub fn read_uint(reader: &mut ByteReader) -> (r: Result<u64, CodecError>)
    ensures
        read_result(spec_read_uint(old(reader)@), r, old(reader)@, final(reader)@),
{
    let ghost start = reader@;
    let mut acc: u128 = 0;
    let mut mult: u128 = 1;
    let mut depth: u8 = 0;
    proof {
        lemma_pow128_values();
        assert(start.skip(0) == start);
    }
    loop
        invariant
            start == old(reader)@,
            depth <= MAX_UINT_BYTES,
            mult == pow128(depth as nat),
            acc < mult,
            depth <= start.len(),
            reader@ == start.skip(depth as int),
            spec_read_uint_digits(start, 0, 0) == spec_read_uint_digits(
                reader@,
                depth as nat,
                acc as nat,
            ),
        decreases MAX_UINT_BYTES - depth,
    {
        if depth >= MAX_UINT_BYTES {
            return Err(CodecError::InvalidData);
        }
        let ghost before = reader@;
        let byte: u8 = match reader.read_u8() {
            Ok(byte) => byte,
            Err(e) => { return Err(e); },
        };
        proof {
            lemma_pow128_values();
            lemma_pow128_monotonic(depth as nat, 9);
            assert((byte % 128) * mult <= 127 * mult) by (nonlinear_arith)
                requires
                    byte % 128 <= 127,
                    mult >= 0,
            ;
            assert(before.skip(1) == start.skip(depth + 1));
        }
        acc = acc + (byte % 128) as u128 * mult;
        depth = depth + 1;
        if byte < 128 {
            if acc > u64::MAX as u128 {
                return Err(CodecError::InvalidData);
            }
            return Ok(acc as u64);
        }
        mult = mult * 128;
    }
}

/// Appends the encoding of `n`.
pub fn write_uint(writer: &mut Vec<u8>, n: u64)
    ensures
        final(writer)@ == old(writer)@ + spec_write_uint(n as nat),
{
    let mut n: u64 = n;
    let ghost whole = spec_write_uint(n as nat);
    assert(writer@ + whole == old(writer)@ + whole);
    while n > 127
        invariant
            writer@ + spec_write_uint(n as nat) == old(writer)@ + whole,
        decreases n,
    {
        let ghost before = writer@;
        writer.push((n % 128 + 128) as u8);
        proof {
            let tail = spec_write_uint((n / 128) as nat);
            assert(spec_write_uint(n as nat) == seq![(n % 128 + 128) as u8] + tail);
            assert(writer@ + tail == before + (seq![(n % 128 + 128) as u8] + tail));
        }
        n = n / 128;
    }
    let ghost before = writer@;
    writer.push(n as u8);
    assert(writer@ == before + spec_write_uint(n as nat));
}

/// How long the encoding of a number below `128^k` is.
pub proof fn lemma_write_uint_len(n: nat, k: nat)
    requires
        k >= 1,
        n < pow128(k),
    ensures
        1 <= spec_write_uint(n).len() <= k,
    decreases n,
{
    if n >= 128 {
        assert(k >= 2) by {
            reveal_with_fuel(pow128, 2);
        }
        assert(n / 128 < pow128((k - 1) as nat));
        lemma_write_uint_len(n / 128, (k - 1) as nat);
    }
}

proof fn lemma_read_write_digits(n: nat, rest: Seq<u8>, depth: nat, acc: nat)
    requires
        depth + spec_write_uint(n).len() <= MAX_UINT_BYTES,
    ensures
        spec_read_uint_digits(spec_write_uint(n) + rest, depth, acc) == Ok::<
            (nat, nat),
            CodecError,
        >(((acc + n * pow128(depth)) as nat, depth + spec_write_uint(n).len())),
    decreases n,
{
    let s = spec_write_uint(n) + rest;
    if n < 128 {
        assert(s[0] == n);
    } else {
        let tail = spec_write_uint(n / 128);
        assert(s[0] == n % 128 + 128);
        assert(s.skip(1) == tail + rest);
        let acc2 = (acc + (n % 128) * pow128(depth)) as nat;
        lemma_read_write_digits(n / 128, rest, depth + 1, acc2);
        assert(acc2 + (n / 128) * pow128(depth + 1) == acc + n * pow128(depth)) by (nonlinear_arith)
            requires
                acc2 == acc + (n % 128) * pow128(depth),
                pow128(depth + 1) == 128 * pow128(depth),
        ;
    }
}

/// An integer that is written reads back as itself, whatever follows it.
pub proof fn lemma_read_write_uint(n: u64, rest: Seq<u8>)
    ensures
        spec_read_uint(spec_write_uint(n as nat) + rest) == Ok::<(u64, nat), CodecError>(
            (n, spec_write_uint(n as nat).len()),
        ),
        (spec_write_uint(n as nat) + rest).skip(spec_write_uint(n as nat).len() as int) == rest,
{
    lemma_pow128_values();
    lemma_write_uint_len(n as nat, 10);
    lemma_read_write_digits(n as nat, rest, 0, 0);
    assert(n as nat * pow128(0) == n as nat) by (nonlinear_arith)
        requires
            pow128(0) == 1,
    ;
    assert((spec_write_uint(n as nat) + rest).skip(spec_write_uint(n as nat).len() as int) == rest);
}

proof fn lemma_read_uint_digits_prefix(s: Seq<u8>, t: Seq<u8>, depth: nat, acc: nat)
    requires
        spec_read_uint_digits(s, depth, acc) is Ok,
    ensures
        spec_read_uint_digits(s + t, depth, acc) == spec_read_uint_digits(s, depth, acc),
    decreases s.len(),
{
    assert((s + t)[0] == s[0]);
    if s[0] >= 128 {
        assert((s + t).skip(1) == s.skip(1) + t);
        lemma_read_uint_digits_prefix(
            s.skip(1),
            t,
            depth + 1,
            (acc + (s[0] % 128) * pow128(depth)) as nat,
        );
    }
}

/// An integer that was read off `s` is read off `s + t` too, and leaves `t`
/// more.
pub proof fn lemma_read_uint_prefix(s: Seq<u8>, t: Seq<u8>)
    ensures
        spec_read_uint(s) matches Ok((v, n)) ==> spec_read_uint(s + t) == spec_read_uint(s) && (s
            + t).skip(n as int) == s.skip(n as int) + t,
{
    if let Ok((v, n)) = spec_read_uint(s) {
        lemma_read_uint_digits_prefix(s, t, 0, 0);
        lemma_read_uint_len(s);
        assert((s + t).skip(n as int) == s.skip(n as int) + t);
    }
}

} // verus!
