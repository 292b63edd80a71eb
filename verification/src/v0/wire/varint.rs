//! Unsigned variable-length integers.

use crate::v0::wire::WireError;
use vstd::prelude::*;

verus! {

/// The encoding of `n`: seven bits to a byte, lowest first, and the high bit
/// set on every byte but the last.
pub open spec fn varint(n: nat) -> Seq<u8>
    decreases n,
{
    if n < 0x80 {
        seq![n as u8]
    } else {
        seq![(n % 0x80 + 0x80) as u8] + varint(n / 0x80)
    }
}

/// What decoding makes of the start of `buf` when at most `limit` bytes may
/// belong to the integer: the integer and the number of its bytes. The bytes
/// are read up to the first without the high bit, which after the first byte
/// may not be zero. `first` says whether `buf` starts at the first byte.
pub open spec fn varint_parse(buf: Seq<u8>, limit: nat, first: bool) -> Result<
    (nat, nat),
    WireError,
>
    decreases limit,
{
    if buf.len() == 0 || limit == 0 {
        Err(WireError::Insufficient)
    } else if buf[0] < 0x80 {
        if buf[0] == 0 && !first {
            Err(WireError::NotMinimal)
        } else {
            Ok((buf[0] as nat, 1))
        }
    } else if limit == 1 {
        Err(WireError::Overflow)
    } else {
        match varint_parse(buf.skip(1), (limit - 1) as nat, false) {
            Ok((v, c)) => Ok(((buf[0] - 0x80) as nat + 0x80 * v, c + 1)),
            Err(e) => Err(e),
        }
    }
}

/// What decoding a `u32` makes of the start of `buf`: at most five bytes,
/// and of the integer they hold the lowest 32 bits.
pub open spec fn parse_u32(buf: Seq<u8>) -> Result<(u32, Seq<u8>), WireError> {
    match varint_parse(buf, 5, true) {
        Ok((v, c)) => Ok(((v % 0x1_0000_0000) as u32, buf.skip(c as int))),
        Err(e) => Err(e),
    }
}

/// What decoding a `u64` makes of the start of `buf`: at most ten bytes,
/// and of the integer they hold the lowest 64 bits.
pub open spec fn parse_u64(buf: Seq<u8>) -> Result<(u64, Seq<u8>), WireError> {
    match varint_parse(buf, 10, true) {
        Ok((v, c)) => Ok(((v % 0x1_0000_0000_0000_0000) as u64, buf.skip(c as int))),
        Err(e) => Err(e),
    }
}

/// What decoding a length or a count makes of the start of `buf`: a `u64`
/// that fits the machine.
pub open spec fn parse_usize(buf: Seq<u8>) -> Result<(usize, Seq<u8>), WireError> {
    match parse_u64(buf) {
        Ok((v, rest)) => if v <= usize::MAX {
            Ok((v as usize, rest))
        } else {
            Err(WireError::TooLong)
        },
        Err(e) => Err(e),
    }
}

/// What a decoder returned, with the bytes that are left as a sequence.
pub open spec fn parsed<T>(res: Result<(T, &[u8]), WireError>) -> Result<(T, Seq<u8>), WireError> {
    match res {
        Ok((v, rest)) => Ok((v, rest@)),
        Err(e) => Err(e),
    }
}

/// The varint of `number` (`unsigned_varint::encode::u32`): the bytes that
/// the crate writes are those of `varint`.
#[verifier::external_body]
pub(crate) fn encode_u32(number: u32) -> (bytes: Vec<u8>)
    ensures
        bytes@ == varint(number as nat),
{
    let mut buffer = unsigned_varint::encode::u32_buffer();
    unsigned_varint::encode::u32(number, &mut buffer).to_vec()
}

/// The varint of `number` (`unsigned_varint::encode::u64`): the bytes that
/// the crate writes are those of `varint`.
#[verifier::external_body]
pub(crate) fn encode_u64(number: u64) -> (bytes: Vec<u8>)
    ensures
        bytes@ == varint(number as nat),
{
    let mut buffer = unsigned_varint::encode::u64_buffer();
    unsigned_varint::encode::u64(number, &mut buffer).to_vec()
}

/// Decodes a `u32` from the start of `buf` (`unsigned_varint::decode::u32`)
/// and returns it with the bytes that follow. The crate reads at most five
/// bytes, drops the bits above the 32nd, and fails where the input ends
/// early, where the fifth byte has its high bit set, and where a byte after
/// the first ends the integer with a zero.
#[verifier::external_body]
pub(crate) fn decode_u32(buf: &[u8]) -> (res: Result<(u32, &[u8]), WireError>)
    ensures
        parsed(res) == parse_u32(buf@),
{
    match unsigned_varint::decode::u32(buf) {
        Ok((v, rest)) => Ok((v, rest)),
        Err(unsigned_varint::decode::Error::Insufficient) => Err(WireError::Insufficient),
        Err(unsigned_varint::decode::Error::NotMinimal) => Err(WireError::NotMinimal),
        Err(_) => Err(WireError::Overflow),
    }
}

/// Decodes a `u64` from the start of `buf` (`unsigned_varint::decode::u64`)
/// and returns it with the bytes that follow. The crate reads at most ten
/// bytes, drops the bits above the 64th, and fails where the input ends
/// early, where the tenth byte has its high bit set, and where a byte after
/// the first ends the integer with a zero.
#[verifier::external_body]
pub(crate) fn decode_u64(buf: &[u8]) -> (res: Result<(u64, &[u8]), WireError>)
    ensures
        parsed(res) == parse_u64(buf@),
{
    match unsigned_varint::decode::u64(buf) {
        Ok((v, rest)) => Ok((v, rest)),
        Err(unsigned_varint::decode::Error::Insufficient) => Err(WireError::Insufficient),
        Err(unsigned_varint::decode::Error::NotMinimal) => Err(WireError::NotMinimal),
        Err(_) => Err(WireError::Overflow),
    }
}

/// The varint of a length or a count.
pub fn encode_usize(number: usize) -> (bytes: Vec<u8>)
    ensures
        bytes@ == varint(number as nat),
{
    encode_u64(number as u64)
}

/// Decodes a length or a count from the start of `buf` and returns it with
/// the bytes that follow.
pub fn decode_usize(buf: &[u8]) -> (res: Result<(usize, &[u8]), WireError>)
    ensures
        parsed(res) == parse_usize(buf@),
{
    match decode_u64(buf) {
        Ok((v, rest)) => {
            if v <= usize::MAX as u64 {
                Ok((v as usize, rest))
            } else {
                Err(WireError::TooLong)
            }
        },
        Err(e) => Err(e),
    }
}

/// The number of bytes of a varint grows with the integer.
pub proof fn lemma_varint_len(n: nat, k: nat)
    requires
        k >= 1,
        n < vstd::arithmetic::power::pow(0x80, k),
    ensures
        1 <= varint(n).len() <= k,
    decreases k,
{
    vstd::arithmetic::power::lemma_pow1(0x80);
    reveal(vstd::arithmetic::power::pow);
    if n >= 0x80 {
        assert(k >= 2) by {
            if k == 1 {
                assert(vstd::arithmetic::power::pow(0x80, 1) == 0x80);
            }
        }
        assert(vstd::arithmetic::power::pow(0x80, k) == 0x80 * vstd::arithmetic::power::pow(
            0x80,
            (k - 1) as nat,
        ));
        lemma_varint_len(n / 0x80, (k - 1) as nat);
    }
}

/// A varint is decoded to the integer that it encodes, whatever follows it.
pub proof fn lemma_varint_parse(n: nat, rest: Seq<u8>, limit: nat, first: bool)
    requires
        varint(n).len() <= limit,
        first || n > 0,
    ensures
        varint_parse(varint(n) + rest, limit, first) == Ok::<(nat, nat), WireError>(
            (n, varint(n).len()),
        ),
    decreases n,
{
    let buf = varint(n) + rest;
    if n < 0x80 {
        assert(buf[0] == n as u8);
    } else {
        let tail = varint(n / 0x80);
        assert(buf[0] == (n % 0x80 + 0x80) as u8);
        assert(buf.skip(1) =~= tail + rest);
        lemma_varint_parse(n / 0x80, rest, (limit - 1) as nat, false);
    }
}

/// A `u32` that was encoded is decoded again, and what follows it is left.
pub proof fn lemma_parse_u32(n: u32, rest: Seq<u8>)
    ensures
        parse_u32(varint(n as nat) + rest) == Ok::<(u32, Seq<u8>), WireError>((n, rest)),
        1 <= varint(n as nat).len() <= 5,
{
    assert(vstd::arithmetic::power::pow(0x80, 5) == 0x8_0000_0000) by {
        reveal_with_fuel(vstd::arithmetic::power::pow, 6);
    }
    lemma_varint_len(n as nat, 5);
    lemma_varint_parse(n as nat, rest, 5, true);
    assert((varint(n as nat) + rest).skip(varint(n as nat).len() as int) =~= rest);
}

/// A `u64` that was encoded is decoded again, and what follows it is left.
pub proof fn lemma_parse_u64(n: u64, rest: Seq<u8>)
    ensures
        parse_u64(varint(n as nat) + rest) == Ok::<(u64, Seq<u8>), WireError>((n, rest)),
        parse_usize(varint(n as nat) + rest) == (if n <= usize::MAX {
            Ok::<(usize, Seq<u8>), WireError>((n as usize, rest))
        } else {
            Err::<(usize, Seq<u8>), WireError>(WireError::TooLong)
        }),
        1 <= varint(n as nat).len() <= 10,
{
    assert(vstd::arithmetic::power::pow(0x80, 10) == 0x40_0000_0000_0000_0000) by {
        reveal_with_fuel(vstd::arithmetic::power::pow, 11);
    }
    lemma_varint_len(n as nat, 10);
    lemma_varint_parse(n as nat, rest, 10, true);
    assert((varint(n as nat) + rest).skip(varint(n as nat).len() as int) =~= rest);
}

} // verus!
