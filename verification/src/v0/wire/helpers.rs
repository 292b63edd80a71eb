//! The pieces that the wire forms are made of: tags, byte strings of a known
//! length, and multihashes.

use crate::v0::wire::extend;
use crate::v0::wire::varint::{
    decode_u32, decode_u64, decode_usize, encode_u32, encode_u64, encode_usize, lemma_parse_u32,
    lemma_parse_u64, parse_u32, parse_u64, parse_usize, varint,
};
use crate::v0::wire::{FromWire, ToWire, WireError};
use vstd::prelude::*;
use vstd::slice::{slice_subrange, slice_to_vec};

verus! {

/// Prefix for an ed25519 public key.
pub const PREFIX_ED25519_PUB: u32 = 0xed;

/// Prefix for an ed25519 signature.
pub const PREFIX_ED25519_SIG: u32 = 0xef;

/// Prefix for an ed25519 secret key.
pub const PREFIX_ED25519_SECRET: u64 = 0xff_ed25519_536b;

/// Prefix for an ed25519 secret key which has been sealed (equivalent to
/// None).
pub const PREFIX_ED25519_SECRET_SEALED: u64 = 0xff_ed25519_0000;

/// Prefix for a ChaCha20-Poly1305 key.
pub const PREFIX_CHACHA20POLY1305_KEY: u64 = 0xff_caca20_1305;

/// Prefix for a ChaCha20-Poly1305 nonce.
pub const PREFIX_CHACHA20POLY1305_NONCE: u64 = 0xfe_caca20_1305;

/// Prefix for a ChaCha20-Poly1305 ciphertext.
pub const PREFIX_CHACHA20POLY1305_CIPHERTEXT: u64 = 0xfc_caca20_1305;

/// What is left of `input` after the 32-bit tag `tag`.
pub open spec fn parse_tag_u32(input: Seq<u8>, tag: u32) -> Result<Seq<u8>, WireError> {
    match parse_u32(input) {
        Ok((v, rest)) => if v == tag {
            Ok(rest)
        } else {
            Err(WireError::UnexpectedTag)
        },
        Err(e) => Err(e),
    }
}

/// What is left of `input` after the 64-bit tag `tag`.
pub open spec fn parse_tag_u64(input: Seq<u8>, tag: u64) -> Result<Seq<u8>, WireError> {
    match parse_u64(input) {
        Ok((v, rest)) => if v == tag {
            Ok(rest)
        } else {
            Err(WireError::UnexpectedTag)
        },
        Err(e) => Err(e),
    }
}

/// The first `n` bytes of `input`, and what is left after them.
pub open spec fn parse_bytes(input: Seq<u8>, n: nat) -> Result<(Seq<u8>, Seq<u8>), WireError> {
    if input.len() < n {
        Err(WireError::Insufficient)
    } else {
        Ok((input.take(n as int), input.skip(n as int)))
    }
}

/// The `n` bytes that follow the 64-bit tag `tag`, and what is left after
/// them.
pub open spec fn parse_tagged(input: Seq<u8>, tag: u64, n: nat) -> Result<
    (Seq<u8>, Seq<u8>),
    WireError,
> {
    match parse_tag_u64(input, tag) {
        Ok(rest) => parse_bytes(rest, n),
        Err(e) => Err(e),
    }
}

/// The `n` bytes that follow the 32-bit tag `tag`, and what is left after
/// them.
pub open spec fn parse_tagged_u32(input: Seq<u8>, tag: u32, n: nat) -> Result<
    (Seq<u8>, Seq<u8>),
    WireError,
> {
    match parse_tag_u32(input, tag) {
        Ok(rest) => parse_bytes(rest, n),
        Err(e) => Err(e),
    }
}

/// The ciphertext at the start of `input`: its tag, its length and as many
/// bytes.
pub open spec fn parse_ciphertext(input: Seq<u8>) -> Result<(Seq<u8>, Seq<u8>), WireError> {
    match parse_tag_u64(input, PREFIX_CHACHA20POLY1305_CIPHERTEXT) {
        Ok(r1) => match parse_usize(r1) {
            Ok((n, r2)) => parse_bytes(r2, n as nat),
            Err(e) => Err(e),
        },
        Err(e) => Err(e),
    }
}

/// The wire form of a ciphertext: its tag, its length and its bytes.
pub open spec fn ciphertext_wire(ciphertext: Seq<u8>) -> Seq<u8> {
    varint(PREFIX_CHACHA20POLY1305_CIPHERTEXT as nat) + varint(ciphertext.len()) + ciphertext
}

/// What a reader of bytes returned, as sequences.
pub open spec fn taken(res: Result<(&[u8], &[u8]), WireError>) -> Result<
    (Seq<u8>, Seq<u8>),
    WireError,
> {
    match res {
        Ok((bytes, rest)) => Ok((bytes@, rest@)),
        Err(e) => Err(e),
    }
}

/// What a reader of a tag returned, as a sequence.
pub open spec fn left(res: Result<&[u8], WireError>) -> Result<Seq<u8>, WireError> {
    match res {
        Ok(rest) => Ok(rest@),
        Err(e) => Err(e),
    }
}

/// Reads the 32-bit tag `tag`.
pub fn take_tag_u32(input: &[u8], tag: u32) -> (res: Result<&[u8], WireError>)
    ensures
        left(res) == parse_tag_u32(input@, tag),
{
    match decode_u32(input) {
        Ok((v, rest)) => {
            if v == tag {
                Ok(rest)
            } else {
                Err(WireError::UnexpectedTag)
            }
        },
        Err(e) => Err(e),
    }
}

/// Reads the 64-bit tag `tag`.
pub fn take_tag_u64(input: &[u8], tag: u64) -> (res: Result<&[u8], WireError>)
    ensures
        left(res) == parse_tag_u64(input@, tag),
{
    match decode_u64(input) {
        Ok((v, rest)) => {
            if v == tag {
                Ok(rest)
            } else {
                Err(WireError::UnexpectedTag)
            }
        },
        Err(e) => Err(e),
    }
}

/// Reads `n` bytes.
pub fn take_bytes(input: &[u8], n: usize) -> (res: Result<(&[u8], &[u8]), WireError>)
    ensures
        taken(res) == parse_bytes(input@, n as nat),
{
    if input.len() < n {
        Err(WireError::Insufficient)
    } else {
        let bytes = slice_subrange(input, 0, n);
        let rest = slice_subrange(input, n, input.len());
        proof {
            assert(bytes@ =~= input@.take(n as int));
            assert(rest@ =~= input@.skip(n as int));
        }
        Ok((bytes, rest))
    }
}

/// Reads the 64-bit tag `tag` and the `n` bytes after it.
pub fn take_tagged(input: &[u8], tag: u64, n: usize) -> (res: Result<(&[u8], &[u8]), WireError>)
    ensures
        taken(res) == parse_tagged(input@, tag, n as nat),
{
    match take_tag_u64(input, tag) {
        Ok(rest) => take_bytes(rest, n),
        Err(e) => Err(e),
    }
}

/// Reads the 32-bit tag `tag` and the `n` bytes after it.
pub fn take_tagged_u32(input: &[u8], tag: u32, n: usize) -> (res: Result<
    (&[u8], &[u8]),
    WireError,
>)
    ensures
        taken(res) == parse_tagged_u32(input@, tag, n as nat),
{
    match take_tag_u32(input, tag) {
        Ok(rest) => take_bytes(rest, n),
        Err(e) => Err(e),
    }
}

/// Reads a ciphertext: its tag, its length and as many bytes.
pub fn take_chachapoly_ciphertext(input: &[u8]) -> (res: Result<(&[u8], &[u8]), WireError>)
    ensures
        taken(res) == parse_ciphertext(input@),
{
    match take_tag_u64(input, PREFIX_CHACHA20POLY1305_CIPHERTEXT) {
        Ok(r1) => match decode_usize(r1) {
            Ok((n, r2)) => take_bytes(r2, n),
            Err(e) => Err(e),
        },
        Err(e) => Err(e),
    }
}

/// Writes the 64-bit tag `tag` and `bytes` after it.
pub fn put_tagged(out: &mut Vec<u8>, tag: u64, bytes: &[u8])
    ensures
        final(out)@ == old(out)@ + varint(tag as nat) + bytes@,
{
    extend(out, encode_u64(tag).as_slice());
    extend(out, bytes);
}

/// Writes the 32-bit tag `tag` and `bytes` after it.
pub fn put_tagged_u32(out: &mut Vec<u8>, tag: u32, bytes: &[u8])
    ensures
        final(out)@ == old(out)@ + varint(tag as nat) + bytes@,
{
    extend(out, encode_u32(tag).as_slice());
    extend(out, bytes);
}

/// Writes a ciphertext: its tag, its length and its bytes.
pub fn put_ciphertext(out: &mut Vec<u8>, ciphertext: &[u8])
    ensures
        final(out)@ == old(out)@ + ciphertext_wire(ciphertext@),
{
    extend(out, encode_u64(PREFIX_CHACHA20POLY1305_CIPHERTEXT).as_slice());
    extend(out, encode_usize(ciphertext.len()).as_slice());
    extend(out, ciphertext);
    assert(out@ =~= old(out)@ + ciphertext_wire(ciphertext@));
}

/// Bytes that were written after a tag are read again.
pub proof fn lemma_parse_tagged(tag: u64, bytes: Seq<u8>, rest: Seq<u8>)
    ensures
        parse_tagged(varint(tag as nat) + bytes + rest, tag, bytes.len()) == Ok::<
            (Seq<u8>, Seq<u8>),
            WireError,
        >((bytes, rest)),
{
    lemma_parse_u64(tag, bytes + rest);
    assert(varint(tag as nat) + bytes + rest =~= varint(tag as nat) + (bytes + rest));
    assert((bytes + rest).take(bytes.len() as int) =~= bytes);
    assert((bytes + rest).skip(bytes.len() as int) =~= rest);
}

/// Bytes that were written after a tag are read again.
pub proof fn lemma_parse_tagged_u32(tag: u32, bytes: Seq<u8>, rest: Seq<u8>)
    ensures
        parse_tagged_u32(varint(tag as nat) + bytes + rest, tag, bytes.len()) == Ok::<
            (Seq<u8>, Seq<u8>),
            WireError,
        >((bytes, rest)),
{
    lemma_parse_u32(tag, bytes + rest);
    assert(varint(tag as nat) + bytes + rest =~= varint(tag as nat) + (bytes + rest));
    assert((bytes + rest).take(bytes.len() as int) =~= bytes);
    assert((bytes + rest).skip(bytes.len() as int) =~= rest);
}

/// A ciphertext that was written is read again.
pub proof fn lemma_parse_ciphertext(ciphertext: Seq<u8>, rest: Seq<u8>)
    requires
        ciphertext.len() <= usize::MAX,
    ensures
        parse_ciphertext(ciphertext_wire(ciphertext) + rest) == Ok::<
            (Seq<u8>, Seq<u8>),
            WireError,
        >((ciphertext, rest)),
{
    let tail = varint(ciphertext.len()) + (ciphertext + rest);
    lemma_parse_u64(PREFIX_CHACHA20POLY1305_CIPHERTEXT, tail);
    lemma_parse_u64(ciphertext.len() as u64, ciphertext + rest);
    assert(ciphertext_wire(ciphertext) + rest =~= varint(
        PREFIX_CHACHA20POLY1305_CIPHERTEXT as nat,
    ) + tail);
    assert((ciphertext + rest).take(ciphertext.len() as int) =~= ciphertext);
    assert((ciphertext + rest).skip(ciphertext.len() as int) =~= rest);
}

/// What a multihash holds.
pub struct MultihashView {
    pub code: u64,
    pub digest: Seq<u8>,
}

/// A hash that says which hash function made it.
#[derive(Debug, PartialEq, Eq, Hash)]
pub struct Multihash {
    pub code: u64,
    pub digest: Vec<u8>,
}

impl View for Multihash {
    type V = MultihashView;

    open spec fn view(&self) -> MultihashView {
        MultihashView { code: self.code, digest: self.digest@ }
    }
}

impl Clone for Multihash {
    fn clone(&self) -> (m: Multihash)
        ensures
            m@ == self@,
    {
        Multihash { code: self.code, digest: self.digest.clone() }
    }
}

/// The largest digest that a multihash holds, in bytes.
pub const MULTIHASH_MAX_SIZE: usize = 64;

/// The wire form of a multihash: the varints of its code and of the length
/// of its digest, and the digest.
pub open spec fn multihash_wire(m: MultihashView) -> Seq<u8> {
    varint(m.code as nat) + varint(m.digest.len()) + m.digest
}

/// What the start of `input` is read as where a multihash stands there.
pub open spec fn parse_multihash(input: Seq<u8>) -> Result<(MultihashView, Seq<u8>), WireError> {
    match parse_u64(input) {
        Ok((code, r1)) => match parse_usize(r1) {
            Ok((n, r2)) => if r2.len() < n {
                Err(WireError::Insufficient)
            } else if n > MULTIHASH_MAX_SIZE {
                Err(WireError::InvalidMultihash)
            } else {
                Ok((MultihashView { code, digest: r2.take(n as int) }, r2.skip(n as int)))
            },
            Err(e) => Err(e),
        },
        Err(e) => Err(e),
    }
}

impl Multihash {
    /// The bytes of the multihash.
    pub fn to_bytes(&self) -> (bytes: Vec<u8>)
        ensures
            bytes@ == multihash_wire(self@),
    {
        let mut bytes: Vec<u8> = Vec::new();
        extend(&mut bytes, encode_u64(self.code).as_slice());
        extend(&mut bytes, encode_usize(self.digest.len()).as_slice());
        extend(&mut bytes, self.digest.as_slice());
        assert(bytes@ =~= multihash_wire(self@));
        bytes
    }

    /// Whether two multihashes are the same.
    pub fn same(&self, other: &Multihash) -> (b: bool)
        ensures
            b == (self@ == other@),
    {
        self.code == other.code && bytes_equal(self.digest.as_slice(), other.digest.as_slice())
    }
}

/// Whether two byte strings are the same.
pub fn bytes_equal(a: &[u8], b: &[u8]) -> (same: bool)
    ensures
        same == (a@ == b@),
{
    if a.len() != b.len() {
        return false;
    }
    let n = a.len();
    for i in 0..n
        invariant
            n == a@.len(),
            n == b@.len(),
            forall|j: int| 0 <= j < i ==> a@[j] == b@[j],
    {
        if a[i] != b[i] {
            return false;
        }
    }
    assert(a@ =~= b@);
    true
}

impl ToWire for Multihash {
    open spec fn wire(&self) -> Seq<u8> {
        multihash_wire(self@)
    }

    fn to_wire(&self) -> (bytes: Vec<u8>) {
        self.to_bytes()
    }
}

impl FromWire for Multihash {
    open spec fn parse(input: Seq<u8>) -> Result<(MultihashView, Seq<u8>), WireError> {
        parse_multihash(input)
    }

    fn from_wire_partial(input: &[u8]) -> (res: Result<(&[u8], Multihash), WireError>) {
        let (code, r1) = match decode_u64(input) {
            Ok(v) => v,
            Err(e) => { return Err(e); },
        };
        let (n, r2) = match decode_usize(r1) {
            Ok(v) => v,
            Err(e) => { return Err(e); },
        };
        if r2.len() < n {
            return Err(WireError::Insufficient);
        }
        if n > MULTIHASH_MAX_SIZE {
            return Err(WireError::InvalidMultihash);
        }
        let digest = slice_to_vec(slice_subrange(r2, 0, n));
        let rest = slice_subrange(r2, n, r2.len());
        proof {
            assert(digest@ =~= r2@.take(n as int));
            assert(rest@ =~= r2@.skip(n as int));
        }
        Ok((rest, Multihash { code, digest }))
    }
}

/// A multihash that was written is read again.
pub proof fn lemma_multihash_round_trip(m: MultihashView, rest: Seq<u8>)
    requires
        m.digest.len() <= MULTIHASH_MAX_SIZE,
    ensures
        parse_multihash(multihash_wire(m) + rest) == Ok::<(MultihashView, Seq<u8>), WireError>(
            (m, rest),
        ),
{
    let tail = varint(m.digest.len()) + (m.digest + rest);
    lemma_parse_u64(m.code, tail);
    lemma_parse_u64(m.digest.len() as u64, m.digest + rest);
    assert(multihash_wire(m) + rest =~= varint(m.code as nat) + tail);
    assert((m.digest + rest).take(m.digest.len() as int) =~= m.digest);
    assert((m.digest + rest).skip(m.digest.len() as int) =~= rest);
}

} // verus!
