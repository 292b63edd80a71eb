//! The wire forms of a key shard, before and after it is signed, and of an
//! encrypted key shard.

use crate::crypto::{CHACHAPOLY_NONCE_LENGTH, CHECKSUM_CODE};
use crate::shamir::shard::{lemma_shard_round_trip, parse_shard, shard_wire, Shard};
use crate::v0::wire::helpers::{
    ciphertext_wire, lemma_multihash_round_trip, lemma_parse_ciphertext, lemma_parse_tagged,
    multihash_wire, parse_ciphertext, parse_multihash, parse_tagged, put_ciphertext, put_tagged,
    take_chachapoly_ciphertext, take_tagged, Multihash, PREFIX_CHACHA20POLY1305_NONCE,
};
use crate::v0::wire::internal::{identity_wire, lemma_identity_round_trip, parse_identity};
use crate::v0::wire::varint::{decode_u32, encode_u32, lemma_parse_u32, parse_u32, varint};
use crate::v0::wire::{extend, FromWire, ToWire, WireError};
use crate::v0::{
    EncryptedKeyShard, EncryptedKeyShardView, Identity, KeyShard, KeyShardBuilder,
    KeyShardBuilderView, KeyShardView, PAPERBACK_VERSION,
};
use vstd::prelude::*;
use vstd::slice::slice_to_vec;

verus! {

/// The wire form of a key shard before it is signed: the version, the
/// checksum of the main document and the shard.
pub open spec fn key_shard_builder_wire(k: KeyShardBuilderView) -> Seq<u8> {
    varint(k.version as nat) + multihash_wire(k.doc_chksum) + shard_wire(k.shard)
}

/// What the start of `input` is read as where a key shard stands there
/// that is not signed.
pub open spec fn parse_key_shard_builder(input: Seq<u8>) -> Result<
    (KeyShardBuilderView, Seq<u8>),
    WireError,
> {
    match parse_u32(input) {
        Ok((version, r1)) => match parse_multihash(r1) {
            Ok((doc_chksum, r2)) => match parse_shard(r2) {
                Ok((shard, r3)) => Ok((KeyShardBuilderView { version, doc_chksum, shard }, r3)),
                Err(e) => Err(e),
            },
            Err(e) => Err(e),
        },
        Err(e) => Err(e),
    }
}

impl ToWire for KeyShardBuilder {
    open spec fn wire(&self) -> Seq<u8> {
        key_shard_builder_wire(self@)
    }

    fn to_wire(&self) -> (bytes: Vec<u8>) {
        let mut bytes: Vec<u8> = Vec::new();
        // Encode version.
        extend(&mut bytes, encode_u32(self.version).as_slice());
        // Encode multihash checksum.
        extend(&mut bytes, self.doc_chksum.to_bytes().as_slice());
        // Encode shard data.
        extend(&mut bytes, self.shard.to_wire().as_slice());
        assert(bytes@ =~= key_shard_builder_wire(self@));
        bytes
    }
}

impl FromWire for KeyShardBuilder {
    open spec fn parse(input: Seq<u8>) -> Result<(KeyShardBuilderView, Seq<u8>), WireError> {
        parse_key_shard_builder(input)
    }

    fn from_wire_partial(input: &[u8]) -> (res: Result<(&[u8], KeyShardBuilder), WireError>) {
        let (version, r1) = match decode_u32(input) {
            Ok(v) => v,
            Err(e) => { return Err(e); },
        };
        let (r2, doc_chksum) = match Multihash::from_wire_partial(r1) {
            Ok(v) => v,
            Err(e) => { return Err(e); },
        };
        let (r3, shard) = match Shard::from_wire_partial(r2) {
            Ok(v) => v,
            Err(e) => { return Err(e); },
        };
        Ok((r3, KeyShardBuilder { version, doc_chksum, shard }))
    }
}

/// The wire form of a key shard: what is signed, and who signed it.
pub open spec fn key_shard_wire(k: KeyShardView) -> Seq<u8> {
    key_shard_builder_wire(k.inner) + identity_wire(k.identity)
}

/// What the start of `input` is read as where a key shard stands there. One
/// whose checksum is no Blake2b-256 multihash is refused, and one of another
/// version than zero.
pub open spec fn parse_key_shard(input: Seq<u8>) -> Result<(KeyShardView, Seq<u8>), WireError> {
    match parse_key_shard_builder(input) {
        Ok((inner, r1)) => match parse_identity(r1) {
            Ok((identity, r2)) => if inner.doc_chksum.code != CHECKSUM_CODE {
                Err(WireError::UnsupportedChecksum)
            } else if inner.version != PAPERBACK_VERSION {
                Err(WireError::UnsupportedVersion)
            } else {
                Ok((KeyShardView { inner, identity }, r2))
            },
            Err(e) => Err(e),
        },
        Err(e) => Err(e),
    }
}

impl ToWire for KeyShard {
    open spec fn wire(&self) -> Seq<u8> {
        key_shard_wire(self@)
    }

    fn to_wire(&self) -> (bytes: Vec<u8>) {
        let mut bytes: Vec<u8> = Vec::new();
        extend(&mut bytes, self.inner.to_wire().as_slice());
        extend(&mut bytes, self.identity.to_wire().as_slice());
        assert(bytes@ =~= key_shard_wire(self@));
        bytes
    }
}

impl FromWire for KeyShard {
    open spec fn parse(input: Seq<u8>) -> Result<(KeyShardView, Seq<u8>), WireError> {
        parse_key_shard(input)
    }

    fn from_wire_partial(input: &[u8]) -> (res: Result<(&[u8], KeyShard), WireError>) {
        let (r1, inner) = match KeyShardBuilder::from_wire_partial(input) {
            Ok(v) => v,
            Err(e) => { return Err(e); },
        };
        let (r2, identity) = match Identity::from_wire_partial(r1) {
            Ok(v) => v,
            Err(e) => { return Err(e); },
        };
        if inner.doc_chksum.code != CHECKSUM_CODE {
            return Err(WireError::UnsupportedChecksum);
        }
        if inner.version != PAPERBACK_VERSION {
            return Err(WireError::UnsupportedVersion);
        }
        Ok((r2, KeyShard { inner, identity }))
    }
}

/// The wire form of an encrypted key shard: the tag of a nonce, the nonce,
/// and the ciphertext.
pub open spec fn encrypted_key_shard_wire(k: EncryptedKeyShardView) -> Seq<u8> {
    varint(PREFIX_CHACHA20POLY1305_NONCE as nat) + k.nonce + ciphertext_wire(k.ciphertext)
}

/// What the start of `input` is read as where an encrypted key shard stands
/// there.
pub open spec fn parse_encrypted_key_shard(input: Seq<u8>) -> Result<
    (EncryptedKeyShardView, Seq<u8>),
    WireError,
> {
    match parse_tagged(input, PREFIX_CHACHA20POLY1305_NONCE, CHACHAPOLY_NONCE_LENGTH as nat) {
        Ok((nonce, r1)) => match parse_ciphertext(r1) {
            Ok((ciphertext, r2)) => Ok((EncryptedKeyShardView { nonce, ciphertext }, r2)),
            Err(e) => Err(e),
        },
        Err(e) => Err(e),
    }
}

impl ToWire for EncryptedKeyShard {
    open spec fn wire(&self) -> Seq<u8> {
        encrypted_key_shard_wire(self@)
    }

    fn to_wire(&self) -> (bytes: Vec<u8>) {
        let mut bytes: Vec<u8> = Vec::new();
        // Encode ChaCha20-Poly1305 nonce.
        put_tagged(&mut bytes, PREFIX_CHACHA20POLY1305_NONCE, self.nonce.as_slice());
        // Encode ChaCha20-Poly1305 ciphertext (length-prefixed).
        put_ciphertext(&mut bytes, self.ciphertext.as_slice());
        assert(bytes@ =~= encrypted_key_shard_wire(self@));
        bytes
    }
}

impl FromWire for EncryptedKeyShard {
    open spec fn parse(input: Seq<u8>) -> Result<(EncryptedKeyShardView, Seq<u8>), WireError> {
        parse_encrypted_key_shard(input)
    }

    fn from_wire_partial(input: &[u8]) -> (res: Result<(&[u8], EncryptedKeyShard), WireError>) {
        let (nonce, r1) = match take_tagged(
            input,
            PREFIX_CHACHA20POLY1305_NONCE,
            CHACHAPOLY_NONCE_LENGTH,
        ) {
            Ok(v) => v,
            Err(e) => { return Err(e); },
        };
        let (ciphertext, r2) = match take_chachapoly_ciphertext(r1) {
            Ok(v) => v,
            Err(e) => { return Err(e); },
        };
        Ok(
            (
                r2,
                EncryptedKeyShard { nonce: slice_to_vec(nonce), ciphertext: slice_to_vec(ciphertext) },
            ),
        )
    }
}

/// A key shard that is not signed and was written is read again.
pub proof fn lemma_key_shard_builder_round_trip(k: KeyShardBuilderView, rest: Seq<u8>)
    requires
        k.doc_chksum.digest.len() <= 64,
        k.shard.x != 0,
        k.shard.ys.len() <= usize::MAX,
    ensures
        parse_key_shard_builder(key_shard_builder_wire(k) + rest) == Ok::<
            (KeyShardBuilderView, Seq<u8>),
            WireError,
        >((k, rest)),
{
    let w2 = shard_wire(k.shard) + rest;
    let w1 = multihash_wire(k.doc_chksum) + w2;
    lemma_parse_u32(k.version, w1);
    lemma_multihash_round_trip(k.doc_chksum, w2);
    lemma_shard_round_trip(k.shard, rest);
    assert(key_shard_builder_wire(k) + rest =~= varint(k.version as nat) + w1);
}

/// A key shard that was written is read again.
pub proof fn lemma_key_shard_round_trip(k: KeyShardView, rest: Seq<u8>)
    requires
        k.wf(),
    ensures
        parse_key_shard(key_shard_wire(k) + rest) == Ok::<(KeyShardView, Seq<u8>), WireError>(
            (k, rest),
        ),
{
    lemma_key_shard_builder_round_trip(k.inner, identity_wire(k.identity) + rest);
    lemma_identity_round_trip(k.identity, rest);
    assert(key_shard_wire(k) + rest =~= key_shard_builder_wire(k.inner) + (identity_wire(
        k.identity,
    ) + rest));
}

/// An encrypted key shard that was written is read again.
pub proof fn lemma_encrypted_key_shard_round_trip(k: EncryptedKeyShardView, rest: Seq<u8>)
    requires
        k.wf(),
        k.ciphertext.len() <= usize::MAX,
    ensures
        parse_encrypted_key_shard(encrypted_key_shard_wire(k) + rest) == Ok::<
            (EncryptedKeyShardView, Seq<u8>),
            WireError,
        >((k, rest)),
{
    let tail = ciphertext_wire(k.ciphertext) + rest;
    lemma_parse_tagged(PREFIX_CHACHA20POLY1305_NONCE, k.nonce, tail);
    lemma_parse_ciphertext(k.ciphertext, rest);
    assert(encrypted_key_shard_wire(k) + rest =~= varint(PREFIX_CHACHA20POLY1305_NONCE as nat)
        + k.nonce + tail);
}

} // verus!
