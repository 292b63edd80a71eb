//! The wire forms of an identity and of a shard secret.

use crate::crypto::{
    ed25519_check_key, ed25519_key_valid, CHACHAPOLY_KEY_LENGTH, PUBLIC_KEY_LENGTH,
    SECRET_KEY_LENGTH, SIGNATURE_LENGTH,
};
use crate::v0::wire::helpers::{
    lemma_parse_tagged, lemma_parse_tagged_u32, parse_bytes, parse_tagged, parse_tagged_u32,
    put_tagged, put_tagged_u32, take_bytes, take_tagged, take_tagged_u32,
    PREFIX_CHACHA20POLY1305_KEY, PREFIX_ED25519_PUB, PREFIX_ED25519_SECRET,
    PREFIX_ED25519_SECRET_SEALED, PREFIX_ED25519_SIG,
};
use crate::v0::wire::varint::{decode_u64, lemma_parse_u64, parse_u64, varint};
use crate::v0::wire::{FromWire, ToWire, WireError};
use crate::v0::{Identity, IdentityView, ShardSecret, ShardSecretView};
use vstd::prelude::*;
use vstd::slice::slice_to_vec;

verus! {

/// The wire form of an identity: the tag of a public key, the key, the tag
/// of a signature and the signature.
pub open spec fn identity_wire(id: IdentityView) -> Seq<u8> {
    varint(PREFIX_ED25519_PUB as nat) + id.id_public_key + varint(PREFIX_ED25519_SIG as nat)
        + id.id_signature
}

/// What the start of `input` is read as where an identity stands there.
pub open spec fn parse_identity(input: Seq<u8>) -> Result<(IdentityView, Seq<u8>), WireError> {
    match parse_tagged_u32(input, PREFIX_ED25519_PUB, PUBLIC_KEY_LENGTH as nat) {
        Ok((id_public_key, r1)) => match parse_tagged_u32(
            r1,
            PREFIX_ED25519_SIG,
            SIGNATURE_LENGTH as nat,
        ) {
            Ok((id_signature, r2)) => if ed25519_key_valid(id_public_key) {
                Ok((IdentityView { id_public_key, id_signature }, r2))
            } else {
                Err(WireError::InvalidPublicKey)
            },
            Err(e) => Err(e),
        },
        Err(e) => Err(e),
    }
}

impl ToWire for Identity {
    open spec fn wire(&self) -> Seq<u8> {
        identity_wire(self@)
    }

    fn to_wire(&self) -> (bytes: Vec<u8>) {
        let mut bytes: Vec<u8> = Vec::new();
        // Encode ed25519 public key (with multicodec prefix).
        put_tagged_u32(&mut bytes, PREFIX_ED25519_PUB, self.id_public_key.as_slice());
        // Encode ed25519 signature (with multicodec prefix).
        put_tagged_u32(&mut bytes, PREFIX_ED25519_SIG, self.id_signature.as_slice());
        assert(bytes@ =~= identity_wire(self@));
        bytes
    }
}

impl FromWire for Identity {
    open spec fn parse(input: Seq<u8>) -> Result<(IdentityView, Seq<u8>), WireError> {
        parse_identity(input)
    }

    fn from_wire_partial(input: &[u8]) -> (res: Result<(&[u8], Identity), WireError>) {
        let (public_key, r1) = match take_tagged_u32(input, PREFIX_ED25519_PUB, PUBLIC_KEY_LENGTH) {
            Ok(v) => v,
            Err(e) => { return Err(e); },
        };
        let (signature, r2) = match take_tagged_u32(r1, PREFIX_ED25519_SIG, SIGNATURE_LENGTH) {
            Ok(v) => v,
            Err(e) => { return Err(e); },
        };
        if !ed25519_check_key(public_key) {
            return Err(WireError::InvalidPublicKey);
        }
        Ok(
            (
                r2,
                Identity {
                    id_public_key: slice_to_vec(public_key),
                    id_signature: slice_to_vec(signature),
                },
            ),
        )
    }
}

/// An identity that was written is read again.
pub proof fn lemma_identity_round_trip(id: IdentityView, rest: Seq<u8>)
    requires
        id.wf(),
    ensures
        parse_identity(identity_wire(id) + rest) == Ok::<(IdentityView, Seq<u8>), WireError>(
            (id, rest),
        ),
{
    let tail = varint(PREFIX_ED25519_SIG as nat) + id.id_signature + rest;
    lemma_parse_tagged_u32(PREFIX_ED25519_PUB, id.id_public_key, tail);
    lemma_parse_tagged_u32(PREFIX_ED25519_SIG, id.id_signature, rest);
    assert(identity_wire(id) + rest =~= varint(PREFIX_ED25519_PUB as nat) + id.id_public_key
        + tail);
}

/// 32 bytes that are zero.
pub open spec fn zero_key() -> Seq<u8> {
    Seq::new(SECRET_KEY_LENGTH as nat, |i: int| 0u8)
}

/// The wire form of a shard secret: the tag of a key, the key, and either
/// the tag of a secret key and the secret key, or the tag of a sealed
/// secret key and 32 bytes that are zero.
pub open spec fn shard_secret_wire(s: ShardSecretView) -> Seq<u8> {
    varint(PREFIX_CHACHA20POLY1305_KEY as nat) + s.doc_key + match s.id_keypair {
        Some(key) => varint(PREFIX_ED25519_SECRET as nat) + key,
        None => varint(PREFIX_ED25519_SECRET_SEALED as nat) + zero_key(),
    }
}

/// What the start of `input` is read as where the secret key of a shard
/// secret stands there, or the slot of one that is sealed.
pub open spec fn parse_secret_key(input: Seq<u8>) -> Result<(Option<Seq<u8>>, Seq<u8>), WireError> {
    match parse_u64(input) {
        Ok((tag, r1)) => if tag == PREFIX_ED25519_SECRET {
            match parse_bytes(r1, SECRET_KEY_LENGTH as nat) {
                Ok((key, r2)) => Ok((Some(key), r2)),
                Err(e) => Err(e),
            }
        } else if tag == PREFIX_ED25519_SECRET_SEALED {
            match parse_bytes(r1, SECRET_KEY_LENGTH as nat) {
                Ok((key, r2)) => if key == zero_key() {
                    Ok((None, r2))
                } else {
                    Err(WireError::SealedKeyNotZero)
                },
                Err(e) => Err(e),
            }
        } else {
            Err(WireError::UnexpectedTag)
        },
        Err(e) => Err(e),
    }
}

/// What the start of `input` is read as where a shard secret stands there.
pub open spec fn parse_shard_secret(input: Seq<u8>) -> Result<
    (ShardSecretView, Seq<u8>),
    WireError,
> {
    match parse_tagged(input, PREFIX_CHACHA20POLY1305_KEY, CHACHAPOLY_KEY_LENGTH as nat) {
        Ok((doc_key, r1)) => match parse_secret_key(r1) {
            Ok((id_keypair, r2)) => Ok((ShardSecretView { doc_key, id_keypair }, r2)),
            Err(e) => Err(e),
        },
        Err(e) => Err(e),
    }
}

/// Whether all bytes are zero.
pub fn all_zero(bytes: &[u8]) -> (zero: bool)
    ensures
        zero == (forall|i: int| 0 <= i < bytes@.len() ==> bytes@[i] == 0),
{
    let n = bytes.len();
    for i in 0..n
        invariant
            n == bytes@.len(),
            forall|j: int| 0 <= j < i ==> bytes@[j] == 0,
    {
        if bytes[i] != 0 {
            return false;
        }
    }
    true
}

impl ToWire for ShardSecret {
    open spec fn wire(&self) -> Seq<u8> {
        shard_secret_wire(self@)
    }

    fn to_wire(&self) -> (bytes: Vec<u8>) {
        let mut bytes: Vec<u8> = Vec::new();
        // Encode ChaCha20-Poly1305 key.
        put_tagged(&mut bytes, PREFIX_CHACHA20POLY1305_KEY, self.doc_key.as_slice());
        // Encode ed25519 private key.
        match &self.id_keypair {
            Some(key) => {
                put_tagged(&mut bytes, PREFIX_ED25519_SECRET, key.as_slice());
            },
            None => {
                let mut zeroes: Vec<u8> = Vec::new();
                for i in 0..SECRET_KEY_LENGTH
                    invariant
                        zeroes@.len() == i,
                        forall|j: int| 0 <= j < i ==> zeroes@[j] == 0,
                {
                    zeroes.push(0u8);
                }
                assert(zeroes@ =~= zero_key());
                put_tagged(&mut bytes, PREFIX_ED25519_SECRET_SEALED, zeroes.as_slice());
            },
        }
        assert(bytes@ =~= shard_secret_wire(self@));
        bytes
    }
}

impl FromWire for ShardSecret {
    open spec fn parse(input: Seq<u8>) -> Result<(ShardSecretView, Seq<u8>), WireError> {
        parse_shard_secret(input)
    }

    fn from_wire_partial(input: &[u8]) -> (res: Result<(&[u8], ShardSecret), WireError>) {
        let (doc_key, r1) = match take_tagged(
            input,
            PREFIX_CHACHA20POLY1305_KEY,
            CHACHAPOLY_KEY_LENGTH,
        ) {
            Ok(v) => v,
            Err(e) => { return Err(e); },
        };
        let (tag, r2) = match decode_u64(r1) {
            Ok(v) => v,
            Err(e) => { return Err(e); },
        };
        if tag == PREFIX_ED25519_SECRET {
            // Unsealed document -- fetch the key.
            let (key, r3) = match take_bytes(r2, SECRET_KEY_LENGTH) {
                Ok(v) => v,
                Err(e) => { return Err(e); },
            };
            Ok(
                (
                    r3,
                    ShardSecret { doc_key: slice_to_vec(doc_key), id_keypair: Some(slice_to_vec(key)) },
                ),
            )
        } else if tag == PREFIX_ED25519_SECRET_SEALED {
            // Sealed document -- ensure the key is all zeroes.
            let (key, r3) = match take_bytes(r2, SECRET_KEY_LENGTH) {
                Ok(v) => v,
                Err(e) => { return Err(e); },
            };
            if !all_zero(key) {
                proof {
                    let i = choose|i: int| 0 <= i < key@.len() && key@[i] != 0;
                    assert(zero_key()[i] == 0);
                }
                return Err(WireError::SealedKeyNotZero);
            }
            proof {
                assert(key@ =~= zero_key());
            }
            Ok((r3, ShardSecret { doc_key: slice_to_vec(doc_key), id_keypair: None }))
        } else {
            Err(WireError::UnexpectedTag)
        }
    }
}

/// A shard secret that was written is read again.
pub proof fn lemma_shard_secret_round_trip(s: ShardSecretView, rest: Seq<u8>)
    requires
        s.wf(),
    ensures
        parse_shard_secret(shard_secret_wire(s) + rest) == Ok::<
            (ShardSecretView, Seq<u8>),
            WireError,
        >((s, rest)),
{
    let (tag, key) = match s.id_keypair {
        Some(key) => (PREFIX_ED25519_SECRET, key),
        None => (PREFIX_ED25519_SECRET_SEALED, zero_key()),
    };
    let tail = varint(tag as nat) + key + rest;
    lemma_parse_tagged(PREFIX_CHACHA20POLY1305_KEY, s.doc_key, tail);
    lemma_parse_u64(tag, key + rest);
    assert(shard_secret_wire(s) + rest =~= varint(PREFIX_CHACHA20POLY1305_KEY as nat) + s.doc_key
        + tail);
    assert(tail =~= varint(tag as nat) + (key + rest));
    assert((key + rest).take(key.len() as int) =~= key);
    assert((key + rest).skip(key.len() as int) =~= rest);
}

} // verus!
