//! The cryptographic primitives that paperback is built from: ed25519
//! signatures, ChaCha20-Poly1305 authenticated encryption, Blake2b-256
//! checksums and BIP-39 mnemonics. What they compute is named here and not
//! stated: the library relies on the crates that compute it.

use aead::{Aead, NewAead, Payload};
use bip39::{Language, Mnemonic};
use chacha20poly1305::{ChaCha20Poly1305, Key, Nonce};
use ed25519_dalek::{Signature, Signer, SigningKey, VerifyingKey};
use multihash::{Code, MultihashDigest};
use rand::rngs::OsRng;
use vstd::prelude::*;

verus! {

/// The length of an ed25519 secret key in bytes.
pub const SECRET_KEY_LENGTH: usize = 32;

/// The length of an ed25519 public key in bytes.
pub const PUBLIC_KEY_LENGTH: usize = 32;

/// The length of an ed25519 signature in bytes.
pub const SIGNATURE_LENGTH: usize = 64;

/// The length of a ChaCha20-Poly1305 key in bytes.
pub const CHACHAPOLY_KEY_LENGTH: usize = 32;

/// The length of a ChaCha20-Poly1305 nonce in bytes.
pub const CHACHAPOLY_NONCE_LENGTH: usize = 12;

/// The length of a Blake2b-256 digest in bytes.
pub const CHECKSUM_LENGTH: usize = 32;

/// The multihash code of Blake2b-256.
pub const CHECKSUM_CODE: u64 = 0xb220;

/// The length in bytes from which on a message is too long for
/// ChaCha20-Poly1305: as many blocks of 64 bytes as the block counter of
/// 32 bits counts.
pub const MAX_MESSAGE_LENGTH: u64 = 0x3f_ffff_ffc0;

/// The ed25519 public key of a secret key.
pub uninterp spec fn ed25519_public_key(secret: Seq<u8>) -> Seq<u8>;

/// Whether 32 bytes are an ed25519 public key: the encoding of a point of
/// the curve.
pub uninterp spec fn ed25519_key_valid(public: Seq<u8>) -> bool;

/// The ed25519 signature of a message under a secret key.
pub uninterp spec fn ed25519_signature(secret: Seq<u8>, message: Seq<u8>) -> Seq<u8>;

/// Whether a signature of a message verifies strictly under a public key.
pub uninterp spec fn ed25519_verifies(public: Seq<u8>, message: Seq<u8>, signature: Seq<u8>) -> bool;

/// The ciphertext of a message under a key, a nonce and associated data, or
/// nothing where the message is too long to encrypt.
pub uninterp spec fn chacha20poly1305_seal(
    key: Seq<u8>,
    nonce: Seq<u8>,
    aad: Seq<u8>,
    message: Seq<u8>,
) -> Option<Seq<u8>>;

/// The message of a ciphertext under a key, a nonce and associated data, or
/// nothing where the ciphertext is not authentic.
pub uninterp spec fn chacha20poly1305_open(
    key: Seq<u8>,
    nonce: Seq<u8>,
    aad: Seq<u8>,
    ciphertext: Seq<u8>,
) -> Option<Seq<u8>>;

/// The Blake2b-256 digest of some bytes.
pub uninterp spec fn blake2b256_digest(data: Seq<u8>) -> Seq<u8>;

/// The English BIP-39 phrase of some entropy, or nothing where the entropy
/// has a length that BIP-39 has no phrase for.
pub uninterp spec fn bip39_phrase(entropy: Seq<u8>) -> Option<Seq<char>>;

/// The entropy of an English BIP-39 phrase, or nothing where the text is no
/// such phrase.
pub uninterp spec fn bip39_entropy(phrase: Seq<char>) -> Option<Seq<u8>>;

/// A new random ed25519 secret key (`SigningKey::generate` on `OsRng`). The
/// call does not return where the system cannot supply randomness.
#[verifier::external_body]
pub(crate) fn ed25519_generate() -> (secret: Vec<u8>)
    ensures
        secret@.len() == SECRET_KEY_LENGTH,
{
    SigningKey::generate(&mut OsRng).to_bytes().to_vec()
}

/// The public key of a secret key (`SigningKey::from_bytes`, then
/// `verifying_key`). The key that comes back is one that `VerifyingKey`
/// holds, so its 32 bytes are a valid public key.
#[verifier::external_body]
pub(crate) fn ed25519_public(secret: &[u8]) -> (public: Vec<u8>)
    requires
        secret@.len() == SECRET_KEY_LENGTH,
    ensures
        public@ == ed25519_public_key(secret@),
        public@.len() == PUBLIC_KEY_LENGTH,
        ed25519_key_valid(public@),
{
    let secret: [u8; 32] = secret.try_into().unwrap();
    SigningKey::from_bytes(&secret).verifying_key().to_bytes().to_vec()
}

/// Whether 32 bytes are a public key (`VerifyingKey::from_bytes` succeeds).
#[verifier::external_body]
pub(crate) fn ed25519_check_key(public: &[u8]) -> (valid: bool)
    requires
        public@.len() == PUBLIC_KEY_LENGTH,
    ensures
        valid == ed25519_key_valid(public@),
{
    let public: [u8; 32] = public.try_into().unwrap();
    VerifyingKey::from_bytes(&public).is_ok()
}

/// The signature of a message under a secret key (`SigningKey::from_bytes`,
/// then `Signer::sign`): 64 bytes.
#[verifier::external_body]
pub(crate) fn ed25519_sign(secret: &[u8], message: &[u8]) -> (signature: Vec<u8>)
    requires
        secret@.len() == SECRET_KEY_LENGTH,
    ensures
        signature@ == ed25519_signature(secret@, message@),
        signature@.len() == SIGNATURE_LENGTH,
{
    let secret: [u8; 32] = secret.try_into().unwrap();
    SigningKey::from_bytes(&secret).sign(message).to_bytes().to_vec()
}

/// Whether a signature of a message verifies under a public key
/// (`VerifyingKey::from_bytes`, then `verify_strict`). Bytes that are no
/// public key verify nothing.
#[verifier::external_body]
pub(crate) fn ed25519_verify_strict(public: &[u8], message: &[u8], signature: &[u8]) -> (valid: bool)
    requires
        public@.len() == PUBLIC_KEY_LENGTH,
        signature@.len() == SIGNATURE_LENGTH,
    ensures
        valid == ed25519_verifies(public@, message@, signature@),
{
    let public: [u8; 32] = public.try_into().unwrap();
    let signature: [u8; 64] = signature.try_into().unwrap();
    match VerifyingKey::from_bytes(&public) {
        Ok(key) => key.verify_strict(message, &Signature::from_bytes(&signature)).is_ok(),
        Err(_) => false,
    }
}

/// Encrypts a message (`ChaCha20Poly1305::new`, then `Aead::encrypt`). The
/// cipher refuses a message exactly where it has `MAX_MESSAGE_LENGTH` bytes
/// or more.
#[verifier::external_body]
pub(crate) fn aead_encrypt(key: &[u8], nonce: &[u8], aad: &[u8], message: &[u8]) -> (ciphertext: Option<
    Vec<u8>,
>)
    requires
        key@.len() == CHACHAPOLY_KEY_LENGTH,
        nonce@.len() == CHACHAPOLY_NONCE_LENGTH,
    ensures
        bytes_of(ciphertext) == chacha20poly1305_seal(key@, nonce@, aad@, message@),
        ciphertext is Some <==> message@.len() < MAX_MESSAGE_LENGTH,
{
    let aead = ChaCha20Poly1305::new(Key::from_slice(key));
    aead.encrypt(Nonce::from_slice(nonce), Payload { msg: message, aad }).ok()
}

/// Whether `message` is what was sealed, wherever `ciphertext` is what
/// sealing some message under the key, the nonce and the associated data
/// gave.
pub open spec fn opens_what_was_sealed(
    key: Seq<u8>,
    nonce: Seq<u8>,
    aad: Seq<u8>,
    ciphertext: Seq<u8>,
    message: Option<Seq<u8>>,
) -> bool {
    forall|sealed: Seq<u8>|
        #[trigger] chacha20poly1305_seal(key, nonce, aad, sealed) == Some(ciphertext) ==> message
            == Some(sealed)
}

/// Decrypts a ciphertext (`ChaCha20Poly1305::new`, then `Aead::decrypt`).
/// What the cipher has encrypted it decrypts, under the same key, nonce and
/// associated data, to what was encrypted.
#[verifier::external_body]
pub(crate) fn aead_decrypt(key: &[u8], nonce: &[u8], aad: &[u8], ciphertext: &[u8]) -> (message: Option<
    Vec<u8>,
>)
    requires
        key@.len() == CHACHAPOLY_KEY_LENGTH,
        nonce@.len() == CHACHAPOLY_NONCE_LENGTH,
    ensures
        bytes_of(message) == chacha20poly1305_open(key@, nonce@, aad@, ciphertext@),
        opens_what_was_sealed(key@, nonce@, aad@, ciphertext@, bytes_of(message)),
{
    let aead = ChaCha20Poly1305::new(Key::from_slice(key));
    aead.decrypt(Nonce::from_slice(nonce), Payload { msg: ciphertext, aad }).ok()
}

/// What an optional vector holds.
pub open spec fn bytes_of(v: Option<Vec<u8>>) -> Option<Seq<u8>> {
    match v {
        Some(bytes) => Some(bytes@),
        None => None,
    }
}

/// What an optional string holds.
pub open spec fn chars_of(s: Option<String>) -> Option<Seq<char>> {
    match s {
        Some(text) => Some(text@),
        None => None,
    }
}

/// The Blake2b-256 digest of some bytes (`Code::Blake2b256.digest`, then
/// `Multihash::digest`): 32 bytes.
#[verifier::external_body]
pub(crate) fn blake2b256(data: &[u8]) -> (digest: Vec<u8>)
    ensures
        digest@ == blake2b256_digest(data@),
        digest@.len() == CHECKSUM_LENGTH,
{
    Code::Blake2b256.digest(data).digest().to_vec()
}

/// The English BIP-39 phrase of some entropy (`Mnemonic::from_entropy`, then
/// `into_phrase`). Entropy of 32 bytes has a phrase.
#[verifier::external_body]
pub(crate) fn mnemonic_phrase(entropy: &[u8]) -> (phrase: Option<String>)
    ensures
        chars_of(phrase) == bip39_phrase(entropy@),
        entropy@.len() == CHACHAPOLY_KEY_LENGTH ==> phrase is Some,
{
    Mnemonic::from_entropy(entropy, Language::English).ok().map(|m| m.into_phrase())
}

/// The entropy of an English BIP-39 phrase (`Mnemonic::from_phrase`, then
/// `entropy`).
#[verifier::external_body]
pub(crate) fn mnemonic_entropy(phrase: &str) -> (entropy: Option<Vec<u8>>)
    ensures
        bytes_of(entropy) == bip39_entropy(phrase@),
{
    Mnemonic::from_phrase(phrase, Language::English).ok().map(|m| m.entropy().to_vec())
}

} // verus!
