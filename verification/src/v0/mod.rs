//! Initial version of paperback wire format types.
//!
//! This module also includes all of the necessary code to serialise and
//! interact with the relevant structures.




pub mod backup;
pub mod pdf;
pub mod recover;
pub mod wire;

pub use backup::Backup;
pub use pdf::qr::{Joiner, Part};
pub use recover::{
    Grouping, InconsistentQuorumError, NewShardKind, Quorum, Type, UntrustedQuorum,
};
pub use wire::text::multibase_strip;
pub use wire::{FromWire, ToWire};

use crate::crypto::{
    aead_decrypt, aead_encrypt, bip39_entropy, bip39_phrase, blake2b256, blake2b256_digest,
    bytes_of, chacha20poly1305_open, chacha20poly1305_seal, ed25519_key_valid, ed25519_public,
    ed25519_public_key, ed25519_sign, ed25519_signature, mnemonic_entropy, mnemonic_phrase,
    CHACHAPOLY_KEY_LENGTH, CHACHAPOLY_NONCE_LENGTH, CHECKSUM_CODE, MAX_MESSAGE_LENGTH,
    PUBLIC_KEY_LENGTH, SECRET_KEY_LENGTH, SIGNATURE_LENGTH,
};
use crate::rng::random_bytes;
use crate::shamir::dealer::Error as ShamirError;
use crate::shamir::shard::{shard_id, Shard, ShardView};
use crate::v0::wire::helpers::{
    multihash_wire, Multihash, MultihashView, PREFIX_ED25519_PUB,
};
use crate::v0::wire::key_shard::{
    key_shard_builder_wire, key_shard_wire, lemma_key_shard_round_trip, parse_key_shard,
};
use crate::v0::wire::main_document::{main_document_builder_wire, main_document_wire, meta_wire};
use crate::v0::wire::text::{
    join_words, joined, lowercase, multibase_encode, multibase_text, split_words, texts,
    to_lowercase, words_of, Base, MultibaseError,
};
use crate::v0::wire::varint::{encode_u32, varint};
use crate::v0::wire::{extend, whole, WireError};
use vstd::prelude::*;
use vstd::slice::slice_to_vec;
use vstd::string::StringSliceAdditionalSpecFns;
use vstd::utf8::{encode_utf8, is_char_boundary};

verus! {

/// The identifier of a shard.
pub type ShardId = String;

/// The identifier of a main document.
pub type DocumentId = String;

/// The codewords that encrypt a key shard.
pub type KeyShardCodewords = Vec<String>;

/// The version of the format that this module reads and writes.
pub const PAPERBACK_VERSION: u32 = 0;

/// What can go wrong when a backup is made or recovered.
#[derive(Debug, PartialEq, Eq)]
pub enum Error {
    /// A security invariant is violated.
    InvariantViolation(&'static str),
    /// The quorum lacks what the request needs.
    MissingCapability(&'static str),
    /// The message could not be encrypted.
    AeadEncryption,
    /// The ciphertext is not authentic under the key.
    AeadDecryption,
    /// The shards do not recover a dealer.
    Shamir(ShamirError),
    /// The secret that the shards hold is no shard secret.
    ShardSecretDecode(WireError),
    /// The shard id names no shard.
    ShardIdDecode(MultibaseError),
    /// The secret key of the shard secret is no ed25519 secret key. Any 32
    /// bytes are one, so the parsers of this library never say so.
    PrivateKeyDecode,
    /// The key has no mnemonic phrase, or the phrase no key.
    Bip39,
    /// What the key shard decrypts to is no key shard.
    KeyShardDecode(WireError),
}

/// What an identity holds.
pub struct IdentityView {
    pub id_public_key: Seq<u8>,
    pub id_signature: Seq<u8>,
}

/// Who signed a document: the ed25519 public key and the signature under
/// it.
#[derive(Debug, Eq, PartialEq)]
pub struct Identity {
    pub id_public_key: Vec<u8>,
    pub id_signature: Vec<u8>,
}

impl View for Identity {
    type V = IdentityView;

    open spec fn view(&self) -> IdentityView {
        IdentityView { id_public_key: self.id_public_key@, id_signature: self.id_signature@ }
    }
}

impl Clone for Identity {
    fn clone(&self) -> (c: Identity)
        ensures
            c@ == self@,
    {
        Identity {
            id_public_key: self.id_public_key.clone(),
            id_signature: self.id_signature.clone(),
        }
    }
}

impl IdentityView {
    /// The key has 32 bytes that are a public key, and the signature has 64
    /// bytes.
    pub open spec fn wf(self) -> bool {
        &&& self.id_public_key.len() == PUBLIC_KEY_LENGTH
        &&& self.id_signature.len() == SIGNATURE_LENGTH
        &&& ed25519_key_valid(self.id_public_key)
    }
}

/// What a shard secret holds.
pub struct ShardSecretView {
    pub doc_key: Seq<u8>,
    pub id_keypair: Option<Seq<u8>>,
}

/// What the shards of a backup share: the key of the main document and,
/// unless the backup is sealed, the secret key that signs new shards.
#[derive(Debug, Eq, PartialEq)]
pub struct ShardSecret {
    pub doc_key: Vec<u8>,
    pub id_keypair: Option<Vec<u8>>,
}

impl View for ShardSecret {
    type V = ShardSecretView;

    open spec fn view(&self) -> ShardSecretView {
        ShardSecretView {
            doc_key: self.doc_key@,
            id_keypair: match self.id_keypair {
                Some(key) => Some(key@),
                None => None,
            },
        }
    }
}

impl ShardSecretView {
    /// Both keys have 32 bytes.
    pub open spec fn wf(self) -> bool {
        &&& self.doc_key.len() == CHACHAPOLY_KEY_LENGTH
        &&& self.id_keypair matches Some(key) ==> key.len() == SECRET_KEY_LENGTH
    }
}

/// What a key shard holds before it is signed.
pub struct KeyShardBuilderView {
    pub version: u32,
    pub doc_chksum: MultihashView,
    pub shard: ShardView,
}

/// A key shard before it is signed.
#[derive(Debug, Eq, PartialEq)]
pub struct KeyShardBuilder {
    pub version: u32,
    pub doc_chksum: Multihash,
    pub shard: Shard,
}

impl View for KeyShardBuilder {
    type V = KeyShardBuilderView;

    open spec fn view(&self) -> KeyShardBuilderView {
        KeyShardBuilderView {
            version: self.version,
            doc_chksum: self.doc_chksum@,
            shard: self.shard@,
        }
    }
}

impl Clone for KeyShardBuilder {
    fn clone(&self) -> (c: KeyShardBuilder)
        ensures
            c@ == self@,
    {
        KeyShardBuilder {
            version: self.version,
            doc_chksum: self.doc_chksum.clone(),
            shard: self.shard.clone(),
        }
    }
}

/// The bytes that are signed: the wire form of what is signed, the tag of a
/// public key and the public key.
pub open spec fn signable(wire: Seq<u8>, id_public_key: Seq<u8>) -> Seq<u8> {
    wire + varint(PREFIX_ED25519_PUB as nat) + id_public_key
}

/// Appends the tag of a public key and the public key to a wire form.
pub fn signable_bytes_of(wire: Vec<u8>, id_public_key: &[u8]) -> (bytes: Vec<u8>)
    ensures
        bytes@ == signable(wire@, id_public_key@),
{
    let mut bytes = wire;
    extend(&mut bytes, encode_u32(PREFIX_ED25519_PUB).as_slice());
    extend(&mut bytes, id_public_key);
    bytes
}

impl KeyShardBuilder {
    /// The bytes that the signature of the key shard covers.
    pub fn signable_bytes(&self, id_public_key: &[u8]) -> (bytes: Vec<u8>)
        ensures
            bytes@ == signable(key_shard_builder_wire(self@), id_public_key@),
    {
        signable_bytes_of(self.to_wire(), id_public_key)
    }

    /// Signs the key shard with the secret key `id_keypair`.
    pub fn sign(self, id_keypair: &[u8]) -> (shard: KeyShard)
        requires
            id_keypair@.len() == SECRET_KEY_LENGTH,
        ensures
            shard@.inner == self@,
            shard@.identity.id_public_key == ed25519_public_key(id_keypair@),
            shard@.identity.id_signature == ed25519_signature(
                id_keypair@,
                signable(key_shard_builder_wire(self@), ed25519_public_key(id_keypair@)),
            ),
            shard@.identity.wf(),
    {
        let id_public_key = ed25519_public(id_keypair);
        let bytes = self.signable_bytes(id_public_key.as_slice());
        let id_signature = ed25519_sign(id_keypair, bytes.as_slice());
        KeyShard { inner: self, identity: Identity { id_public_key, id_signature } }
    }
}

/// What a key shard holds.
pub struct KeyShardView {
    pub inner: KeyShardBuilderView,
    pub identity: IdentityView,
}

/// A signed shard of the key of a main document.
#[derive(Debug, Eq, PartialEq)]
pub struct KeyShard {
    pub(crate) inner: KeyShardBuilder,
    pub(crate) identity: Identity,
}

impl View for KeyShard {
    type V = KeyShardView;

    closed spec fn view(&self) -> KeyShardView {
        KeyShardView { inner: self.inner@, identity: self.identity@ }
    }
}

impl Clone for KeyShard {
    fn clone(&self) -> (c: KeyShard)
        ensures
            c@ == self@,
    {
        KeyShard { inner: self.inner.clone(), identity: self.identity.clone() }
    }
}

impl KeyShardView {
    /// The identity is well formed, the version is zero and the checksum
    /// is a Blake2b-256 multihash.
    pub open spec fn wf(self) -> bool {
        &&& self.identity.wf()
        &&& self.inner.version == PAPERBACK_VERSION
        &&& self.inner.doc_chksum.code == CHECKSUM_CODE
        &&& self.inner.doc_chksum.digest.len() <= 64
        &&& self.inner.shard.x != 0
        &&& self.inner.shard.ys.len() <= usize::MAX
    }
}

/// The last `length` bytes of a text, or the whole text where it is shorter
/// or where they do not start with a character.
pub open spec fn suffix(text: Seq<u8>, length: nat) -> Seq<u8> {
    let n = text.len() as usize;
    if n >= length && is_char_boundary(text, n - length) {
        text.subrange(n - length, text.len() as int)
    } else {
        text
    }
}

/// The z-base-32 multibase text of a multihash.
pub open spec fn checksum_text(hash: MultihashView) -> Seq<char> {
    multibase_text(Base::Base32Z.code(), multihash_wire(hash))
}

/// The short identifier of a multihash: the end of its z-base-32 multibase
/// text.
pub fn multihash_short_id(hash: &Multihash, length: usize) -> (id: String)
    ensures
        encode_utf8(id@) == suffix(encode_utf8(checksum_text(hash@)), length as nat),
{
    let doc_chksum = hash.to_bytes();
    let encoded_chksum = multibase_encode(Base::Base32Z, doc_chksum.as_slice());
    let text = encoded_chksum.as_str();
    let n = text.len();
    // The *suffix* is the ID.
    if n >= length && text.is_char_boundary(n - length) {
        let (_, short_id) = text.split_at(n - length);
        proof {
            assert(short_id.spec_bytes() =~= suffix(text.spec_bytes(), length as nat));
        }
        short_id.to_owned()
    } else {
        encoded_chksum
    }
}

/// What an encrypted key shard holds.
pub struct EncryptedKeyShardView {
    pub nonce: Seq<u8>,
    pub ciphertext: Seq<u8>,
}

/// A key shard, encrypted under the key that its codewords spell.
#[derive(Debug, Eq, PartialEq)]
pub struct EncryptedKeyShard {
    pub(crate) nonce: Vec<u8>,
    pub(crate) ciphertext: Vec<u8>,
}

impl View for EncryptedKeyShard {
    type V = EncryptedKeyShardView;

    closed spec fn view(&self) -> EncryptedKeyShardView {
        EncryptedKeyShardView { nonce: self.nonce@, ciphertext: self.ciphertext@ }
    }
}

impl Clone for EncryptedKeyShard {
    fn clone(&self) -> (c: EncryptedKeyShard)
        ensures
            c@ == self@,
    {
        EncryptedKeyShard { nonce: self.nonce.clone(), ciphertext: self.ciphertext.clone() }
    }
}

impl EncryptedKeyShardView {
    /// The nonce has 12 bytes.
    pub open spec fn wf(self) -> bool {
        self.nonce.len() == CHACHAPOLY_NONCE_LENGTH
    }
}

/// The Blake2b-256 multihash of some bytes.
pub open spec fn checksum_of(bytes: Seq<u8>) -> MultihashView {
    MultihashView { code: CHECKSUM_CODE, digest: blake2b256_digest(bytes) }
}

/// The Blake2b-256 multihash of some bytes.
pub fn checksum_bytes(bytes: &[u8]) -> (hash: Multihash)
    ensures
        hash@ == checksum_of(bytes@),
        hash@.digest.len() == 32,
{
    Multihash { code: CHECKSUM_CODE, digest: blake2b256(bytes) }
}

/// What `shard` decrypts to under the key that `codewords` spell: the key
/// shard, or why there is none. The codewords are joined and read in lower
/// case; they have to spell a key of 32 bytes.
pub open spec fn decrypt_spec(shard: EncryptedKeyShardView, codewords: Seq<Seq<char>>) -> Result<
    KeyShardView,
    Error,
> {
    match bip39_entropy(lowercase(joined(codewords))) {
        Some(key) => if key.len() != CHACHAPOLY_KEY_LENGTH {
            Err(Error::Bip39)
        } else if shard.nonce.len() != CHACHAPOLY_NONCE_LENGTH {
            Err(Error::AeadDecryption)
        } else {
            match chacha20poly1305_open(key, shard.nonce, Seq::empty(), shard.ciphertext) {
                Some(wire) => match whole(parse_key_shard(wire)) {
                    Ok(v) => Ok(v),
                    Err(e) => Err(Error::KeyShardDecode(e)),
                },
                None => Err(Error::AeadDecryption),
            }
        },
        None => Err(Error::Bip39),
    }
}

/// Whether `encrypted` is `shard` encrypted under `key` without associated
/// data, and `codewords` are the words of the phrase of `key`.
pub open spec fn encrypts(
    key: Seq<u8>,
    shard: KeyShardView,
    encrypted: EncryptedKeyShardView,
    codewords: Seq<Seq<char>>,
) -> bool {
    &&& key.len() == CHACHAPOLY_KEY_LENGTH
    &&& encrypted.wf()
    &&& Some(encrypted.ciphertext) == chacha20poly1305_seal(
        key,
        encrypted.nonce,
        Seq::empty(),
        key_shard_wire(shard),
    )
    &&& bip39_phrase(key) matches Some(phrase) && codewords == words_of(phrase)
}

/// What a decryption returned, with the key shard by its view.
pub open spec fn decrypted(res: Result<KeyShard, Error>) -> Result<KeyShardView, Error> {
    match res {
        Ok(shard) => Ok(shard@),
        Err(e) => Err(e),
    }
}

impl KeyShard {
    /// The number of characters of the identifier of a key shard.
    pub const ID_LENGTH: usize = 8;

    /// The identifier of the shard.
    pub fn id(&self) -> (id: String)
        ensures
            id@ == shard_id(self@.inner.shard.x),
    {
        self.inner.shard.id()
    }

    /// The checksum of the main document that the shard belongs to.
    pub fn document_checksum(&self) -> (hash: Multihash)
        ensures
            hash@ == self@.inner.doc_chksum,
    {
        self.inner.doc_chksum.clone()
    }

    /// The identifier of the main document that the shard belongs to.
    pub fn document_id(&self) -> (id: String)
        ensures
            encode_utf8(id@) == suffix(encode_utf8(checksum_text(self@.inner.doc_chksum)), 8),
    {
        multihash_short_id(&self.inner.doc_chksum, MainDocument::ID_LENGTH)
    }

    /// The number of shards that recover the main document.
    pub fn quorum_size(&self) -> (k: u32)
        ensures
            k == self@.inner.shard.threshold,
    {
        self.inner.shard.threshold()
    }

    /// Encrypts the key shard under `key` with the nonce `nonce`, and
    /// returns it with the codewords that spell the key.
    pub fn encrypt_with(&self, key: &[u8], nonce: &[u8]) -> (res: Result<
        (EncryptedKeyShard, KeyShardCodewords),
        Error,
    >)
        requires
            key@.len() == CHACHAPOLY_KEY_LENGTH,
            nonce@.len() == CHACHAPOLY_NONCE_LENGTH,
        ensures
            encrypted_with(res, self@, key@, nonce@),
            key_shard_wire(self@).len() < MAX_MESSAGE_LENGTH ==> res is Ok,
            key_shard_wire(self@).len() >= MAX_MESSAGE_LENGTH ==> res == Err::<
                (EncryptedKeyShard, KeyShardCodewords),
                Error,
            >(Error::AeadEncryption),
    {
        // Serialise.
        let wire_shard = self.to_wire();
        // Encrypt the contents.
        let empty: Vec<u8> = Vec::new();
        proof {
            assert(empty@ =~= Seq::<u8>::empty());
        }
        let ciphertext = match aead_encrypt(key, nonce, empty.as_slice(), wire_shard.as_slice()) {
            Some(ciphertext) => ciphertext,
            None => { return Err(Error::AeadEncryption); },
        };
        // Convert key to a BIP-39 mnemonic.
        let phrase = match mnemonic_phrase(key) {
            Some(phrase) => phrase,
            None => { return Err(Error::Bip39); },
        };
        let codewords = split_words(phrase.as_str());
        // Create wrapper shard.
        let shard = EncryptedKeyShard { nonce: slice_to_vec(nonce), ciphertext };
        Ok((shard, codewords))
    }

    /// Encrypts the key shard under a new random key, and returns it with
    /// the codewords that spell the key. A key shard that is too long for
    /// the cipher is not encrypted.
    pub fn encrypt(&self) -> (res: Result<(EncryptedKeyShard, KeyShardCodewords), Error>)
        ensures
            match res {
                Ok((shard, codewords)) => key_shard_wire(self@).len() < MAX_MESSAGE_LENGTH
                    && exists|key: Seq<u8>|
                    #[trigger] encrypts(key, self@, shard@, texts(codewords@)),
                Err(e) => key_shard_wire(self@).len() >= MAX_MESSAGE_LENGTH && e
                    == Error::AeadEncryption,
            },
    {
        // Generate key and nonce.
        let shard_key = random_bytes(CHACHAPOLY_KEY_LENGTH);
        let shard_nonce = random_bytes(CHACHAPOLY_NONCE_LENGTH);
        match self.encrypt_with(shard_key.as_slice(), shard_nonce.as_slice()) {
            Ok((shard, codewords)) => {
                let res = Ok((shard, codewords));
                proof {
                    assert(res matches Ok((s, c)) && encrypts(shard_key@, self@, s@, texts(c@)));
                }
                res
            },
            Err(e) => Err(e),
        }
    }
}

/// What encrypting `shard` under `key` with the nonce `nonce` gives: nothing
/// where the cipher refuses the key shard or the key has no phrase, and
/// else the nonce with the ciphertext, and the words of the phrase of the
/// key.
pub open spec fn encrypted_with(
    res: Result<(EncryptedKeyShard, KeyShardCodewords), Error>,
    shard: KeyShardView,
    key: Seq<u8>,
    nonce: Seq<u8>,
) -> bool {
    match chacha20poly1305_seal(key, nonce, Seq::empty(), key_shard_wire(shard)) {
        None => res == Err::<(EncryptedKeyShard, KeyShardCodewords), Error>(Error::AeadEncryption),
        Some(ciphertext) => match bip39_phrase(key) {
            None => res == Err::<(EncryptedKeyShard, KeyShardCodewords), Error>(Error::Bip39),
            Some(phrase) => {
                &&& res matches Ok((encrypted, codewords))
                &&& encrypted@ == EncryptedKeyShardView { nonce, ciphertext }
                &&& texts(codewords@) == words_of(phrase)
            },
        },
    }
}

impl EncryptedKeyShard {
    /// The checksum of the encrypted key shard.
    pub fn checksum(&self) -> (hash: Multihash)
        ensures
            hash@ == checksum_of(self.wire()),
    {
        let wire = self.to_wire();
        checksum_bytes(wire.as_slice())
    }

    /// The checksum of the encrypted key shard as text.
    pub fn checksum_string(&self) -> (text: String)
        ensures
            text@ == checksum_text(checksum_of(self.wire())),
    {
        let bytes = self.checksum().to_bytes();
        multibase_encode(Base::Base32Z, bytes.as_slice())
    }

    /// Decrypts the key shard under the key that the codewords spell. What
    /// was encrypted under a key is decrypted again by codewords that spell
    /// that key.
    pub fn decrypt(&self, codewords: &[String]) -> (res: Result<KeyShard, Error>)
        ensures
            decrypted(res) == decrypt_spec(self@, texts(codewords@)),
            forall|key: Seq<u8>, shard: KeyShardView|
                #[trigger] encrypts(key, shard, self@, texts(codewords@)) && bip39_entropy(
                    lowercase(joined(texts(codewords@))),
                ) == Some(key) && shard.wf() ==> decrypted(res) == Ok::<KeyShardView, Error>(
                    shard,
                ),
    {
        // Convert BIP-39 mnemonic to a key.
        let phrase = to_lowercase(join_words(codewords).as_str());
        let shard_key = match mnemonic_entropy(phrase.as_str()) {
            Some(key) => key,
            None => { return Err(Error::Bip39); },
        };
        if shard_key.len() != CHACHAPOLY_KEY_LENGTH {
            return Err(Error::Bip39);
        }
        if self.nonce.len() != CHACHAPOLY_NONCE_LENGTH {
            return Err(Error::AeadDecryption);
        }
        // Decrypt the contents.
        let empty: Vec<u8> = Vec::new();
        proof {
            assert(empty@ =~= Seq::<u8>::empty());
        }
        let opened = aead_decrypt(
            shard_key.as_slice(),
            self.nonce.as_slice(),
            empty.as_slice(),
            self.ciphertext.as_slice(),
        );
        proof {
            assert forall|key: Seq<u8>, shard: KeyShardView|
                #[trigger] encrypts(key, shard, self@, texts(codewords@)) && bip39_entropy(
                    lowercase(joined(texts(codewords@))),
                ) == Some(key) && shard.wf() implies decrypt_spec(self@, texts(codewords@)) == Ok::<
                KeyShardView,
                Error,
            >(shard) by {
                let wire = key_shard_wire(shard);
                assert(bytes_of(opened) == Some(wire));
                lemma_key_shard_round_trip(shard, Seq::empty());
                assert(wire + Seq::<u8>::empty() =~= wire);
            }
        }
        let wire_shard = match opened {
            Some(wire) => wire,
            None => { return Err(Error::AeadDecryption); },
        };
        // Deserialise.
        match KeyShard::from_wire(wire_shard.as_slice()) {
            Ok(shard) => Ok(shard),
            Err(e) => Err(Error::KeyShardDecode(e)),
        }
    }
}

/// What stands in front of a main document: the version of the format and
/// the number of key shards that recover the document.
#[derive(Debug, Clone, Copy, Eq, PartialEq, Structural)]
pub struct MainDocumentMeta {
    pub version: u32,
    pub quorum_size: u32,
}

impl View for MainDocumentMeta {
    type V = MainDocumentMeta;

    open spec fn view(&self) -> MainDocumentMeta {
        *self
    }
}

/// The associated data of the encryption of a main document: the wire form
/// of its meta data, the letter `k` and the public key.
pub open spec fn aad_of(meta: MainDocumentMeta, id_public_key: Seq<u8>) -> Seq<u8> {
    meta_wire(meta) + seq![0x6bu8] + id_public_key
}

impl MainDocumentMeta {
    /// The associated data of the encryption of the main document.
    pub fn aad(&self, id_public_key: &[u8]) -> (bytes: Vec<u8>)
        ensures
            bytes@ == aad_of(*self, id_public_key@),
    {
        let mut bytes = self.to_wire();
        // Append the public key used for signing.
        bytes.push(0x6bu8);
        extend(&mut bytes, id_public_key);
        assert(bytes@ =~= aad_of(*self, id_public_key@));
        bytes
    }
}

/// What a main document holds before it is signed.
pub struct MainDocumentBuilderView {
    pub meta: MainDocumentMeta,
    pub nonce: Seq<u8>,
    pub ciphertext: Seq<u8>,
}

/// A main document before it is signed.
#[derive(Debug, Eq, PartialEq)]
pub struct MainDocumentBuilder {
    pub meta: MainDocumentMeta,
    pub nonce: Vec<u8>,
    pub ciphertext: Vec<u8>,
}

impl View for MainDocumentBuilder {
    type V = MainDocumentBuilderView;

    open spec fn view(&self) -> MainDocumentBuilderView {
        MainDocumentBuilderView {
            meta: self.meta,
            nonce: self.nonce@,
            ciphertext: self.ciphertext@,
        }
    }
}

impl Clone for MainDocumentBuilder {
    fn clone(&self) -> (c: MainDocumentBuilder)
        ensures
            c@ == self@,
    {
        MainDocumentBuilder {
            meta: self.meta,
            nonce: self.nonce.clone(),
            ciphertext: self.ciphertext.clone(),
        }
    }
}

impl MainDocumentBuilder {
    /// The bytes that the signature of the main document covers.
    pub fn signable_bytes(&self, id_public_key: &[u8]) -> (bytes: Vec<u8>)
        ensures
            bytes@ == signable(main_document_builder_wire(self@), id_public_key@),
    {
        signable_bytes_of(self.to_wire(), id_public_key)
    }

    /// Signs the main document with the secret key `id_keypair`.
    pub fn sign(self, id_keypair: &[u8]) -> (main: MainDocument)
        requires
            id_keypair@.len() == SECRET_KEY_LENGTH,
        ensures
            main@.inner == self@,
            main@.identity.id_public_key == ed25519_public_key(id_keypair@),
            main@.identity.id_signature == ed25519_signature(
                id_keypair@,
                signable(main_document_builder_wire(self@), ed25519_public_key(id_keypair@)),
            ),
            main@.identity.wf(),
    {
        let id_public_key = ed25519_public(id_keypair);
        let bytes = self.signable_bytes(id_public_key.as_slice());
        let id_signature = ed25519_sign(id_keypair, bytes.as_slice());
        MainDocument { inner: self, identity: Identity { id_public_key, id_signature } }
    }
}

/// What a main document holds.
pub struct MainDocumentView {
    pub inner: MainDocumentBuilderView,
    pub identity: IdentityView,
}

/// The encrypted secret, signed.
#[derive(Debug, Eq, PartialEq)]
pub struct MainDocument {
    pub(crate) inner: MainDocumentBuilder,
    pub(crate) identity: Identity,
}

impl View for MainDocument {
    type V = MainDocumentView;

    closed spec fn view(&self) -> MainDocumentView {
        MainDocumentView { inner: self.inner@, identity: self.identity@ }
    }
}

impl Clone for MainDocument {
    fn clone(&self) -> (c: MainDocument)
        ensures
            c@ == self@,
    {
        MainDocument { inner: self.inner.clone(), identity: self.identity.clone() }
    }
}

impl MainDocumentView {
    /// The identity is well formed, the nonce has 12 bytes and the version
    /// is zero.
    pub open spec fn wf(self) -> bool {
        &&& self.identity.wf()
        &&& self.inner.nonce.len() == CHACHAPOLY_NONCE_LENGTH
        &&& self.inner.meta.version == PAPERBACK_VERSION
        &&& self.inner.ciphertext.len() <= usize::MAX
    }
}

impl MainDocument {
    /// The number of characters of the identifier of a main document.
    pub const ID_LENGTH: usize = 8;

    /// The checksum of the main document.
    pub fn checksum(&self) -> (hash: Multihash)
        ensures
            hash@ == checksum_of(main_document_wire(self@)),
            hash@.digest.len() == 32,
    {
        let wire = self.to_wire();
        checksum_bytes(wire.as_slice())
    }

    /// The checksum of the main document as text.
    pub fn checksum_string(&self) -> (text: String)
        ensures
            text@ == checksum_text(checksum_of(main_document_wire(self@))),
    {
        let bytes = self.checksum().to_bytes();
        multibase_encode(Base::Base32Z, bytes.as_slice())
    }

    /// The identifier of the main document.
    pub fn id(&self) -> (id: String)
        ensures
            encode_utf8(id@) == suffix(
                encode_utf8(checksum_text(checksum_of(main_document_wire(self@)))),
                8,
            ),
    {
        let hash = self.checksum();
        multihash_short_id(&hash, MainDocument::ID_LENGTH)
    }

    /// The number of key shards that recover the main document.
    pub fn quorum_size(&self) -> (k: u32)
        ensures
            k == self@.inner.meta.quorum_size,
    {
        self.inner.meta.quorum_size
    }

    /// The version of the format.
    pub fn version(&self) -> (v: u32)
        ensures
            v == self@.inner.meta.version,
    {
        self.inner.meta.version
    }
}

} // verus!
