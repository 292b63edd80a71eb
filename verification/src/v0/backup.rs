//! Making a backup: the main document, and the dealer of its key shards.

use crate::crypto::{
    aead_encrypt, chacha20poly1305_seal, ed25519_generate, ed25519_public, ed25519_public_key,
    ed25519_signature, CHACHAPOLY_KEY_LENGTH, CHACHAPOLY_NONCE_LENGTH, MAX_MESSAGE_LENGTH,
    SECRET_KEY_LENGTH,
};
use crate::rng::random_bytes;
use crate::shamir::dealer::Dealer;
use crate::v0::wire::internal::{
    lemma_shard_secret_round_trip, parse_shard_secret, shard_secret_wire,
};
use crate::v0::wire::key_shard::key_shard_builder_wire;
use crate::v0::wire::main_document::{main_document_builder_wire, main_document_wire};
use crate::v0::wire::{whole, ToWire, WireError};
use crate::v0::{
    aad_of, checksum_of, signable, Error, IdentityView, KeyShard, KeyShardBuilder,
    KeyShardBuilderView, KeyShardView, MainDocument, MainDocumentBuilder, MainDocumentMeta,
    MainDocumentView, ShardSecret, ShardSecretView, PAPERBACK_VERSION,
};
use vstd::prelude::*;
use vstd::slice::slice_to_vec;

verus! {

/// A backup of a secret: its main document, and what deals and signs its
/// key shards.
pub struct Backup {
    main_document: MainDocument,
    dealer: Dealer,
    id_keypair: Vec<u8>,
}

impl Backup {
    /// The main document of the backup.
    pub closed spec fn document(&self) -> MainDocumentView {
        self.main_document@
    }

    /// The dealer of the key shards.
    pub closed spec fn dealer(&self) -> Dealer {
        self.dealer
    }

    /// The secret key that signs the main document and the key shards.
    pub closed spec fn secret_key(&self) -> Seq<u8> {
        self.id_keypair@
    }

    /// The main document is signed with the secret key of the backup, and
    /// the dealer deals a shard secret.
    pub closed spec fn wf(&self) -> bool {
        &&& self.dealer.wf()
        &&& self.dealer.is_fresh()
        &&& self.id_keypair@.len() == SECRET_KEY_LENGTH
        &&& self.main_document@.wf()
        &&& self.main_document@.identity.id_public_key == ed25519_public_key(self.id_keypair@)
    }

    /// What `wf` says of the parts of the backup.
    pub proof fn lemma_wf(&self)
        requires
            self.wf(),
        ensures
            self.dealer().wf(),
            self.dealer().is_fresh(),
            self.secret_key().len() == SECRET_KEY_LENGTH,
            self.document().wf(),
            self.document().identity.id_public_key == ed25519_public_key(self.secret_key()),
    {
    }

    /// Whether `backup` is a backup of `secret` with the quorum size
    /// `quorum_size`: its main document holds `secret` encrypted under the
    /// key that its dealer deals, bound to the quorum size and to the public
    /// key of its signature, and the dealer deals the secret key of the
    /// signature exactly if the backup is not sealed.
    pub open spec fn backs_up(&self, quorum_size: u32, secret: Seq<u8>, sealed: bool) -> bool {
        let main = self.document();
        let meta = MainDocumentMeta { version: PAPERBACK_VERSION, quorum_size };
        let id_public_key = ed25519_public_key(self.secret_key());
        &&& self.wf()
        &&& self.dealer().threshold_value() == quorum_size
        &&& main.inner.meta == meta
        &&& main.identity.id_public_key == id_public_key
        &&& main.identity.id_signature == ed25519_signature(
            self.secret_key(),
            signable(main_document_builder_wire(main.inner), id_public_key),
        )
        &&& whole(parse_shard_secret(self.dealer().secret_value())) matches Ok(shared)
        &&& shared.wf()
        &&& shared.id_keypair == (if sealed {
            None
        } else {
            Some(self.secret_key())
        })
        &&& Some(main.inner.ciphertext) == chacha20poly1305_seal(
            shared.doc_key,
            main.inner.nonce,
            aad_of(meta, id_public_key),
            secret,
        )
    }

    /// What putting a backup together gives, for each keypair, key and
    /// nonce: nothing where the cipher refuses the secret, and else a backup
    /// of the secret with that secret key, whose main document holds the
    /// secret sealed under that key and nonce.
    pub open spec fn assembled(
        res: Result<Backup, Error>,
        quorum_size: u32,
        secret: Seq<u8>,
        sealed: bool,
        id_keypair: Seq<u8>,
        doc_key: Seq<u8>,
        doc_nonce: Seq<u8>,
    ) -> bool {
        let meta = MainDocumentMeta { version: PAPERBACK_VERSION, quorum_size };
        match chacha20poly1305_seal(
            doc_key,
            doc_nonce,
            aad_of(meta, ed25519_public_key(id_keypair)),
            secret,
        ) {
            None => res == Err::<Backup, Error>(Error::AeadEncryption),
            Some(ciphertext) => {
                &&& res matches Ok(backup)
                &&& backup.backs_up(quorum_size, secret, sealed)
                &&& backup.secret_key() == id_keypair
                &&& backup.document().inner.nonce == doc_nonce
                &&& backup.document().inner.ciphertext == ciphertext
                &&& whole(parse_shard_secret(backup.dealer().secret_value())) matches Ok(shared)
                &&& shared.doc_key == doc_key
            },
        }
    }

    /// Puts a backup of `secret` together from the secret key `id_keypair`
    /// of its signatures and the key `doc_key` and the nonce `doc_nonce` of
    /// its main document. Only the polynomials of the dealer are drawn here.
    #[verifier::rlimit(40)]
    pub fn assemble(
        quorum_size: u32,
        secret: &[u8],
        sealed: bool,
        id_keypair: &[u8],
        doc_key: &[u8],
        doc_nonce: &[u8],
    ) -> (res: Result<Backup, Error>)
        requires
            id_keypair@.len() == SECRET_KEY_LENGTH,
            doc_key@.len() == CHACHAPOLY_KEY_LENGTH,
            doc_nonce@.len() == CHACHAPOLY_NONCE_LENGTH,
        ensures
            quorum_size == 0 ==> res == Err::<Backup, Error>(
                Error::InvariantViolation("quorum size must not be zero"),
            ),
            quorum_size != 0 ==> Backup::assembled(
                res,
                quorum_size,
                secret@,
                sealed,
                id_keypair@,
                doc_key@,
                doc_nonce@,
            ),
            quorum_size != 0 && secret@.len() < MAX_MESSAGE_LENGTH ==> res is Ok,
            quorum_size != 0 && secret@.len() >= MAX_MESSAGE_LENGTH ==> res == Err::<
                Backup,
                Error,
            >(Error::AeadEncryption),
    {
        if quorum_size == 0 {
            return Err(Error::InvariantViolation("quorum size must not be zero"));
        }
        let id_public_key = ed25519_public(id_keypair);
        // Construct shard secret and serialise it.
        let shard_secret = ShardSecret {
            doc_key: slice_to_vec(doc_key),
            id_keypair: if sealed {
                None
            } else {
                Some(slice_to_vec(id_keypair))
            },
        };
        let shard_secret_wire = shard_secret.to_wire();
        // Construct the MainDocument.
        let main_document_meta = MainDocumentMeta { version: PAPERBACK_VERSION, quorum_size };
        // Encrypt the contents.
        let aad = main_document_meta.aad(id_public_key.as_slice());
        let ciphertext = match aead_encrypt(doc_key, doc_nonce, aad.as_slice(), secret) {
            Some(ciphertext) => ciphertext,
            None => { return Err(Error::AeadEncryption); },
        };
        let _length = ciphertext.len();
        // Continue MainDocument construction.
        let main_document = MainDocumentBuilder {
            meta: main_document_meta,
            nonce: slice_to_vec(doc_nonce),
            ciphertext,
        }.sign(id_keypair);
        // Construct SSS dealer.
        let dealer = Dealer::new(quorum_size, shard_secret_wire.as_slice());
        let backup = Backup { main_document, dealer, id_keypair: slice_to_vec(id_keypair) };
        proof {
            assert(shard_secret@.wf());
            lemma_shard_secret_round_trip(shard_secret@, Seq::empty());
            assert(shard_secret_wire@ + Seq::<u8>::empty() =~= shard_secret_wire@);
            assert(whole(parse_shard_secret(backup.dealer().secret_value())) == Ok::<
                ShardSecretView,
                WireError,
            >(shard_secret@));
            assert(backup.document().inner.ciphertext.len() <= usize::MAX);
            assert(backup.document().wf());
            assert(backup.wf());
        }
        Ok(backup)
    }

    fn inner_new(quorum_size: u32, secret: &[u8], sealed: bool) -> (res: Result<Backup, Error>)
        ensures
            quorum_size == 0 ==> res == Err::<Backup, Error>(
                Error::InvariantViolation("quorum size must not be zero"),
            ),
            quorum_size != 0 && secret@.len() >= MAX_MESSAGE_LENGTH ==> res == Err::<
                Backup,
                Error,
            >(Error::AeadEncryption),
            quorum_size != 0 && secret@.len() < MAX_MESSAGE_LENGTH ==> (res matches Ok(backup)
                && backup.backs_up(quorum_size, secret@, sealed)),
    {
        // Generate identity keypair.
        let id_keypair = ed25519_generate();
        // Generate key and nonce.
        let doc_key = random_bytes(CHACHAPOLY_KEY_LENGTH);
        let doc_nonce = random_bytes(CHACHAPOLY_NONCE_LENGTH);
        Backup::assemble(
            quorum_size,
            secret,
            sealed,
            id_keypair.as_slice(),
            doc_key.as_slice(),
            doc_nonce.as_slice(),
        )
    }

    /// A backup of `secret` that `quorum_size` key shards recover, and to
    /// which a quorum can add key shards. There is none for a quorum size of
    /// zero, nor for a secret that is too long for the cipher.
    pub fn new(quorum_size: u32, secret: &[u8]) -> (res: Result<Backup, Error>)
        ensures
            quorum_size == 0 ==> res == Err::<Backup, Error>(
                Error::InvariantViolation("quorum size must not be zero"),
            ),
            quorum_size != 0 && secret@.len() >= MAX_MESSAGE_LENGTH ==> res == Err::<
                Backup,
                Error,
            >(Error::AeadEncryption),
            quorum_size != 0 && secret@.len() < MAX_MESSAGE_LENGTH ==> (res matches Ok(backup)
                && backup.backs_up(quorum_size, secret@, false)),
    {
        Backup::inner_new(quorum_size, secret, false)
    }

    /// A backup of `secret` that `quorum_size` key shards recover, and to
    /// which no key shard can be added later. There is none for a quorum
    /// size of zero, nor for a secret that is too long for the cipher.
    pub fn new_sealed(quorum_size: u32, secret: &[u8]) -> (res: Result<Backup, Error>)
        ensures
            quorum_size == 0 ==> res == Err::<Backup, Error>(
                Error::InvariantViolation("quorum size must not be zero"),
            ),
            quorum_size != 0 && secret@.len() >= MAX_MESSAGE_LENGTH ==> res == Err::<
                Backup,
                Error,
            >(Error::AeadEncryption),
            quorum_size != 0 && secret@.len() < MAX_MESSAGE_LENGTH ==> (res matches Ok(backup)
                && backup.backs_up(quorum_size, secret@, true)),
    {
        Backup::inner_new(quorum_size, secret, true)
    }

    /// The main document of the backup.
    pub fn main_document(&self) -> (main: &MainDocument)
        ensures
            main@ == self.document(),
    {
        &self.main_document
    }

    /// The key shard of the backup at `x`: the shard that the dealer deals
    /// at `x`, with the version and the checksum of the main document,
    /// signed with the secret key of the backup.
    pub open spec fn key_shard_at(&self, x: u32) -> KeyShardView {
        let inner = KeyShardBuilderView {
            version: self.document().inner.meta.version,
            doc_chksum: checksum_of(main_document_wire(self.document())),
            shard: self.dealer().shard_at(x),
        };
        let id_public_key = ed25519_public_key(self.secret_key());
        KeyShardView {
            inner,
            identity: IdentityView {
                id_public_key,
                id_signature: ed25519_signature(
                    self.secret_key(),
                    signable(key_shard_builder_wire(inner), id_public_key),
                ),
            },
        }
    }

    /// A new key shard of the backup, at a random x other than zero.
    pub fn next_shard(&self) -> (res: Result<KeyShard, Error>)
        requires
            self.wf(),
        ensures
            res matches Ok(shard) && shard@.inner.shard.x != 0 && shard@ == self.key_shard_at(
                shard@.inner.shard.x,
            ) && shard@.wf(),
    {
        let shard = self.dealer.next_shard();
        // Extend new shard.
        Ok(
            KeyShardBuilder {
                version: self.main_document.inner.meta.version,
                doc_chksum: self.main_document.checksum(),
                shard,
            }.sign(self.id_keypair.as_slice()),
        )
    }
}

} // verus!
