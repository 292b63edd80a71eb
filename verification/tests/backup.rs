use paperback_core::shamir::dealer::{Dealer, Error as ShamirError};
use paperback_core::shamir::gf::Error as GfError;
use paperback_core::v0::backup::Backup;
use paperback_core::v0::recover::{Inconsistency, NewShardKind, Type, UntrustedQuorum};
use paperback_core::v0::wire::text::{Base, MultibaseError};
use paperback_core::v0::wire::{FromWire, ToWire, WireError};
use paperback_core::v0::{
    checksum_bytes, EncryptedKeyShard, Error, KeyShard, KeyShardBuilder, MainDocument,
    MainDocumentBuilder, MainDocumentMeta, ShardSecret,
};
use rand::{rngs::OsRng, RngCore};

fn random_bytes(n: usize) -> Vec<u8> {
    let mut bytes = vec![0u8; n];
    OsRng.fill_bytes(&mut bytes);
    bytes
}

fn distinct_shards(backup: &Backup, n: usize) -> Vec<KeyShard> {
    let mut shards: Vec<KeyShard> = Vec::new();
    while shards.len() < n {
        let shard = backup.next_shard().unwrap();
        if shards.iter().all(|s| s.id() != shard.id()) {
            shards.push(shard);
        }
    }
    shards
}

fn through_paper(shard: &KeyShard) -> KeyShard {
    let (encrypted, codewords) = shard.encrypt().unwrap();
    let zbase32 = encrypted.to_wire_multibase(Base::Base32Z);
    let encrypted = EncryptedKeyShard::from_wire_multibase(&zbase32).unwrap();
    encrypted.decrypt(&codewords).unwrap()
}

fn main_through_paper(main: &MainDocument) -> MainDocument {
    let zbase32 = main.to_wire_multibase(Base::Base32Z);
    MainDocument::from_wire_multibase(&zbase32).unwrap()
}

fn recover(main: &MainDocument, shards: &[KeyShard]) -> Result<Vec<u8>, Error> {
    let mut quorum = UntrustedQuorum::new();
    quorum.main_document(main.clone());
    for shard in shards {
        quorum.push_shard(shard.clone());
    }
    quorum.validate().unwrap().recover_document()
}

fn roundtrip(quorum_size: u32, secret: &[u8]) {
    // Construct a backup.
    let backup = Backup::new(quorum_size, secret).unwrap();
    let main_document = main_through_paper(backup.main_document());
    let shards: Vec<KeyShard> = distinct_shards(&backup, quorum_size as usize)
        .iter()
        .map(through_paper)
        .collect();
    // Construct a quorum.
    let mut quorum = UntrustedQuorum::new();
    quorum.main_document(main_document);
    for shard in &shards {
        quorum.push_shard(shard.clone());
    }
    assert_eq!(quorum.num_untrusted_shards(), quorum_size as usize);
    assert_eq!(quorum.quorum_size(), Some(quorum_size));
    let quorum = quorum.validate().unwrap();
    assert!(quorum.has_main_document());
    // Recover the secret.
    assert_eq!(quorum.recover_document().unwrap(), secret);
}

#[test]
fn paperback_roundtrip_smoke() {
    for quorum_size in [2u32, 3, 5, 8, 17, 64] {
        roundtrip(quorum_size, &random_bytes(quorum_size as usize * 13));
    }
    roundtrip(2, &[]);
    roundtrip(1, b"a quorum of one");
}

#[test]
fn two_shards_of_deadbeef() {
    roundtrip(2, &[0xde, 0xad, 0xbe, 0xef]);
}

#[test]
fn any_three_of_five_key_shards() {
    let secret = random_bytes(1024);
    let backup = Backup::new(3, &secret).unwrap();
    let shards = distinct_shards(&backup, 5);
    for a in 0..5 {
        for b in (a + 1)..5 {
            for c in (b + 1)..5 {
                let chosen = [shards[a].clone(), shards[b].clone(), shards[c].clone()];
                assert_eq!(recover(backup.main_document(), &chosen).unwrap(), secret);
            }
        }
    }
}

fn expand(quorum_size: u32, secret: &[u8]) {
    let backup = Backup::new(quorum_size, secret).unwrap();
    let main_document = main_through_paper(backup.main_document());
    let shards = distinct_shards(&backup, quorum_size as usize);
    // Construct a quorum *without the main_document*.
    let mut quorum = UntrustedQuorum::new();
    for shard in &shards {
        quorum.push_shard(through_paper(shard));
    }
    let mut quorum = quorum.validate().unwrap();
    assert!(!quorum.has_main_document());
    // Secret recovery should fail.
    assert_eq!(
        quorum.recover_document(),
        Err(Error::MissingCapability("no main document in quorum -- cannot recover"))
    );
    // But we can expand it -- take the shards through a round-trip.
    let mut new_shards: Vec<KeyShard> = Vec::new();
    while new_shards.len() < quorum_size as usize {
        let shard = through_paper(&quorum.new_shard(NewShardKind::NewShard).unwrap());
        if shards.iter().chain(new_shards.iter()).all(|s| s.id() != shard.id()) {
            new_shards.push(shard);
        }
    }
    // Construct a new quorum with the expanded keys!
    let take_old = (quorum_size as usize) / 2;
    let take_new = (quorum_size as usize) - take_old;
    let mixed: Vec<KeyShard> = shards
        .iter()
        .take(take_old)
        .chain(new_shards.iter().take(take_new))
        .cloned()
        .collect();
    assert_eq!(recover(&main_document, &mixed).unwrap(), secret);
    assert_eq!(recover(&main_document, &new_shards).unwrap(), secret);
}

#[test]
fn paperback_expand_smoke() {
    for quorum_size in [1u32, 2, 3, 4, 7, 16] {
        expand(quorum_size, &random_bytes(1024));
    }
}

#[test]
fn key_shard_encryption_roundtrip() {
    let backup = Backup::new(2, b"codewords").unwrap();
    let shard = backup.next_shard().unwrap();
    let (enc_shard, codewords) = shard.encrypt().unwrap();
    assert_eq!(codewords.len(), 24);
    let shard2 = enc_shard.decrypt(&codewords).unwrap();
    assert_eq!(shard, shard2);
    // codewords are read in any case
    let upper: Vec<String> = codewords.iter().map(|w| w.to_uppercase()).collect();
    assert_eq!(enc_shard.decrypt(&upper).unwrap(), shard);
    assert_eq!(enc_shard.checksum_string().len(), 59);
    assert_eq!(enc_shard.checksum().digest.len(), 32);
}

#[test]
fn wrong_codewords() {
    let backup = Backup::new(2, b"codewords").unwrap();
    let (enc_shard, codewords) = backup.next_shard().unwrap().encrypt().unwrap();
    let (_, other_codewords) = backup.next_shard().unwrap().encrypt().unwrap();
    assert_eq!(enc_shard.decrypt(&other_codewords), Err(Error::AeadDecryption));
    assert_eq!(enc_shard.decrypt(&codewords[..23]), Err(Error::Bip39));
    assert_eq!(enc_shard.decrypt(&[]), Err(Error::Bip39));
    // the phrase of the key of 32 zero bytes
    let mut zero_key = vec!["abandon".to_string(); 23];
    zero_key.push("art".to_string());
    assert_eq!(enc_shard.decrypt(&zero_key), Err(Error::AeadDecryption));
    zero_key[23] = "abandon".to_string();
    assert_eq!(enc_shard.decrypt(&zero_key), Err(Error::Bip39));
    let not_words = vec!["paperback".to_string(); 24];
    assert_eq!(enc_shard.decrypt(&not_words), Err(Error::Bip39));
    // a phrase of twelve words spells a key that is too short
    let short: Vec<String> =
        "park remain person kitchen mule spell knee armed position rail grid ankle"
            .split(' ')
            .map(|w| w.to_string())
            .collect();
    assert_eq!(enc_shard.decrypt(&short), Err(Error::Bip39));
}

#[test]
fn flipped_ciphertext_of_a_key_shard() {
    let backup = Backup::new(2, b"tampering").unwrap();
    let (enc_shard, codewords) = backup.next_shard().unwrap().encrypt().unwrap();
    let mut wire = enc_shard.to_wire();
    let last = wire.len() - 20;
    wire[last] ^= 0x01;
    let tampered = EncryptedKeyShard::from_wire(&wire).unwrap();
    assert_eq!(tampered.decrypt(&codewords), Err(Error::AeadDecryption));
}

#[test]
fn paperback_recreate_shards() {
    for quorum_size in [1usize, 2, 4, 9] {
        let secret = random_bytes(16);
        let backup = Backup::new(quorum_size as u32, &secret).unwrap();
        let shards: Vec<KeyShard> =
            distinct_shards(&backup, quorum_size + 8).iter().map(through_paper).collect();
        // Construct a quorum *without the main_document*.
        let mut quorum = UntrustedQuorum::new();
        for shard in &shards[..quorum_size] {
            quorum.push_shard(shard.clone());
        }
        let mut quorum = quorum.validate().unwrap();
        // Secret recovery should fail.
        let _ = quorum.recover_document().unwrap_err();
        // However we should be able to recover all of the shards correctly.
        for s in &shards {
            assert_eq!(*s, quorum.new_shard(NewShardKind::ExistingShard(s.id())).unwrap());
        }
        // Make a second quorum, of other shards, and make sure we can
        // consistently recover a never-before-seen shard with an arbitrary
        // id.
        let mut quorum2 = UntrustedQuorum::new();
        for shard in &shards[8..] {
            quorum2.push_shard(shard.clone());
        }
        let mut quorum2 = quorum2.validate().unwrap();
        let new_shard_id = "hayyayyy";
        let new_shard =
            quorum.new_shard(NewShardKind::ExistingShard(new_shard_id.to_string())).unwrap();
        let new_shard2 =
            quorum2.new_shard(NewShardKind::ExistingShard(new_shard_id.to_string())).unwrap();
        assert_eq!(new_shard, new_shard2);
        assert_eq!(new_shard.to_wire(), new_shard2.to_wire());
        assert_eq!(new_shard.id(), new_shard_id);
        assert_eq!(new_shard2.id(), new_shard_id);
        assert_eq!(new_shard.document_id(), backup.main_document().id());
    }
}

#[test]
fn ten_shards_and_a_recreated_one() {
    let backup = Backup::new(4, b"recreation").unwrap();
    let shards = distinct_shards(&backup, 10);
    let mut replies = Vec::new();
    for subset in [&shards[..4], &shards[5..9]] {
        let mut quorum = UntrustedQuorum::new();
        for shard in subset {
            quorum.push_shard(shard.clone());
        }
        let mut quorum = quorum.validate().unwrap();
        replies.push(quorum.new_shard(NewShardKind::ExistingShard("hayyayyy".to_string())).unwrap());
    }
    assert_eq!(replies[0].to_wire(), replies[1].to_wire());
    assert_eq!(replies[0].id(), "hayyayyy");
    assert_eq!(replies[1].id(), "hayyayyy");
}

#[test]
fn shard_ids_that_name_no_shard() {
    let backup = Backup::new(2, b"recreation").unwrap();
    let mut quorum = UntrustedQuorum::new();
    for shard in distinct_shards(&backup, 2) {
        quorum.push_shard(shard);
    }
    let mut quorum = quorum.validate().unwrap();
    assert_eq!(
        quorum.new_shard(NewShardKind::ExistingShard("hyyyyyyy".to_string())),
        Err(Error::InvariantViolation("requested shard id has x value of 0 -- refusing to create"))
    );
    assert_eq!(
        quorum.new_shard(NewShardKind::ExistingShard("".to_string())),
        Err(Error::ShardIdDecode(MultibaseError::InvalidBaseString))
    );
    assert_eq!(
        quorum.new_shard(NewShardKind::ExistingShard("#yyyyyyy".to_string())),
        Err(Error::ShardIdDecode(MultibaseError::UnknownBase('#')))
    );
}

#[test]
fn sealed_backup() {
    let secret = b"hello paperback";
    let backup = Backup::new_sealed(5, secret).unwrap();
    let shards = distinct_shards(&backup, 5);
    assert_eq!(recover(backup.main_document(), &shards).unwrap(), secret);
    let mut quorum = UntrustedQuorum::new();
    for shard in &shards {
        quorum.push_shard(shard.clone());
    }
    let mut quorum = quorum.validate().unwrap();
    assert_eq!(
        quorum.new_shard(NewShardKind::NewShard),
        Err(Error::MissingCapability("document is sealed -- no new key shards allowed"))
    );
    assert_eq!(
        quorum.new_shard(NewShardKind::ExistingShard(shards[0].id())),
        Err(Error::MissingCapability("document is sealed -- no new key shards allowed"))
    );
}

#[test]
fn backup_without_a_quorum() {
    assert_eq!(
        Backup::new(0, b"nobody").err(),
        Some(Error::InvariantViolation("quorum size must not be zero"))
    );
    assert_eq!(
        Backup::new_sealed(0, b"nobody").err(),
        Some(Error::InvariantViolation("quorum size must not be zero"))
    );
}

fn flip(shard: &KeyShard, at: usize) -> KeyShard {
    let mut wire = shard.to_wire();
    wire[at] ^= 0x01;
    KeyShard::from_wire(&wire).unwrap()
}

#[test]
fn forged_key_shard() {
    let secret = b"forgery";
    let backup = Backup::new(2, secret).unwrap();
    let shards = distinct_shards(&backup, 3);
    // a bit of the y value, and a bit of the signature
    let n = shards[1].to_wire().len();
    for at in [38usize, n - 1] {
        let forged = flip(&shards[1], at);
        match Type::from(forged.clone()) {
            Type::ForgedKeyShard(_) => {}
            other => panic!("not forged: {:?}", other),
        }
        let mut quorum = UntrustedQuorum::new();
        quorum.main_document(backup.main_document().clone());
        quorum.push_shard(shards[0].clone());
        quorum.push_shard(forged);
        let error = quorum.validate().unwrap_err();
        if at == 38 {
            // what is signed is all that the documents agree on
            assert_eq!(error.kind, Inconsistency::Forged);
            assert_eq!(error.as_groups().0.len(), 1);
            assert_eq!(error.as_groups().0[0].len(), 3);
            assert!(matches!(error.as_groups().0[0][0], Type::MainDocument(_)));
            assert!(matches!(error.as_groups().0[0][1], Type::KeyShard(_)));
            assert!(matches!(error.as_groups().0[0][2], Type::ForgedKeyShard(_)));
        }
    }
    // after removing it and supplying a spare, recovery succeeds
    assert_eq!(
        recover(backup.main_document(), &[shards[0].clone(), shards[2].clone()]).unwrap(),
        secret
    );
}

#[test]
fn forged_main_document() {
    let backup = Backup::new(2, b"forgery").unwrap();
    let shards = distinct_shards(&backup, 2);
    let mut wire = backup.main_document().to_wire();
    // a bit of the ciphertext
    wire[30] ^= 0x80;
    let forged = MainDocument::from_wire(&wire).unwrap();
    assert!(matches!(Type::from(forged.clone()), Type::ForgedMainDocument(_)));
    assert!(matches!(Type::from(backup.main_document().clone()), Type::MainDocument(_)));
    let mut quorum = UntrustedQuorum::new();
    quorum.main_document(forged);
    for shard in &shards {
        quorum.push_shard(shard.clone());
    }
    // the checksum of the forged document is not the one of the shards
    let error = quorum.validate().unwrap_err();
    assert_eq!(error.kind, Inconsistency::Groups);
    assert_eq!(error.as_groups().0.len(), 2);
    assert!(matches!(error.as_groups().0[0][0], Type::ForgedMainDocument(_)));
}

#[test]
fn shards_of_two_backups() {
    let a = Backup::new(3, b"backup a").unwrap();
    let b = Backup::new(3, b"backup b").unwrap();
    let mut quorum = UntrustedQuorum::new();
    quorum.main_document(a.main_document().clone());
    for shard in distinct_shards(&b, 3) {
        quorum.push_shard(shard);
    }
    let error = quorum.validate().unwrap_err();
    assert_eq!(error.kind, Inconsistency::Groups);
    let groups = &error.as_groups().0;
    assert_eq!(groups.len(), 2);
    assert_eq!(groups[0].len(), 1);
    assert_eq!(groups[1].len(), 3);
    assert!(groups[0][0].main_document().is_some());
    assert!(groups[1].iter().all(|t| t.key_shard().is_some()));

    let mut quorum = UntrustedQuorum::new();
    let from_a = distinct_shards(&a, 2);
    let from_b = distinct_shards(&b, 1);
    quorum.push_shard(from_a[0].clone());
    quorum.push_shard(from_b[0].clone());
    quorum.push_shard(from_a[1].clone());
    let error = quorum.validate().unwrap_err();
    assert_eq!(error.kind, Inconsistency::Groups);
    assert_eq!(error.as_groups().0.len(), 2);
    assert_eq!(error.as_groups().0[0].len(), 2);
    assert_eq!(error.as_groups().0[1].len(), 1);
}

#[test]
fn quorum_of_nothing() {
    let error = UntrustedQuorum::new().validate().unwrap_err();
    assert_eq!(error.kind, Inconsistency::Groups);
    assert!(error.as_groups().0.is_empty());
}

#[test]
fn wrong_number_of_key_shards() {
    let backup = Backup::new(3, b"exactly three").unwrap();
    let shards = distinct_shards(&backup, 4);
    for n in [0usize, 2, 4] {
        let mut quorum = UntrustedQuorum::new();
        quorum.main_document(backup.main_document().clone());
        for shard in &shards[..n] {
            quorum.push_shard(shard.clone());
        }
        let error = quorum.validate().unwrap_err();
        assert_eq!(error.kind, Inconsistency::QuorumSize { needed: 3, found: n });
    }
    // without the main document the number of key shards is not checked
    // before they are put to use
    let mut quorum = UntrustedQuorum::new();
    for shard in &shards[..2] {
        quorum.push_shard(shard.clone());
    }
    let mut quorum = quorum.validate().unwrap();
    assert_eq!(
        quorum.new_shard(NewShardKind::NewShard),
        Err(Error::Shamir(ShamirError::LagrangeError(GfError::NumPointsMismatch {
            needed: 3,
            num_points: 2
        })))
    );
}

#[test]
fn same_key_shard_twice() {
    let backup = Backup::new(2, b"twice").unwrap();
    let shards = distinct_shards(&backup, 2);
    let mut quorum = UntrustedQuorum::new();
    quorum.push_shard(shards[0].clone());
    quorum.push_shard(shards[0].clone());
    assert_eq!(quorum.num_untrusted_shards(), 1);
    quorum.push_shard(shards[1].clone());
    quorum.push_shard(shards[0].clone());
    assert_eq!(quorum.num_untrusted_shards(), 2);
    assert_eq!(quorum.untrusted_shards().len(), 2);
    quorum.main_document(backup.main_document().clone());
    assert_eq!(quorum.validate().unwrap().recover_document().unwrap(), b"twice");
}

#[test]
fn quorum_size_of_a_document_that_is_gone() {
    let first = Backup::new(3, b"first").unwrap();
    let second = Backup::new(2, b"second").unwrap();
    let mut quorum = UntrustedQuorum::new();
    quorum.main_document(first.main_document().clone());
    quorum.main_document(second.main_document().clone());
    assert_eq!(quorum.quorum_size(), Some(3));
    for shard in distinct_shards(&second, 2) {
        quorum.push_shard(shard);
    }
    assert_eq!(quorum.validate().unwrap_err().kind, Inconsistency::Identity);
}

#[test]
fn identifiers_of_documents() {
    let backup = Backup::new(2, b"identifiers").unwrap();
    let main = backup.main_document();
    let shard = backup.next_shard().unwrap();
    assert_eq!(main.id().len(), MainDocument::ID_LENGTH);
    assert_eq!(shard.id().len(), KeyShard::ID_LENGTH);
    assert_eq!(shard.document_id(), main.id());
    assert!(main.checksum_string().ends_with(&main.id()));
    assert!(main.checksum_string().starts_with('h'));
    assert_eq!(shard.document_checksum(), main.checksum());
    assert_eq!(main.checksum().code, 0xb220);
    let other = Backup::new(2, b"identifiers").unwrap();
    assert!(other.main_document().checksum() != main.checksum());
}

#[test]
fn checksum_of_known_bytes() {
    let hash = checksum_bytes(b"");
    assert_eq!(hash.code, 0xb220);
    assert_eq!(
        hash.digest,
        vec![
            0x0e, 0x57, 0x51, 0xc0, 0x26, 0xe5, 0x43, 0xb2, 0xe8, 0xab, 0x2e, 0xb0, 0x60, 0x99,
            0xda, 0xa1, 0xd1, 0xe5, 0xdf, 0x47, 0x77, 0x8f, 0x77, 0x87, 0xfa, 0xab, 0x45, 0xcd,
            0xf1, 0x2f, 0xe3, 0xa8
        ]
    );
    assert!(checksum_bytes(b"paperback") != hash);
}

// A backup that is put together by hand: the shards share `shared`, and
// everything is signed with `signing_key`.
fn assemble(shared: &[u8], signing_key: &[u8]) -> (MainDocument, Vec<KeyShard>) {
    let main = MainDocumentBuilder {
        meta: MainDocumentMeta { version: 0, quorum_size: 2 },
        nonce: random_bytes(12),
        ciphertext: random_bytes(48),
    }
    .sign(signing_key);
    let dealer = Dealer::new(2, shared);
    let mut shards: Vec<KeyShard> = Vec::new();
    while shards.len() < 2 {
        let shard = dealer.next_shard();
        if shards.iter().all(|s| s.id() != shard.id()) {
            shards.push(
                KeyShardBuilder { version: 0, doc_chksum: main.checksum(), shard }
                    .sign(signing_key),
            );
        }
    }
    (main, shards)
}

fn quorum_of(main: &MainDocument, shards: &[KeyShard]) -> paperback_core::v0::Quorum {
    let mut quorum = UntrustedQuorum::new();
    quorum.main_document(main.clone());
    for shard in shards {
        quorum.push_shard(shard.clone());
    }
    quorum.validate().unwrap()
}

#[test]
fn secret_key_of_another_public_key() {
    let shared = ShardSecret { doc_key: random_bytes(32), id_keypair: Some(random_bytes(32)) };
    let (main, shards) = assemble(&shared.to_wire(), &random_bytes(32));
    let mut quorum = quorum_of(&main, &shards);
    assert_eq!(
        quorum.recover_document(),
        Err(Error::InvariantViolation("private key doesn't match quorum public key"))
    );
    assert_eq!(
        quorum.new_shard(NewShardKind::NewShard),
        Err(Error::InvariantViolation("id_secret_key doesn't match expected id_public_key"))
    );
}

#[test]
fn shards_that_share_no_shard_secret() {
    let (main, shards) = assemble(b"this is no shard secret", &random_bytes(32));
    let mut quorum = quorum_of(&main, &shards);
    assert_eq!(
        quorum.recover_document(),
        Err(Error::ShardSecretDecode(WireError::UnexpectedTag))
    );
    assert_eq!(
        quorum.new_shard(NewShardKind::NewShard),
        Err(Error::ShardSecretDecode(WireError::UnexpectedTag))
    );
}

#[test]
fn main_document_under_another_key() {
    let key = random_bytes(32);
    let shared = ShardSecret { doc_key: random_bytes(32), id_keypair: Some(key.clone()) };
    let (main, shards) = assemble(&shared.to_wire(), &key);
    let mut quorum = quorum_of(&main, &shards);
    // the ciphertext is random bytes
    assert_eq!(quorum.recover_document(), Err(Error::AeadDecryption));
    // but the quorum mints key shards
    let minted = quorum.new_shard(NewShardKind::NewShard).unwrap();
    assert_eq!(minted.document_checksum(), main.checksum());
    assert!(matches!(Type::from(minted), Type::KeyShard(_)));
}

#[test]
fn key_shard_of_another_version() {
    let shard = Dealer::new(1, b"version").next_shard();
    let signed = KeyShardBuilder { version: 1, doc_chksum: checksum_bytes(b"main"), shard }
        .sign(&random_bytes(32));
    let (encrypted, codewords) = signed.encrypt().unwrap();
    assert_eq!(
        encrypted.decrypt(&codewords),
        Err(Error::KeyShardDecode(WireError::UnsupportedVersion))
    );
}

#[test]
fn key_shards_of_secrets_of_two_lengths() {
    let key = random_bytes(32);
    let main = MainDocumentBuilder {
        meta: MainDocumentMeta { version: 0, quorum_size: 2 },
        nonce: random_bytes(12),
        ciphertext: random_bytes(48),
    }
    .sign(&key);
    let short = Dealer::new(2, b"four").next_shard();
    let long = Dealer::new(2, b"eight is more").next_shard();
    let shards: Vec<KeyShard> = [short, long]
        .into_iter()
        .map(|shard| {
            KeyShardBuilder { version: 0, doc_chksum: main.checksum(), shard }.sign(&key)
        })
        .collect();
    for with_main in [true, false] {
        let mut quorum = UntrustedQuorum::new();
        if with_main {
            quorum.main_document(main.clone());
        }
        for shard in &shards {
            quorum.push_shard(shard.clone());
        }
        let error = quorum.validate().unwrap_err();
        assert_eq!(error.kind, Inconsistency::Identity);
        assert_eq!(error.as_groups().0.len(), 1);
    }
}

#[test]
fn backup_from_given_keys() {
    let secret = b"nothing is drawn but the polynomials";
    let (keypair, key, nonce) = (random_bytes(32), random_bytes(32), random_bytes(12));
    let first = Backup::assemble(3, secret, false, &keypair, &key, &nonce).unwrap();
    let second = Backup::assemble(3, secret, false, &keypair, &key, &nonce).unwrap();
    assert_eq!(first.main_document(), second.main_document());
    assert_eq!(first.main_document().to_wire(), second.main_document().to_wire());
    let sealed = Backup::assemble(3, secret, true, &keypair, &key, &nonce).unwrap();
    assert_eq!(first.main_document(), sealed.main_document());
    let other = Backup::assemble(3, secret, false, &keypair, &key, &random_bytes(12)).unwrap();
    assert!(first.main_document() != other.main_document());
    // the shards of the one open the main document of the other
    let shards = distinct_shards(&second, 3);
    assert_eq!(recover(first.main_document(), &shards).unwrap(), secret);
    assert_eq!(
        Backup::assemble(0, secret, false, &keypair, &key, &nonce).err(),
        Some(Error::InvariantViolation("quorum size must not be zero"))
    );
}

#[test]
fn key_shard_under_a_given_key() {
    let backup = Backup::new(2, b"codewords").unwrap();
    let shard = backup.next_shard().unwrap();
    let nonce = random_bytes(12);
    let (encrypted, codewords) = shard.encrypt_with(&[0; 32], &nonce).unwrap();
    let mut zero_key = vec!["abandon".to_string(); 23];
    zero_key.push("art".to_string());
    assert_eq!(codewords, zero_key);
    assert_eq!(encrypted.decrypt(&codewords), Ok(shard.clone()));
    let (again, _) = shard.encrypt_with(&[0; 32], &nonce).unwrap();
    assert_eq!(encrypted, again);
    let (other, other_words) = shard.encrypt_with(&[1; 32], &nonce).unwrap();
    assert!(other != encrypted);
    assert!(other_words != codewords);
    assert_eq!(other.decrypt(&other_words), Ok(shard));
}
