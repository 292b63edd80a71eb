use paperback_core::crypto::{CHACHAPOLY_KEY_LENGTH, CHACHAPOLY_NONCE_LENGTH};
use paperback_core::shamir::gf::GfElem;
use paperback_core::shamir::shard::Shard;
use paperback_core::v0::backup::Backup;
use paperback_core::v0::wire::helpers::Multihash;
use paperback_core::v0::wire::text::{multibase_strip, Base, MultibaseError};
use paperback_core::v0::wire::varint::{decode_usize, encode_usize};
use paperback_core::v0::wire::{FromWire, TextError, ToWire, WireError};
use paperback_core::v0::{
    EncryptedKeyShard, Identity, KeyShard, KeyShardBuilder, MainDocument, MainDocumentBuilder,
    MainDocumentMeta, ShardSecret,
};
use rand::{rngs::OsRng, RngCore};

fn random_bytes(n: usize) -> Vec<u8> {
    let mut bytes = vec![0u8; n];
    OsRng.fill_bytes(&mut bytes);
    bytes
}

fn random_shard(ys: usize) -> Shard {
    Shard {
        x: GfElem(OsRng.next_u32() | 1),
        ys: (0..ys).map(|_| GfElem(OsRng.next_u32())).collect(),
        secret_len: OsRng.next_u64() as usize,
        threshold: OsRng.next_u32(),
    }
}

fn some_backup() -> Backup {
    Backup::new(3, b"the wire form of everything").unwrap()
}

#[test]
fn check_length_consts() {
    // GenericArray doesn't give us a way to get the size, so we need to do
    // this in a test...
    assert_eq!(CHACHAPOLY_KEY_LENGTH, chacha20poly1305::Key::default().len());
    assert_eq!(CHACHAPOLY_NONCE_LENGTH, chacha20poly1305::Nonce::default().len());
}

#[test]
fn varint_of_lengths() {
    assert_eq!(encode_usize(0), vec![0]);
    assert_eq!(encode_usize(1), vec![1]);
    assert_eq!(encode_usize(127), vec![0x7f]);
    assert_eq!(encode_usize(128), vec![0x80, 0x01]);
    assert_eq!(encode_usize(300), vec![0xac, 0x02]);
    assert_eq!(encode_usize(16384), vec![0x80, 0x80, 0x01]);
    for n in [0usize, 1, 127, 128, 255, 300, 16383, 16384, 0xffff_ffff, usize::MAX] {
        let mut bytes = encode_usize(n);
        bytes.push(0xaa);
        let (m, rest) = decode_usize(&bytes).unwrap();
        assert_eq!(m, n);
        assert_eq!(rest, &[0xaa]);
    }
}

#[test]
fn varints_that_are_none() {
    assert_eq!(decode_usize(&[]), Err(WireError::Insufficient));
    assert_eq!(decode_usize(&[0x80]), Err(WireError::Insufficient));
    assert_eq!(decode_usize(&[0x80, 0x00]), Err(WireError::NotMinimal));
    assert_eq!(decode_usize(&[0xff; 10]), Err(WireError::Overflow));
    assert_eq!(decode_usize(&[0xff; 9]), Err(WireError::Insufficient));
}

#[test]
fn varints_with_bits_beyond_their_type() {
    // what the last byte holds beyond 64 bits is dropped
    let mut bytes = vec![0xff; 9];
    bytes.push(0x7f);
    assert_eq!(decode_usize(&bytes), Ok((usize::MAX, &[][..])));
    // and beyond 32 bits
    let shard = Shard::from_wire(&[0xff, 0xff, 0xff, 0xff, 0x7f, 0, 1, 0]).unwrap();
    assert_eq!(shard.x, GfElem(0xffff_ffff));
    let shard = Shard::from_wire(&[0x81, 0x80, 0x80, 0x80, 0x10, 0, 1, 0]).unwrap();
    assert_eq!(shard.x, GfElem(1));
    assert_eq!(Shard::from_wire(&[0x80, 0x80, 0x80, 0x80, 0x10, 0, 1, 0]), Err(WireError::ZeroShardX));
    assert_eq!(
        Shard::from_wire(&[0x81, 0x80, 0x80, 0x80, 0x80, 0, 1, 0]),
        Err(WireError::Overflow)
    );
}

#[test]
fn shard_bytes_roundtrip() {
    for ys in [0usize, 1, 2, 17, 256] {
        let shard = random_shard(ys);
        let shard2 = Shard::from_wire(&shard.to_wire()).unwrap();
        assert_eq!(shard, shard2);
    }
}

#[test]
fn shard_wire_form() {
    let shard = Shard {
        x: GfElem(1),
        ys: vec![GfElem(2), GfElem(300)],
        secret_len: 8,
        threshold: 128,
    };
    assert_eq!(shard.to_wire(), vec![1, 2, 2, 0xac, 0x02, 0x80, 0x01, 8]);
    let (rest, parsed) = Shard::from_wire_partial(&[1, 2, 2, 0xac, 0x02, 0x80, 0x01, 8, 9, 9])
        .unwrap();
    assert_eq!(parsed, shard);
    assert_eq!(rest, &[9, 9]);
}

#[test]
fn shards_that_are_none() {
    assert_eq!(Shard::from_wire(&[0, 0, 1, 0]), Err(WireError::ZeroShardX));
    assert_eq!(Shard::from_wire(&[1, 0, 1, 0, 0]), Err(WireError::TrailingBytes));
    assert_eq!(Shard::from_wire(&[1, 2, 1]), Err(WireError::Insufficient));
    assert_eq!(Shard::from_wire(&[1, 0, 1]), Err(WireError::Insufficient));
    assert_eq!(
        Shard::from_wire(&[0xff, 0xff, 0xff, 0xff, 0xff, 0x01]),
        Err(WireError::Overflow)
    );
    assert_eq!(Shard::from_wire(&[1, 1, 0x81, 0x00, 1, 0]), Err(WireError::NotMinimal));
}

#[test]
fn identity_roundtrip() {
    let backup = some_backup();
    let main = backup.main_document().clone();
    let wire = main.to_wire();
    let identity_wire = &wire[wire.len() - (2 + 32 + 2 + 64)..];
    let identity = Identity::from_wire(identity_wire).unwrap();
    assert_eq!(identity.to_wire(), identity_wire);
    assert_eq!(&identity_wire[..2], &[0xed, 0x01]);
    assert_eq!(&identity_wire[34..36], &[0xef, 0x01]);
    let identity2 = Identity::from_wire(&identity.to_wire()).unwrap();
    assert_eq!(identity, identity2);
}

#[test]
fn identities_that_are_none() {
    let backup = some_backup();
    let wire = backup.main_document().to_wire();
    let identity_wire = wire[wire.len() - 100..].to_vec();
    let mut other_tag = identity_wire.clone();
    other_tag[0] = 0xee;
    assert_eq!(Identity::from_wire(&other_tag), Err(WireError::UnexpectedTag));
    let mut other_tag = identity_wire.clone();
    other_tag[34] = 0xee;
    assert_eq!(Identity::from_wire(&other_tag), Err(WireError::UnexpectedTag));
    assert_eq!(Identity::from_wire(&identity_wire[..99]), Err(WireError::Insufficient));
    // y = 2 is not the y of a point of the curve
    let mut no_point = identity_wire.clone();
    for b in no_point[2..34].iter_mut() {
        *b = 0;
    }
    no_point[2] = 2;
    assert_eq!(Identity::from_wire(&no_point), Err(WireError::InvalidPublicKey));
}

#[test]
fn shard_secret_roundtrip() {
    for sealed in [false, true] {
        let secret = ShardSecret {
            doc_key: random_bytes(32),
            id_keypair: if sealed { None } else { Some(random_bytes(32)) },
        };
        let wire = secret.to_wire();
        assert_eq!(wire.len(), 7 + 32 + 8 + 32);
        let secret2 = ShardSecret::from_wire(&wire).unwrap();
        assert_eq!(secret, secret2);
    }
}

#[test]
fn shard_secret_wire_form() {
    let secret = ShardSecret { doc_key: vec![7; 32], id_keypair: None };
    let wire = secret.to_wire();
    // 0xffcaca201305 and 0xffed255190000 as varints
    assert_eq!(&wire[..7], &[0x85, 0xa6, 0x80, 0xd1, 0xac, 0xf9, 0x3f]);
    assert_eq!(&wire[7..39], &[7; 32]);
    assert_eq!(&wire[39..47], &[0x80, 0x80, 0xe4, 0xa8, 0xa5, 0xda, 0xff, 0x07]);
    assert_eq!(&wire[47..], &[0; 32]);
    let unsealed = ShardSecret { doc_key: vec![7; 32], id_keypair: Some(vec![9; 32]) };
    let wire = unsealed.to_wire();
    // 0xffed25519536b as a varint
    assert_eq!(&wire[39..47], &[0xeb, 0xa6, 0xe5, 0xa8, 0xa5, 0xda, 0xff, 0x07]);
    assert_eq!(&wire[47..], &[9; 32]);
}

#[test]
fn shard_secrets_that_are_none() {
    let sealed = ShardSecret { doc_key: vec![7; 32], id_keypair: None }.to_wire();
    let mut not_zero = sealed.clone();
    not_zero[50] = 1;
    assert_eq!(ShardSecret::from_wire(&not_zero), Err(WireError::SealedKeyNotZero));
    let mut other_tag = sealed.clone();
    other_tag[39] = 0x81;
    assert_eq!(ShardSecret::from_wire(&other_tag), Err(WireError::UnexpectedTag));
    let mut other_key_tag = sealed.clone();
    other_key_tag[0] = 0x86;
    assert_eq!(ShardSecret::from_wire(&other_key_tag), Err(WireError::UnexpectedTag));
    assert_eq!(ShardSecret::from_wire(&sealed[..70]), Err(WireError::Insufficient));
    let mut longer = sealed.clone();
    longer.push(0);
    assert_eq!(ShardSecret::from_wire(&longer), Err(WireError::TrailingBytes));
}

#[test]
fn multihash_roundtrip() {
    let hash = Multihash { code: 0xb220, digest: random_bytes(32) };
    let bytes = hash.to_bytes();
    assert_eq!(&bytes[..4], &[0xa0, 0xe4, 0x02, 0x20]);
    assert_eq!(bytes.len(), 36);
    assert_eq!(Multihash::from_wire(&bytes), Ok(hash.clone()));
    assert!(hash.same(&hash.clone()));
    assert!(!hash.same(&Multihash { code: 0xb221, digest: hash.digest.clone() }));
    assert_eq!(Multihash::from_wire(&bytes[..35]), Err(WireError::Insufficient));
    let mut long = vec![0x12, 65];
    long.extend_from_slice(&[0; 65]);
    assert_eq!(Multihash::from_wire(&long), Err(WireError::InvalidMultihash));
}

#[test]
fn key_shard_builder_roundtrip() {
    let inner = KeyShardBuilder {
        version: 0,
        doc_chksum: Multihash { code: 0xb220, digest: random_bytes(32) },
        shard: random_shard(9),
    };
    let inner2 = KeyShardBuilder::from_wire(&inner.to_wire()).unwrap();
    assert_eq!(inner, inner2);
}

#[test]
fn key_shard_roundtrip() {
    let backup = some_backup();
    let shard = backup.next_shard().unwrap();
    let shard2 = KeyShard::from_wire(&shard.to_wire()).unwrap();
    assert_eq!(shard, shard2);
    assert_eq!(shard.quorum_size(), 3);
}

#[test]
fn key_shards_that_are_none() {
    let signed = KeyShardBuilder {
        version: 1,
        doc_chksum: Multihash { code: 0xb220, digest: random_bytes(32) },
        shard: random_shard(2),
    }
    .sign(&random_bytes(32));
    assert_eq!(KeyShard::from_wire(&signed.to_wire()), Err(WireError::UnsupportedVersion));
    let signed = KeyShardBuilder {
        version: 0,
        doc_chksum: Multihash { code: 0x12, digest: random_bytes(32) },
        shard: random_shard(2),
    }
    .sign(&random_bytes(32));
    assert_eq!(KeyShard::from_wire(&signed.to_wire()), Err(WireError::UnsupportedChecksum));
}

#[test]
fn encrypted_key_shard_roundtrip() {
    let backup = some_backup();
    let (shard, _codewords) = backup.next_shard().unwrap().encrypt().unwrap();
    let wire = shard.to_wire();
    // 0xfecaca201305 and 0xfccaca201305 as varints
    assert_eq!(&wire[..7], &[0x85, 0xa6, 0x80, 0xd1, 0xac, 0xd9, 0x3f]);
    assert_eq!(&wire[19..26], &[0x85, 0xa6, 0x80, 0xd1, 0xac, 0x99, 0x3f]);
    let shard2 = EncryptedKeyShard::from_wire(&wire).unwrap();
    assert_eq!(shard, shard2);
    assert_eq!(
        EncryptedKeyShard::from_wire(&wire[..wire.len() - 1]),
        Err(WireError::Insufficient)
    );
}

#[test]
fn main_document_roundtrip() {
    let backup = some_backup();
    let main = backup.main_document().clone();
    let wire = main.to_wire();
    let main2 = MainDocument::from_wire(&wire).unwrap();
    assert_eq!(main, main2);
    assert_eq!(main.version(), 0);
    assert_eq!(main.quorum_size(), 3);
    let inner_wire = &wire[..wire.len() - 100];
    let inner = MainDocumentBuilder::from_wire(inner_wire).unwrap();
    assert_eq!(inner.to_wire(), inner_wire);
    assert_eq!(inner.meta, MainDocumentMeta { version: 0, quorum_size: 3 });
    let meta = MainDocumentMeta::from_wire(&inner.meta.to_wire()).unwrap();
    assert_eq!(meta, inner.meta);
    assert_eq!(inner.meta.to_wire(), vec![0, 3]);
    assert_eq!(inner.meta.aad(&[1, 2]), vec![0, 3, b'k', 1, 2]);
}

#[test]
fn main_documents_of_another_version() {
    let signed = MainDocumentBuilder {
        meta: MainDocumentMeta { version: 7, quorum_size: 2 },
        nonce: random_bytes(12),
        ciphertext: random_bytes(40),
    }
    .sign(&random_bytes(32));
    assert_eq!(MainDocument::from_wire(&signed.to_wire()), Err(WireError::UnsupportedVersion));
}

#[test]
fn multibase_roundtrip() {
    let backup = some_backup();
    let main = backup.main_document().clone();
    for base in [Base::Base10, Base::Base16Lower, Base::Base32Z, Base::Base58Btc, Base::Base64] {
        let text = main.to_wire_multibase(base);
        assert_eq!(MainDocument::from_wire_multibase(&text), Ok(main.clone()));
    }
    assert_eq!(
        MainDocument::from_wire_multibase(""),
        Err(TextError::Multibase(MultibaseError::InvalidBaseString))
    );
    assert_eq!(
        MainDocument::from_wire_multibase("?abc"),
        Err(TextError::Multibase(MultibaseError::UnknownBase('?')))
    );
    assert_eq!(
        MainDocument::from_wire_multibase("f00"),
        Err(TextError::Wire(WireError::Insufficient))
    );
    let shard = Shard { x: GfElem(1), ys: vec![], secret_len: 0, threshold: 1 };
    assert_eq!(shard.to_wire_multibase(Base::Base16Lower), "f01000100");
    assert_eq!(Shard::from_wire_multibase("f01000100"), Ok(shard));
}

#[test]
fn stripping_multibase_text() {
    assert_eq!(multibase_strip("hab-cd ef\tgh\nij"), Ok("habcdefghij".to_string()));
    assert_eq!(multibase_strip("uab-cd ef\tgh\nij"), Ok("uab-cdefghij".to_string()));
    assert_eq!(multibase_strip("Uab-cd"), Ok("Uab-cd".to_string()));
    assert_eq!(multibase_strip("R a-b"), Ok("Rab".to_string()));
    assert_eq!(multibase_strip("\u{0}a b"), Ok("\u{0}ab".to_string()));
    assert_eq!(multibase_strip("\u{1F680} -"), Ok("\u{1F680}".to_string()));
    for code in "079fFbBcCvVtThkKRZzmM".chars() {
        assert_eq!(multibase_strip(&format!("{}-", code)), Ok(code.to_string()));
    }
    for code in "1Aaeg#\u{1F681}".chars() {
        assert_eq!(multibase_strip(&format!("{}-", code)), Err(MultibaseError::UnknownBase(code)));
    }
    assert_eq!(multibase_strip(""), Err(MultibaseError::InvalidBaseString));
    assert_eq!(multibase_strip(" habc"), Err(MultibaseError::UnknownBase(' ')));
}
