use paperback_core::shamir::dealer::{recover_secret, Dealer, Error};
use paperback_core::shamir::gf::Error as GfError;
use paperback_core::shamir::gf::GfElem;
use paperback_core::shamir::shard::{parse_id, Shard};
use paperback_core::v0::wire::text::MultibaseError;
use rand::{rngs::OsRng, RngCore};

fn distinct_shards(dealer: &Dealer, n: usize) -> Vec<Shard> {
    let mut shards: Vec<Shard> = Vec::new();
    while shards.len() < n {
        let shard = dealer.next_shard();
        if shards.iter().all(|s| s.x != shard.x) {
            shards.push(shard);
        }
    }
    shards
}

#[test]
fn two_shards_of_four_bytes() {
    let secret = [0xde, 0xad, 0xbe, 0xef];
    let dealer = Dealer::new(2, &secret);
    assert_eq!(dealer.secret(), secret);
    let shards = distinct_shards(&dealer, 2);
    for shard in &shards {
        assert_eq!(shard.threshold(), 2);
        assert_eq!(shard.secret_len, 4);
        assert_eq!(shard.ys.len(), 1);
        assert!(shard.x != GfElem(0));
    }
    assert_eq!(recover_secret(&shards).unwrap(), secret);
    assert_eq!(Dealer::recover(&shards).unwrap().secret(), secret);
}

#[test]
fn any_three_of_five_shards() {
    let mut secret = [0u8; 1024];
    OsRng.fill_bytes(&mut secret);
    let dealer = Dealer::new(3, &secret);
    let shards = distinct_shards(&dealer, 5);
    for a in 0..5 {
        for b in (a + 1)..5 {
            for c in (b + 1)..5 {
                let quorum = vec![shards[a].clone(), shards[b].clone(), shards[c].clone()];
                assert_eq!(recover_secret(&quorum).unwrap(), secret.to_vec());
            }
        }
    }
}

#[test]
fn secrets_of_all_lengths() {
    for len in 0..18 {
        let mut secret = vec![0u8; len];
        OsRng.fill_bytes(&mut secret);
        for k in 1..5u32 {
            let dealer = Dealer::new(k, &secret);
            assert_eq!(dealer.secret(), secret);
            let shards = distinct_shards(&dealer, k as usize);
            assert_eq!(shards[0].ys.len(), (len + 3) / 4);
            assert_eq!(recover_secret(&shards).unwrap(), secret);
        }
    }
}

#[test]
fn more_shards_than_needed() {
    let secret = b"more than enough";
    let dealer = Dealer::new(2, secret);
    let shards = distinct_shards(&dealer, 4);
    assert_eq!(recover_secret(&shards).unwrap(), secret.to_vec());
}

#[test]
fn recovered_dealer_deals_the_same_shards() {
    let mut secret = [0u8; 33];
    OsRng.fill_bytes(&mut secret);
    let dealer = Dealer::new(4, &secret);
    let shards = distinct_shards(&dealer, 8);
    let first = Dealer::recover(&shards[..4]).unwrap();
    let second = Dealer::recover(&shards[4..]).unwrap();
    // the shards of the quorum itself, those of the other, and new ones
    for shard in &shards {
        assert_eq!(first.shard(shard.x).unwrap(), *shard);
        assert_eq!(second.shard(shard.x).unwrap(), *shard);
    }
    for _ in 0..8 {
        let x = GfElem(OsRng.next_u32() | 1);
        let expected = dealer.shard(x).unwrap();
        assert_eq!(first.shard(x).unwrap(), expected);
        assert_eq!(second.shard(x).unwrap(), expected);
    }
    let new = first.next_shard();
    assert_eq!(dealer.shard(new.x).unwrap(), new);
    assert_eq!(first.secret(), secret.to_vec());
}

#[test]
fn no_shard_at_zero() {
    let dealer = Dealer::new(3, b"zero is the secret");
    assert_eq!(dealer.shard(GfElem(0)), None);
    let shards = distinct_shards(&dealer, 3);
    assert_eq!(Dealer::recover(&shards).unwrap().shard(GfElem(0)), None);
}

#[test]
fn too_few_shards() {
    let dealer = Dealer::new(3, b"not enough");
    let shards = distinct_shards(&dealer, 2);
    assert_eq!(
        recover_secret(&shards),
        Err(Error::LagrangeError(GfError::NumPointsMismatch { needed: 3, num_points: 2 }))
    );
    assert_eq!(
        recover_secret(&[]),
        Err(Error::LagrangeError(GfError::NumPointsMismatch { needed: 1, num_points: 0 }))
    );
}

#[test]
fn shards_that_do_not_belong_together() {
    let dealer = Dealer::new(2, b"one secret");
    let other = Dealer::new(3, b"one secret");
    let longer = Dealer::new(2, b"another secret");
    let a = dealer.next_shard();
    assert_eq!(
        recover_secret(&[a.clone(), other.next_shard()]),
        Err(Error::InconsistentShards)
    );
    assert_eq!(
        recover_secret(&[a.clone(), longer.next_shard()]),
        Err(Error::InconsistentShards)
    );
    assert_eq!(recover_secret(&[a.clone(), a.clone()]), Err(Error::InconsistentShards));
    let mut none = a.clone();
    none.threshold = 0;
    assert_eq!(recover_secret(&[none]), Err(Error::InconsistentShards));
    let mut short = a.clone();
    short.ys.pop();
    assert_eq!(recover_secret(&[short, dealer.next_shard()]), Err(Error::InconsistentShards));
}

#[test]
fn shard_with_x_zero() {
    let dealer = Dealer::new(2, b"one secret");
    let mut zero = dealer.next_shard();
    zero.x = GfElem(0);
    assert_eq!(
        recover_secret(&[dealer.next_shard(), zero]),
        Err(Error::LagrangeError(GfError::NonInvertiblePoint))
    );
}

#[test]
fn shard_identifiers() {
    let dealer = Dealer::new(2, b"identifiers");
    let shard = dealer.shard(GfElem(0x0403_0201)).unwrap();
    let id = shard.id();
    assert_eq!(id.len(), Shard::ID_LENGTH);
    assert!(id.starts_with('h'));
    assert_eq!(parse_id(&id), Ok(GfElem(0x0403_0201)));
    assert_eq!(id, "hyrbygby");
    // "h" is z-base-32, "ayyayyy" are the bytes c0 01 80 00
    assert_eq!(parse_id("hayyayyy"), Ok(GfElem(0x0080_01c0)));
    assert_eq!(dealer.shard(GfElem(0x0080_01c0)).unwrap().id(), "hayyayyy");
    assert_eq!(dealer.shard(GfElem(1)).unwrap().id(), "hyryyyyy");
    assert_eq!(parse_id("hyyyyyyy"), Ok(GfElem(0)));
    assert_eq!(parse_id(""), Err(MultibaseError::InvalidBaseString));
    assert_eq!(parse_id("!abc"), Err(MultibaseError::UnknownBase('!')));
    assert_eq!(parse_id("hl"), Err(MultibaseError::InvalidBaseString));
    assert_eq!(parse_id("hyyyyyyyyyyyyyyyy"), Err(MultibaseError::InvalidBaseString));
}
