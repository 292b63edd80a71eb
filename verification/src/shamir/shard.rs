//! A piece of a secret which has been sharded with Shamir Secret Sharing.

use crate::shamir::gf::{le_bytes, le_u32, lemma_le_bytes_value, GfElem};
use crate::shamir::polynomial::elems;
use crate::v0::wire::text::{
    decoded, multibase_data, multibase_decode, multibase_encode, multibase_text, Base,
    MultibaseError,
};
use crate::v0::wire::varint::{
    decode_u32, decode_usize, encode_u32, encode_usize, lemma_parse_u32, lemma_parse_u64,
    parse_u32, parse_usize, varint,
};
use crate::v0::wire::{extend, FromWire, ToWire, WireError};
use vstd::prelude::*;

verus! {

/// What a shard holds.
pub struct ShardView {
    pub x: u32,
    pub ys: Seq<u32>,
    pub secret_len: usize,
    pub threshold: u32,
}

/// Piece of a secret which has been sharded with Shamir Secret Sharing: the
/// value at `x` of the polynomial of each chunk of the secret.
#[derive(Debug, Eq, PartialEq)]
pub struct Shard {
    pub x: GfElem,
    pub ys: Vec<GfElem>,
    pub secret_len: usize,
    pub threshold: u32,
}

impl View for Shard {
    type V = ShardView;

    open spec fn view(&self) -> ShardView {
        ShardView {
            x: self.x.0,
            ys: elems(self.ys@),
            secret_len: self.secret_len,
            threshold: self.threshold,
        }
    }
}

impl Clone for Shard {
    fn clone(&self) -> (s: Shard)
        ensures
            s@ == self@,
    {
        let ys = self.ys.clone();
        assert(ys@ =~= self.ys@);
        Shard { x: self.x, ys, secret_len: self.secret_len, threshold: self.threshold }
    }
}

/// The identifier of the shard at `x`: the z-base-32 multibase text of the
/// four bytes of `x`.
pub open spec fn shard_id(x: u32) -> Seq<char> {
    multibase_text(Base::Base32Z.code(), le_bytes(x))
}

/// The x value that an identifier names: what its text decodes to, read as
/// up to four bytes in little-endian order.
pub open spec fn parse_id_spec(id: Seq<char>) -> Result<GfElem, MultibaseError> {
    match multibase_data(id) {
        Ok((_, data)) => if data.len() <= 4 {
            Ok(GfElem(le_u32(data) as u32))
        } else {
            Err(MultibaseError::InvalidBaseString)
        },
        Err(e) => Err(e),
    }
}

impl Shard {
    /// The number of characters of an identifier.
    pub const ID_LENGTH: usize = 8;

    /// Returns the *unique* identifier for a given `Shard`.
    ///
    /// If two shards have the same identifier, they cannot be used together
    /// for secret recovery.
    pub fn id(&self) -> (id: String)
        ensures
            id@ == shard_id(self.x.0),
    {
        let bytes = self.x.to_bytes();
        multibase_encode(Base::Base32Z, bytes.as_slice())
    }

    /// Returns the number of *unique* sister `Shard`s required to recover the
    /// stored secret.
    pub fn threshold(&self) -> (k: u32)
        ensures
            k == self.threshold,
    {
        self.threshold
    }
}

/// The x value that a shard identifier names. The identifier of a shard
/// names the x value of that shard.
pub fn parse_id(id: &str) -> (res: Result<GfElem, MultibaseError>)
    ensures
        res == parse_id_spec(id@),
        forall|x: u32| id@ == shard_id(x) ==> res == Ok::<GfElem, MultibaseError>(GfElem(x)),
{
    let res = multibase_decode(id);
    proof {
        assert forall|x: u32| id@ == shard_id(x) implies decoded(res) == Ok::<
            (char, Seq<u8>),
            MultibaseError,
        >((Base::Base32Z.code(), le_bytes(x))) by {}
        assert forall|x: u32| id@ == shard_id(x) implies parse_id_spec(id@) == Ok::<
            GfElem,
            MultibaseError,
        >(GfElem(x)) by {
            lemma_le_bytes_value(x);
        }
    }
    match res {
        Ok((_, data)) => {
            if data.len() <= 4 {
                Ok(GfElem::from_bytes(data.as_slice()))
            } else {
                Err(MultibaseError::InvalidBaseString)
            }
        },
        Err(e) => Err(e),
    }
}

/// The wire form of the y values: their varints, one after another.
pub open spec fn ys_wire(ys: Seq<u32>) -> Seq<u8>
    decreases ys.len(),
{
    if ys.len() == 0 {
        Seq::empty()
    } else {
        varint(ys[0] as nat) + ys_wire(ys.skip(1))
    }
}

/// The wire form of a shard: the varints of `x`, of the number of y values,
/// of each of them, of the threshold and of the length of the secret.
pub open spec fn shard_wire(s: ShardView) -> Seq<u8> {
    varint(s.x as nat) + varint(s.ys.len()) + ys_wire(s.ys) + varint(s.threshold as nat) + varint(
        s.secret_len as nat,
    )
}

/// What the start of `input` is read as where `n` y values stand there.
pub open spec fn parse_ys(input: Seq<u8>, n: nat) -> Result<(Seq<u32>, Seq<u8>), WireError>
    decreases n,
{
    if n == 0 {
        Ok((Seq::empty(), input))
    } else {
        match parse_u32(input) {
            Ok((y, rest)) => match parse_ys(rest, (n - 1) as nat) {
                Ok((ys, left)) => Ok((seq![y] + ys, left)),
                Err(e) => Err(e),
            },
            Err(e) => Err(e),
        }
    }
}

/// What the start of `input` is read as where a shard stands there. A shard
/// with the x value zero is refused.
pub open spec fn parse_shard(input: Seq<u8>) -> Result<(ShardView, Seq<u8>), WireError> {
    match parse_u32(input) {
        Ok((x, r1)) => match parse_usize(r1) {
            Ok((n, r2)) => match parse_ys(r2, n as nat) {
                Ok((ys, r3)) => match parse_u32(r3) {
                    Ok((threshold, r4)) => match parse_usize(r4) {
                        Ok((secret_len, r5)) => if x == 0 {
                            Err(WireError::ZeroShardX)
                        } else {
                            Ok((ShardView { x, ys, secret_len, threshold }, r5))
                        },
                        Err(e) => Err(e),
                    },
                    Err(e) => Err(e),
                },
                Err(e) => Err(e),
            },
            Err(e) => Err(e),
        },
        Err(e) => Err(e),
    }
}

/// `res` with `acc` put before the values that were read.
pub open spec fn after(acc: Seq<u32>, res: Result<(Seq<u32>, Seq<u8>), WireError>) -> Result<
    (Seq<u32>, Seq<u8>),
    WireError,
> {
    match res {
        Ok((ys, left)) => Ok((acc + ys, left)),
        Err(e) => Err(e),
    }
}

impl ToWire for Shard {
    open spec fn wire(&self) -> Seq<u8> {
        shard_wire(self@)
    }

    fn to_wire(&self) -> (bytes: Vec<u8>) {
        let mut bytes: Vec<u8> = Vec::new();
        // Encode x-value.
        extend(&mut bytes, encode_u32(self.x.inner()).as_slice());
        // Encode y-values (length-prefixed).
        extend(&mut bytes, encode_usize(self.ys.len()).as_slice());
        let ghost head = bytes@;
        let n = self.ys.len();
        proof {
            assert(self@.ys.skip(0) =~= self@.ys);
        }
        for i in 0..n
            invariant
                n == self.ys@.len(),
                head + ys_wire(self@.ys) == bytes@ + ys_wire(self@.ys.skip(i as int)),
        {
            proof {
                let tail = self@.ys.skip(i as int);
                assert(tail.skip(1) =~= self@.ys.skip(i + 1));
                assert(tail[0] == self.ys@[i as int].0);
                assert((bytes@ + varint(tail[0] as nat)) + ys_wire(tail.skip(1)) =~= bytes@ + (
                varint(tail[0] as nat) + ys_wire(tail.skip(1))));
            }
            extend(&mut bytes, encode_u32(self.ys[i].inner()).as_slice());
        }
        proof {
            assert(self@.ys.skip(n as int) =~= Seq::<u32>::empty());
            assert(bytes@ + ys_wire(Seq::<u32>::empty()) =~= bytes@);
        }
        // Encode threshold.
        extend(&mut bytes, encode_u32(self.threshold).as_slice());
        // Encode secret length.
        extend(&mut bytes, encode_usize(self.secret_len).as_slice());
        bytes
    }
}

impl FromWire for Shard {
    open spec fn parse(input: Seq<u8>) -> Result<(ShardView, Seq<u8>), WireError> {
        parse_shard(input)
    }

    #[verifier::rlimit(40)]
    fn from_wire_partial(input: &[u8]) -> (res: Result<(&[u8], Shard), WireError>) {
        let (x, r1) = match decode_u32(input) {
            Ok(v) => v,
            Err(e) => { return Err(e); },
        };
        let (n, r2) = match decode_usize(r1) {
            Ok(v) => v,
            Err(e) => { return Err(e); },
        };
        let mut ys: Vec<GfElem> = Vec::new();
        let mut cur: &[u8] = r2;
        let mut i: usize = 0;
        while i < n
            invariant
                i <= n,
                parse_ys(r2@, n as nat) == after(elems(ys@), parse_ys(cur@, (n - i) as nat)),
                parse_u32(input@) == Ok::<(u32, Seq<u8>), WireError>((x, r1@)),
                parse_usize(r1@) == Ok::<(usize, Seq<u8>), WireError>((n, r2@)),
            decreases n - i,
        {
            let (y, rest) = match decode_u32(cur) {
                Ok(v) => v,
                Err(e) => { return Err(e); },
            };
            proof {
                let acc = elems(ys@);
                assert(elems(ys@.push(GfElem(y))) =~= acc.push(y));
                match parse_ys(rest@, (n - i - 1) as nat) {
                    Ok((tail, left)) => {
                        assert(acc + (seq![y] + tail) =~= acc.push(y) + tail);
                    },
                    Err(e) => {},
                }
            }
            ys.push(GfElem::from_inner(y));
            cur = rest;
            i = i + 1;
        }
        proof {
            assert(elems(ys@) + Seq::<u32>::empty() =~= elems(ys@));
        }
        let (threshold, r4) = match decode_u32(cur) {
            Ok(v) => v,
            Err(e) => { return Err(e); },
        };
        let (secret_len, r5) = match decode_usize(r4) {
            Ok(v) => v,
            Err(e) => { return Err(e); },
        };
        if x == 0 {
            return Err(WireError::ZeroShardX);
        }
        Ok((r5, Shard { x: GfElem::from_inner(x), ys, secret_len, threshold }))
    }
}

/// The y values that were written are read again.
pub proof fn lemma_parse_ys(ys: Seq<u32>, rest: Seq<u8>)
    ensures
        parse_ys(ys_wire(ys) + rest, ys.len()) == Ok::<(Seq<u32>, Seq<u8>), WireError>((ys, rest)),
    decreases ys.len(),
{
    if ys.len() > 0 {
        let tail = ys.skip(1);
        lemma_parse_u32(ys[0], ys_wire(tail) + rest);
        assert(ys_wire(ys) + rest =~= varint(ys[0] as nat) + (ys_wire(tail) + rest));
        lemma_parse_ys(tail, rest);
        assert(seq![ys[0]] + tail =~= ys);
    } else {
        assert(ys_wire(ys) + rest =~= rest);
        assert(ys =~= Seq::<u32>::empty());
    }
}

/// A shard that was written is read again, whatever follows it.
pub proof fn lemma_shard_round_trip(s: ShardView, rest: Seq<u8>)
    requires
        s.x != 0,
        s.ys.len() <= usize::MAX,
    ensures
        parse_shard(shard_wire(s) + rest) == Ok::<(ShardView, Seq<u8>), WireError>((s, rest)),
{
    let w5 = varint(s.secret_len as nat) + rest;
    let w4 = varint(s.threshold as nat) + w5;
    let w3 = ys_wire(s.ys) + w4;
    let w2 = varint(s.ys.len()) + w3;
    assert(shard_wire(s) + rest =~= varint(s.x as nat) + w2);
    lemma_parse_u32(s.x, w2);
    lemma_parse_u64(s.ys.len() as u64, w3);
    lemma_parse_ys(s.ys, w4);
    lemma_parse_u32(s.threshold, w5);
    lemma_parse_u64(s.secret_len as u64, rest);
}

} // verus!
