//! The dealer of a secret: one polynomial for each 4-byte chunk of the
//! secret, whose constant term is the chunk and whose values at the x of the
//! shards are what the shards hold.

use crate::rng::random_nonzero_u32;
use crate::shamir::gf::{le_bytes, le_u32, lemma_le_value_bytes, byte_at, GfElem, GfPoint};
use crate::shamir::gf::Error as GfError;
use crate::shamir::lagrange::{
    distinct, lagrange_constant, lagrange_eval, lemma_interpolation, point_xs, point_ys,
    GfBarycentric,
};
use crate::shamir::polynomial::{elems, poly_eval, EvaluablePolynomial, GfPolynomial};
use crate::shamir::shard::{Shard, ShardView};
use vstd::prelude::*;
use vstd::slice::slice_subrange;

verus! {

/// What can go wrong when a dealer is recovered from shards.
#[derive(Debug, PartialEq, Eq)]
pub enum Error {
    /// Lagrange interpolation failed.
    LagrangeError(GfError),
    /// The shards are not of one secret: they differ in threshold, in the
    /// length of the secret or in the number of their values, or two of
    /// them have the same x.
    InconsistentShards,
}

/// The number of 4-byte chunks of a secret of `len` bytes.
pub open spec fn chunk_count(len: nat) -> nat {
    (len + 3) / 4
}

/// The chunk `c` of a secret: its bytes `4c..4c+4` in little-endian order,
/// padded with zeroes at the end of the secret.
pub open spec fn chunk(secret: Seq<u8>, c: int) -> u32 {
    le_u32(secret.skip(4 * c)) as u32
}

/// The bytes of a sequence of chunks.
pub open spec fn chunk_bytes(chunks: Seq<u32>) -> Seq<u8>
    decreases chunks.len(),
{
    if chunks.len() == 0 {
        Seq::empty()
    } else {
        chunk_bytes(chunks.drop_last()) + le_bytes(chunks.last())
    }
}

/// The secret of `len` bytes that a sequence of chunks holds.
pub open spec fn secret_of(chunks: Seq<u32>, len: nat) -> Seq<u8> {
    chunk_bytes(chunks).take(len as int)
}

/// The x values of a sequence of shards.
pub open spec fn xs_of(points: Seq<ShardView>) -> Seq<u32> {
    points.map_values(|s: ShardView| s.x)
}

/// The values that a sequence of shards holds for the chunk `c`.
pub open spec fn column(points: Seq<ShardView>, c: int) -> Seq<u32> {
    points.map_values(|s: ShardView| s.ys[c])
}

/// What a sequence of shards holds.
pub open spec fn views(shards: Seq<Shard>) -> Seq<ShardView> {
    shards.map_values(|s: Shard| s@)
}

/// The bytes of `n` chunks are `4n` bytes, and the byte `i` is a byte of the
/// chunk `i / 4`.
pub proof fn lemma_chunk_bytes(chunks: Seq<u32>)
    ensures
        chunk_bytes(chunks).len() == 4 * chunks.len(),
        forall|i: int|
            0 <= i < 4 * chunks.len() ==> #[trigger] chunk_bytes(chunks)[i] == le_bytes(
                chunks[i / 4],
            )[i % 4],
    decreases chunks.len(),
{
    if chunks.len() > 0 {
        lemma_chunk_bytes(chunks.drop_last());
    }
}

/// The chunks of a secret hold the secret.
pub proof fn lemma_secret_of_chunks(secret: Seq<u8>, chunks: Seq<u32>)
    requires
        chunks.len() == chunk_count(secret.len()),
        forall|c: int| 0 <= c < chunks.len() ==> chunks[c] == chunk(secret, c),
    ensures
        secret_of(chunks, secret.len()) == secret,
{
    lemma_chunk_bytes(chunks);
    let got = secret_of(chunks, secret.len());
    assert forall|i: int| 0 <= i < secret.len() implies got[i] == secret[i] by {
        let c = i / 4;
        let part = secret.skip(4 * c);
        lemma_le_value_bytes(part);
        assert(chunk_bytes(chunks)[i] == le_bytes(chunks[c])[i % 4]);
        assert(byte_at(part, i % 4) == secret[i]);
    }
    assert(got =~= secret);
}

#[derive(Debug)]
enum Form {
    /// One polynomial for each chunk.
    Fresh(Vec<GfPolynomial>),
    /// The barycentric form of the polynomial of each chunk, and the shards
    /// that it was recovered from.
    Recovered(Vec<GfBarycentric>, Vec<Shard>),
}

/// The dealer of the shards of one secret.
#[derive(Debug)]
pub struct Dealer {
    form: Form,
    secret_len: usize,
    threshold: u32,
}

impl Dealer {
    /// Whether the dealer was made from a secret, and not recovered from
    /// shards.
    pub closed spec fn is_fresh(&self) -> bool {
        self.form is Fresh
    }

    /// The coefficients of the polynomial of each chunk, in a dealer that
    /// was made from a secret.
    pub closed spec fn polys(&self) -> Seq<Seq<u32>> {
        match self.form {
            Form::Fresh(polys) => polys@.map_values(|p: GfPolynomial| p@),
            Form::Recovered(_, _) => Seq::empty(),
        }
    }

    /// The shards that the dealer was recovered from.
    pub closed spec fn points(&self) -> Seq<ShardView> {
        match self.form {
            Form::Fresh(_) => Seq::empty(),
            Form::Recovered(_, shards) => views(shards@),
        }
    }

    /// The number of shards that recover the secret.
    pub closed spec fn threshold_value(&self) -> u32 {
        self.threshold
    }

    /// The length of the secret in bytes.
    pub closed spec fn secret_length(&self) -> usize {
        self.secret_len
    }

    /// The number of chunks of the secret.
    pub open spec fn chunks(&self) -> nat {
        chunk_count(self.secret_length() as nat)
    }

    /// The value at `x` of the polynomial of the chunk `c`.
    pub open spec fn share(&self, c: int, x: u32) -> u32 {
        if self.is_fresh() {
            poly_eval(self.polys()[c], x)
        } else {
            lagrange_eval(xs_of(self.points()), column(self.points(), c), x)
        }
    }

    /// The values at `x` of the polynomials of all chunks.
    pub open spec fn shares(&self, x: u32) -> Seq<u32> {
        Seq::new(self.chunks(), |c: int| self.share(c, x))
    }

    /// The shard at `x`.
    pub open spec fn shard_at(&self, x: u32) -> ShardView {
        ShardView {
            x,
            ys: self.shares(x),
            secret_len: self.secret_length(),
            threshold: self.threshold_value(),
        }
    }

    /// The secret: the constant terms of the polynomials, as bytes.
    pub open spec fn secret_value(&self) -> Seq<u8> {
        secret_of(self.shares(0), self.secret_length() as nat)
    }

    /// What a sequence of shards must be like to recover a dealer from it:
    /// as many as their threshold, at distinct x other than zero, and all
    /// with that threshold, one length of the secret and a value for each
    /// of its chunks.
    pub open spec fn quorum(points: Seq<ShardView>, threshold: u32, secret_len: usize) -> bool {
        &&& threshold >= 1
        &&& points.len() == threshold
        &&& distinct(xs_of(points))
        &&& forall|i: int|
            0 <= i < points.len() ==> {
                &&& (#[trigger] points[i]).x != 0
                &&& points[i].threshold == threshold
                &&& points[i].secret_len == secret_len
                &&& points[i].ys.len() == chunk_count(secret_len as nat)
            }
    }

    /// A dealer holds a polynomial of degree `threshold - 1` for each chunk,
    /// or the shards of a quorum with the barycentric form for each chunk.
    pub closed spec fn wf(&self) -> bool {
        match self.form {
            Form::Fresh(polys) => {
                &&& self.threshold >= 1
                &&& polys@.len() == chunk_count(self.secret_len as nat)
                &&& forall|c: int|
                    0 <= c < polys@.len() ==> (#[trigger] polys@[c]).wf() && polys@[c]@.len()
                        == self.threshold
            },
            Form::Recovered(forms, shards) => {
                &&& Dealer::quorum(views(shards@), self.threshold, self.secret_len)
                &&& forms@.len() == chunk_count(self.secret_len as nat)
                &&& forall|c: int|
                    0 <= c < forms@.len() ==> {
                        &&& (#[trigger] forms@[c]).wf()
                        &&& forms@[c].xs() == xs_of(views(shards@))
                        &&& forms@[c].ys() == column(views(shards@), c)
                    }
            },
        }
    }

    /// What `wf` says of the polynomials and of the shards.
    pub proof fn lemma_wf(&self)
        requires
            self.wf(),
        ensures
            self.threshold_value() >= 1,
            self.is_fresh() ==> self.polys().len() == self.chunks() && forall|c: int|
                0 <= c < self.chunks() ==> (#[trigger] self.polys()[c]).len()
                    == self.threshold_value(),
            !self.is_fresh() ==> Dealer::quorum(
                self.points(),
                self.threshold_value(),
                self.secret_length(),
            ),
    {
        match self.form {
            Form::Fresh(polys) => {
                assert forall|c: int| 0 <= c < self.chunks() implies (#[trigger] self.polys()[c]).len()
                    == self.threshold_value() by {
                    assert(polys@[c].wf());
                }
            },
            Form::Recovered(_, _) => {},
        }
    }
}

/// The first reason, if any, for which no dealer can be recovered from
/// `shards`: there is none; their threshold is zero; they are fewer than
/// their threshold; one of the first `threshold` differs from the first in
/// threshold or length of the secret, or has not one value for each chunk;
/// one of them has the x value zero; two of them have the same x.
pub open spec fn recover_error(shards: Seq<ShardView>) -> Option<Error> {
    if shards.len() == 0 {
        Some(Error::LagrangeError(GfError::NumPointsMismatch { needed: 1, num_points: 0 }))
    } else {
        let k = shards[0].threshold;
        let len = shards[0].secret_len;
        if k == 0 {
            Some(Error::InconsistentShards)
        } else if shards.len() < k {
            Some(
                Error::LagrangeError(
                    GfError::NumPointsMismatch {
                        needed: k as usize,
                        num_points: shards.len() as usize,
                    },
                ),
            )
        } else if exists|i: int|
            0 <= i < k && !((#[trigger] shards[i]).threshold == k && shards[i].secret_len == len
                && shards[i].ys.len() == chunk_count(len as nat)) {
            Some(Error::InconsistentShards)
        } else if exists|i: int| 0 <= i < k && (#[trigger] shards[i]).x == 0 {
            Some(Error::LagrangeError(GfError::NonInvertiblePoint))
        } else if !distinct(xs_of(shards.take(k as int))) {
            Some(Error::InconsistentShards)
        } else {
            None
        }
    }
}

impl Dealer {
    /// The dealer of `secret` with the threshold `quorum_size`: for each
    /// chunk of 4 bytes a random polynomial of degree `quorum_size - 1`
    /// whose constant term is the chunk.
    #[verifier::rlimit(40)]
    pub fn new(quorum_size: u32, secret: &[u8]) -> (d: Dealer)
        requires
            quorum_size >= 1,
        ensures
            d.wf(),
            d.is_fresh(),
            d.threshold_value() == quorum_size,
            d.secret_length() == secret@.len(),
            d.secret_value() == secret@,
            forall|c: int, i: int|
                0 <= c < d.chunks() && 1 <= i < quorum_size ==> (#[trigger] d.polys()[c][i]) != 0,
    {
        let n = secret.len();
        let chunks: usize = n / 4 + if n % 4 != 0 {
            1
        } else {
            0
        };
        let mut polys: Vec<GfPolynomial> = Vec::new();
        for c in 0..chunks
            invariant
                n == secret@.len(),
                chunks == chunk_count(n as nat),
                quorum_size >= 1,
                polys@.len() == c,
                forall|j: int|
                    0 <= j < c ==> {
                        &&& (#[trigger] polys@[j]).wf()
                        &&& polys@[j]@.len() == quorum_size
                        &&& polys@[j]@[0] == chunk(secret@, j)
                    },
                forall|j: int, i: int|
                    0 <= j < c && 1 <= i < quorum_size ==> (#[trigger] polys@[j]@[i]) != 0,
        {
            let mut poly = GfPolynomial::new_rand(quorum_size - 1);
            let (elem, _rest) = GfElem::from_bytes_partial(slice_subrange(secret, 4 * c, n));
            let ghost before = poly.0@;
            let constant = poly.constant_mut();
            *constant = elem;
            proof {
                assert(poly.0@ == before.update(0, elem));
                assert(poly@[0] == elem.0);
                assert forall|i: int| 1 <= i < quorum_size implies #[trigger] poly@[i] != 0 by {
                    assert(poly@[i] == before[i].0);
                    assert(elems(before)[i] != 0);
                }
                assert(secret@.subrange(4 * c as int, n as int) =~= secret@.skip(4 * c));
                lemma_le_value_bytes(secret@.skip(4 * c));
            }
            polys.push(poly);
        }
        let d = Dealer { form: Form::Fresh(polys), secret_len: n, threshold: quorum_size };
        proof {
            assert forall|c: int, i: int|
                0 <= c < d.chunks() && 1 <= i < quorum_size implies (#[trigger] d.polys()[c][i])
                != 0 by {
                assert(polys@[c]@[i] != 0);
            }
            assert forall|c: int| 0 <= c < d.chunks() implies d.shares(0)[c] == chunk(
                secret@,
                c,
            ) by {
                assert(polys@[c].wf());
                crate::shamir::polynomial::lemma_poly_eval_at_zero(polys@[c]@);
            }
            lemma_secret_of_chunks(secret@, d.shares(0));
        }
        d
    }

    /// The shard at `x`, or nothing where `x` is zero: the value at zero is
    /// the secret itself.
    #[verifier::rlimit(40)]
    pub fn shard(&self, x: GfElem) -> (res: Option<Shard>)
        requires
            self.wf(),
        ensures
            x.0 == 0 ==> res is None,
            x.0 != 0 ==> (res matches Some(s) && s@ == self.shard_at(x.0)),
    {
        if x.0 == 0 {
            return None;
        }
        let mut ys: Vec<GfElem> = Vec::new();
        match &self.form {
            Form::Fresh(polys) => {
                let n = polys.len();
                for c in 0..n
                    invariant
                        self.wf(),
                        self.form == Form::Fresh(*polys),
                        n == polys@.len(),
                        ys@.len() == c,
                        forall|j: int| 0 <= j < c ==> (#[trigger] ys@[j]).0 == self.share(j, x.0),
                {
                    let y = polys[c].evaluate(x);
                    ys.push(y);
                }
            },
            Form::Recovered(forms, shards) => {
                let n = forms.len();
                for c in 0..n
                    invariant
                        self.wf(),
                        self.form == Form::Recovered(*forms, *shards),
                        n == forms@.len(),
                        ys@.len() == c,
                        forall|j: int| 0 <= j < c ==> (#[trigger] ys@[j]).0 == self.share(j, x.0),
                {
                    proof {
                        assert(forms@[c as int].wf());
                    }
                    let y = forms[c].evaluate(x);
                    ys.push(y);
                }
            },
        }
        let s = Shard { x, ys, secret_len: self.secret_len, threshold: self.threshold };
        proof {
            assert(s@.ys =~= self.shares(x.0));
        }
        Some(s)
    }

    /// A shard at a random x other than zero.
    pub fn next_shard(&self) -> (s: Shard)
        requires
            self.wf(),
        ensures
            s@.x != 0,
            s@ == self.shard_at(s@.x),
    {
        let x = GfElem(random_nonzero_u32());
        self.shard(x).unwrap()
    }

    /// The secret: the constant term of the polynomial of each chunk, cut
    /// to the length of the secret.
    #[verifier::rlimit(40)]
    pub fn secret(&self) -> (bytes: Vec<u8>)
        requires
            self.wf(),
        ensures
            bytes@ == self.secret_value(),
    {
        let mut bytes: Vec<u8> = Vec::new();
        let ghost mut consts: Seq<u32> = Seq::empty();
        match &self.form {
            Form::Fresh(polys) => {
                let n = polys.len();
                for c in 0..n
                    invariant
                        self.wf(),
                        self.form == Form::Fresh(*polys),
                        n == polys@.len(),
                        consts.len() == c,
                        forall|j: int| 0 <= j < c ==> consts[j] == self.share(j, 0),
                        bytes@ == chunk_bytes(consts),
                {
                    let v = polys[c].constant();
                    proof {
                        let next = consts.push(v.0);
                        assert(next.drop_last() =~= consts);
                        consts = next;
                    }
                    let mut four = v.to_bytes();
                    bytes.append(&mut four);
                }
            },
            Form::Recovered(forms, shards) => {
                let n = forms.len();
                let k = shards.len();
                let ghost points = views(shards@);
                for c in 0..n
                    invariant
                        self.wf(),
                        self.form == Form::Recovered(*forms, *shards),
                        n == forms@.len(),
                        k == shards@.len(),
                        points == views(shards@),
                        consts.len() == c,
                        forall|j: int| 0 <= j < c ==> consts[j] == self.share(j, 0),
                        bytes@ == chunk_bytes(consts),
                {
                    let mut column_points: Vec<GfPoint> = Vec::new();
                    for i in 0..k
                        invariant
                            self.wf(),
                            self.form == Form::Recovered(*forms, *shards),
                            n == forms@.len(),
                            k == shards@.len(),
                            points == views(shards@),
                            0 <= c < n,
                            column_points@.len() == i,
                            forall|j: int|
                                0 <= j < i ==> (#[trigger] column_points@[j]).0.0 == points[j].x
                                    && column_points@[j].1.0 == points[j].ys[c as int],
                    {
                        proof {
                            assert(points[i as int].ys.len() == n);
                            assert(shards@[i as int]@.ys[c as int] == shards@[i as int].ys@[c as int].0);
                        }
                        column_points.push((shards[i].x, shards[i].ys[c]));
                    }
                    proof {
                        assert(point_xs(column_points@) =~= xs_of(points));
                        assert(point_ys(column_points@) =~= column(points, c as int));
                        let xs = xs_of(points);
                        if xs.contains(0) {
                            let j = choose|j: int| 0 <= j < xs.len() && xs[j] == 0;
                            assert(points[j].x != 0);
                        }
                    }
                    let v = match lagrange_constant(self.threshold - 1, column_points.as_slice()) {
                        Ok(v) => v,
                        Err(_) => GfElem(0),
                    };
                    proof {
                        let next = consts.push(v.0);
                        assert(next.drop_last() =~= consts);
                        consts = next;
                    }
                    let mut four = v.to_bytes();
                    bytes.append(&mut four);
                }
            },
        }
        proof {
            assert(consts =~= self.shares(0));
            lemma_chunk_bytes(consts);
        }
        bytes.truncate(self.secret_len);
        proof {
            assert(bytes@ =~= self.secret_value());
        }
        bytes
    }
}

/// The secret that the shards of a quorum hold: for each chunk the value at
/// zero of the polynomial through its points.
pub open spec fn recovered_secret(points: Seq<ShardView>) -> Seq<u8> {
    secret_of(
        Seq::new(
            chunk_count(points[0].secret_len as nat),
            |c: int| lagrange_eval(xs_of(points), column(points, c), 0),
        ),
        points[0].secret_len as nat,
    )
}

/// The shard at `x` that the shards of a quorum tell: for each chunk the
/// value at `x` of the polynomial through its points.
pub open spec fn interpolated_shard(points: Seq<ShardView>, x: u32) -> ShardView {
    ShardView {
        x,
        ys: Seq::new(
            chunk_count(points[0].secret_len as nat),
            |c: int| lagrange_eval(xs_of(points), column(points, c), x),
        ),
        secret_len: points[0].secret_len,
        threshold: points[0].threshold,
    }
}

impl Dealer {
    /// Recovers the dealer from the first `threshold` of the given shards,
    /// where `threshold` is what the first of them says.
    #[verifier::rlimit(40)]
    pub fn recover(shards: &[Shard]) -> (res: Result<Dealer, Error>)
        ensures
            recover_error(views(shards@)) matches Some(e) ==> res == Err::<Dealer, Error>(e),
            recover_error(views(shards@)) is None ==> (res matches Ok(d) && d.wf() && !d.is_fresh()
                && d.threshold_value() == shards@[0].threshold && d.secret_length()
                == shards@[0].secret_len && d.points() == views(shards@).take(
                shards@[0].threshold as int,
            )),
    {
        let ghost all = views(shards@);
        if shards.len() == 0 {
            return Err(Error::LagrangeError(GfError::NumPointsMismatch { needed: 1, num_points: 0 }));
        }
        let threshold = shards[0].threshold;
        let secret_len = shards[0].secret_len;
        proof {
            assert(all[0] == shards@[0]@);
        }
        if threshold == 0 {
            return Err(Error::InconsistentShards);
        }
        if shards.len() < threshold as usize {
            return Err(
                Error::LagrangeError(
                    GfError::NumPointsMismatch {
                        needed: threshold as usize,
                        num_points: shards.len(),
                    },
                ),
            );
        }
        let k: usize = threshold as usize;
        let chunks: usize = secret_len / 4 + if secret_len % 4 != 0 {
            1
        } else {
            0
        };
        for i in 0..k
            invariant
                all == views(shards@),
                k <= shards@.len(),
                k == threshold,
                threshold != 0,
                all.len() >= 1,
                all[0].threshold == threshold,
                all[0].secret_len == secret_len,
                chunks == chunk_count(secret_len as nat),
                forall|j: int|
                    0 <= j < i ==> (#[trigger] all[j]).threshold == threshold && all[j].secret_len
                        == secret_len && all[j].ys.len() == chunks,
        {
            proof {
                assert(all[i as int] == shards@[i as int]@);
                assert(all[i as int].ys.len() == shards@[i as int].ys@.len());
            }
            if shards[i].threshold != threshold || shards[i].secret_len != secret_len
                || shards[i].ys.len() != chunks {
                proof {
                    assert(!(all[i as int].threshold == threshold && all[i as int].secret_len
                        == secret_len && all[i as int].ys.len() == chunk_count(
                        secret_len as nat,
                    )));
                }
                return Err(Error::InconsistentShards);
            }
        }
        for i in 0..k
            invariant
                all == views(shards@),
                k <= shards@.len(),
                k == threshold,
                all.len() >= 1,
                all[0].threshold == threshold,
                all[0].secret_len == secret_len,
                chunks == chunk_count(secret_len as nat),
                forall|j: int|
                    0 <= j < k ==> (#[trigger] all[j]).threshold == threshold && all[j].secret_len
                        == secret_len && all[j].ys.len() == chunks,
                forall|j: int| 0 <= j < i ==> (#[trigger] all[j]).x != 0,
        {
            proof {
                assert(all[i as int] == shards@[i as int]@);
            }
            if shards[i].x.0 == 0 {
                return Err(Error::LagrangeError(GfError::NonInvertiblePoint));
            }
        }
        let ghost xs = xs_of(all.take(k as int));
        for i in 0..k
            invariant
                all == views(shards@),
                k <= shards@.len(),
                k == threshold,
                all.len() >= 1,
                all[0].threshold == threshold,
                all[0].secret_len == secret_len,
                chunks == chunk_count(secret_len as nat),
                xs == xs_of(all.take(k as int)),
                forall|j: int|
                    0 <= j < k ==> (#[trigger] all[j]).threshold == threshold && all[j].secret_len
                        == secret_len && all[j].ys.len() == chunks,
                forall|j: int| 0 <= j < k ==> (#[trigger] all[j]).x != 0,
                forall|a: int, b: int| 0 <= a < b < i ==> xs[a] != xs[b],
        {
            for j in 0..i
                invariant
                    all == views(shards@),
                    k <= shards@.len(),
                    k == threshold,
                    0 <= i < k,
                    all.len() >= 1,
                    all[0].threshold == threshold,
                    all[0].secret_len == secret_len,
                    chunks == chunk_count(secret_len as nat),
                    xs == xs_of(all.take(k as int)),
                    forall|j: int|
                        0 <= j < k ==> (#[trigger] all[j]).threshold == threshold
                            && all[j].secret_len == secret_len && all[j].ys.len() == chunks,
                    forall|j: int| 0 <= j < k ==> (#[trigger] all[j]).x != 0,
                    forall|a: int, b: int| 0 <= a < b < i ==> xs[a] != xs[b],
                    forall|a: int| 0 <= a < j ==> xs[a] != xs[i as int],
            {
                proof {
                    assert(all[i as int] == shards@[i as int]@);
                    assert(all[j as int] == shards@[j as int]@);
                    assert(xs[i as int] == all[i as int].x);
                    assert(xs[j as int] == all[j as int].x);
                }
                if shards[j].x.0 == shards[i].x.0 {
                    return Err(Error::InconsistentShards);
                }
            }
        }
        // The shards are a quorum: keep them and the barycentric form of
        // each chunk.
        let mut points: Vec<Shard> = Vec::new();
        for i in 0..k
            invariant
                all == views(shards@),
                k <= shards@.len(),
                points@.len() == i,
                forall|j: int| 0 <= j < i ==> (#[trigger] points@[j])@ == all[j],
        {
            proof {
                assert(all[i as int] == shards@[i as int]@);
            }
            points.push(shards[i].clone());
        }
        let ghost kept = views(points@);
        proof {
            assert(kept =~= all.take(k as int));
            assert(recover_error(all) is None);
            assert(Dealer::quorum(kept, threshold, secret_len));
        }
        let mut forms: Vec<GfBarycentric> = Vec::new();
        for c in 0..chunks
            invariant
                kept == views(points@),
                k == points@.len(),
                k == threshold,
                threshold >= 1,
                chunks == chunk_count(secret_len as nat),
                Dealer::quorum(kept, threshold, secret_len),
                forms@.len() == c,
                forall|j: int|
                    0 <= j < c ==> {
                        &&& (#[trigger] forms@[j]).wf()
                        &&& forms@[j].xs() == xs_of(kept)
                        &&& forms@[j].ys() == column(kept, j)
                    },
        {
            let mut column_points: Vec<GfPoint> = Vec::new();
            for i in 0..k
                invariant
                    kept == views(points@),
                    k == points@.len(),
                    Dealer::quorum(kept, threshold, secret_len),
                    chunks == chunk_count(secret_len as nat),
                    0 <= c < chunks,
                    column_points@.len() == i,
                    forall|j: int|
                        0 <= j < i ==> (#[trigger] column_points@[j]).0.0 == kept[j].x
                            && column_points@[j].1.0 == kept[j].ys[c as int],
            {
                proof {
                    assert(kept[i as int].ys.len() == chunks);
                    assert(points@[i as int]@.ys[c as int] == points@[i as int].ys@[c as int].0);
                }
                column_points.push((points[i].x, points[i].ys[c]));
            }
            proof {
                assert(point_xs(column_points@) =~= xs_of(kept));
                assert(point_ys(column_points@) =~= column(kept, c as int));
            }
            match GfBarycentric::recover(threshold - 1, column_points.as_slice()) {
                Ok(form) => {
                    forms.push(form);
                },
                Err(e) => {
                    return Err(Error::LagrangeError(e));
                },
            }
        }
        Ok(Dealer { form: Form::Recovered(forms, points), secret_len, threshold })
    }

    /// A quorum of shards recovers a dealer.
    pub proof fn lemma_quorum_recovers(points: Seq<ShardView>, threshold: u32, secret_len: usize)
        requires
            Dealer::quorum(points, threshold, secret_len),
        ensures
            recover_error(points) is None,
            points.take(points[0].threshold as int) == points,
    {
        assert(points[0].threshold == threshold);
        assert(points.take(threshold as int) =~= points);
    }

    /// What a dealer that was recovered from shards deals and holds is told
    /// by the shards alone.
    pub proof fn lemma_recovered(&self)
        requires
            self.wf(),
            !self.is_fresh(),
        ensures
            self.secret_value() == recovered_secret(self.points()),
            forall|x: u32| self.shard_at(x) == interpolated_shard(self.points(), x),
    {
        self.lemma_wf();
        let points = self.points();
        assert(points[0].threshold == self.threshold_value());
        assert(self.shares(0) =~= Seq::new(
            chunk_count(points[0].secret_len as nat),
            |c: int| lagrange_eval(xs_of(points), column(points, c), 0),
        ));
        assert forall|x: u32| self.shard_at(x) == interpolated_shard(self.points(), x) by {
            assert(self.shares(x) =~= interpolated_shard(points, x).ys);
        }
    }

    /// Recovery reproduces the dealer: from a quorum of shards that a dealer
    /// has dealt, at whichever x, the shard at any x is the one that the
    /// dealer deals there, and the secret is the secret of the dealer.
    pub proof fn lemma_recovery_agrees(&self, points: Seq<ShardView>, x: u32)
        requires
            self.wf(),
            self.is_fresh(),
            Dealer::quorum(points, self.threshold_value(), self.secret_length()),
            forall|i: int|
                0 <= i < points.len() ==> (#[trigger] points[i]) == self.shard_at(points[i].x),
        ensures
            interpolated_shard(points, x) == self.shard_at(x),
            recovered_secret(points) == self.secret_value(),
    {
        self.lemma_wf();
        assert(points[0].threshold == self.threshold_value());
        assert forall|c: int, y: u32| 0 <= c < self.chunks() implies lagrange_eval(
            xs_of(points),
            column(points, c),
            y,
        ) == self.share(c, y) by {
            let xs = xs_of(points);
            let ys = column(points, c);
            let p = self.polys()[c];
            assert forall|j: int| 0 <= j < xs.len() implies ys[j] == poly_eval(
                p,
                #[trigger] xs[j],
            ) by {
                assert(points[j] == self.shard_at(points[j].x));
                assert(self.shares(points[j].x)[c] == self.share(c, points[j].x));
            }
            lemma_interpolation(xs, ys, p, y);
        }
        assert(interpolated_shard(points, x).ys =~= self.shares(x));
        assert(Seq::new(
            chunk_count(points[0].secret_len as nat),
            |c: int| lagrange_eval(xs_of(points), column(points, c), 0),
        ) =~= self.shares(0));
    }
}

/// Recovers the secret from the first `threshold` of the given shards.
pub fn recover_secret(shards: &[Shard]) -> (res: Result<Vec<u8>, Error>)
    ensures
        recover_error(views(shards@)) matches Some(e) ==> res == Err::<Vec<u8>, Error>(e),
        recover_error(views(shards@)) is None ==> (res matches Ok(secret) && secret@
            == recovered_secret(views(shards@).take(shards@[0].threshold as int))),
{
    match Dealer::recover(shards) {
        Ok(dealer) => {
            let secret = dealer.secret();
            proof {
                dealer.lemma_recovered();
            }
            Ok(secret)
        },
        Err(e) => Err(e),
    }
}

} // verus!
