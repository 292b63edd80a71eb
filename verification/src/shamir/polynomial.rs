//! Polynomials over `GF(2^32)`, as sequences of coefficients in increasing
//! degree, and what evaluating them means.

use crate::rng::random_nonzero_u32;
use crate::shamir::gf::{
    gf_add, gf_mul, gf_pow, lemma_gf_add_laws, lemma_gf_mul_add, lemma_gf_mul_associates,
    lemma_gf_mul_commutes, lemma_gf_mul_units, lemma_gf_mul_zero, GfElem,
};
use vstd::prelude::*;

verus! {

/// The value of the polynomial with the coefficients `p` at `x`: the sum of
/// `p[i] * x^i`.
pub open spec fn poly_eval(p: Seq<u32>, x: u32) -> u32
    decreases p.len(),
{
    if p.len() == 0 {
        0
    } else {
        gf_add(poly_eval(p.drop_last(), x), gf_mul(p.last(), gf_pow(x, (p.len() - 1) as nat)))
    }
}

/// The value of the polynomial at `x` by Horner's rule:
/// `p[0] + x * (p[1] + x * (p[2] + ...))`.
pub open spec fn horner(p: Seq<u32>, x: u32) -> u32
    decreases p.len(),
{
    if p.len() == 0 {
        0
    } else {
        gf_add(p[0], gf_mul(x, horner(p.skip(1), x)))
    }
}

/// The sum of two polynomials, coefficient by coefficient.
pub open spec fn poly_add(p: Seq<u32>, q: Seq<u32>) -> Seq<u32> {
    Seq::new(
        if p.len() >= q.len() {
            p.len()
        } else {
            q.len()
        },
        |i: int|
            gf_add(
                if i < p.len() {
                    p[i]
                } else {
                    0
                },
                if i < q.len() {
                    q[i]
                } else {
                    0
                },
            ),
    )
}

/// The polynomial `p` times the constant `c`.
pub open spec fn poly_scale(p: Seq<u32>, c: u32) -> Seq<u32> {
    Seq::new(p.len(), |i: int| gf_mul(c, p[i]))
}

/// The polynomial `p` times `x - c`.
pub open spec fn poly_times_linear(p: Seq<u32>, c: u32) -> Seq<u32> {
    Seq::new(
        p.len() + 1,
        |i: int|
            gf_add(
                if i >= 1 {
                    p[i - 1]
                } else {
                    0
                },
                gf_mul(
                    c,
                    if i < p.len() {
                        p[i]
                    } else {
                        0
                    },
                ),
            ),
    )
}

/// Horner's rule, one more coefficient at the upper end.
pub proof fn lemma_horner_push(p: Seq<u32>, a: u32, x: u32)
    ensures
        horner(p.push(a), x) == gf_add(horner(p, x), gf_mul(a, gf_pow(x, p.len()))),
    decreases p.len(),
{
    let pa = p.push(a);
    if p.len() == 0 {
        assert(pa.skip(1) =~= Seq::<u32>::empty());
        assert(horner(pa.skip(1), x) == 0);
        lemma_gf_mul_units(x);
        lemma_gf_mul_units(a);
        lemma_gf_add_laws(a, 0, 0);
    } else {
        let t = p.skip(1);
        assert(pa.skip(1) =~= t.push(a));
        lemma_horner_push(t, a, x);
        let ht = horner(t, x);
        let ap = gf_mul(a, gf_pow(x, t.len()));
        lemma_gf_mul_add(x, ht, ap);
        lemma_gf_mul_associates(x, a, gf_pow(x, t.len()));
        lemma_gf_mul_commutes(x, a);
        lemma_gf_mul_associates(a, x, gf_pow(x, t.len()));
        lemma_gf_add_laws(p[0], gf_mul(x, ht), gf_mul(x, ap));
    }
}

/// Horner's rule gives the value of the polynomial.
pub proof fn lemma_horner_is_eval(p: Seq<u32>, x: u32)
    ensures
        horner(p, x) == poly_eval(p, x),
    decreases p.len(),
{
    if p.len() > 0 {
        lemma_horner_is_eval(p.drop_last(), x);
        lemma_horner_push(p.drop_last(), p.last(), x);
        assert(p.drop_last().push(p.last()) =~= p);
    }
}

/// The value of a sum of two polynomials is the sum of their values.
pub proof fn lemma_horner_add(p: Seq<u32>, q: Seq<u32>, x: u32)
    ensures
        horner(poly_add(p, q), x) == gf_add(horner(p, x), horner(q, x)),
    decreases p.len() + q.len(),
{
    let s = poly_add(p, q);
    if p.len() == 0 && q.len() == 0 {
        lemma_gf_add_laws(0, 0, 0);
    } else if p.len() == 0 {
        assert(s =~= q) by {
            assert forall|i: int| 0 <= i < q.len() implies s[i] == q[i] by {
                lemma_gf_add_laws(q[i], 0, 0);
            }
        }
        lemma_gf_add_laws(horner(q, x), 0, 0);
    } else if q.len() == 0 {
        assert(s =~= p) by {
            assert forall|i: int| 0 <= i < p.len() implies s[i] == p[i] by {
                lemma_gf_add_laws(p[i], 0, 0);
            }
        }
        lemma_gf_add_laws(horner(p, x), 0, 0);
    } else {
        assert(s.skip(1) =~= poly_add(p.skip(1), q.skip(1)));
        lemma_horner_add(p.skip(1), q.skip(1), x);
        let hp = horner(p.skip(1), x);
        let hq = horner(q.skip(1), x);
        lemma_gf_mul_add(x, hp, hq);
        lemma_xor4(p[0], q[0], gf_mul(x, hp), gf_mul(x, hq));
    }
}

proof fn lemma_xor4(a: u32, b: u32, c: u32, d: u32)
    by (bit_vector)
    ensures
        (a ^ b) ^ (c ^ d) == (a ^ c) ^ (b ^ d),
        (a ^ b) ^ c == a ^ (b ^ c),
        (a ^ b) ^ b == a,
        a ^ b == b ^ a,
        (a ^ b) ^ ((c ^ b) ^ d) == a ^ (c ^ d),
        (a ^ b) ^ (a ^ c) == b ^ c,
{
}

/// The value of a multiple of a polynomial is the multiple of its value.
pub proof fn lemma_horner_scale(p: Seq<u32>, c: u32, x: u32)
    ensures
        horner(poly_scale(p, c), x) == gf_mul(c, horner(p, x)),
    decreases p.len(),
{
    if p.len() == 0 {
        lemma_gf_mul_units(c);
    } else {
        let s = poly_scale(p, c);
        assert(s.skip(1) =~= poly_scale(p.skip(1), c));
        lemma_horner_scale(p.skip(1), c, x);
        let h = horner(p.skip(1), x);
        lemma_gf_mul_add(c, p[0], gf_mul(x, h));
        lemma_gf_mul_associates(c, x, h);
        lemma_gf_mul_commutes(c, x);
        lemma_gf_mul_associates(x, c, h);
    }
}

/// The value of `p * (x - c)` is the value of `p` times `x - c`.
pub proof fn lemma_horner_times_linear(p: Seq<u32>, c: u32, x: u32)
    ensures
        horner(poly_times_linear(p, c), x) == gf_mul(gf_add(x, c), horner(p, x)),
    decreases p.len(),
{
    let s = poly_times_linear(p, c);
    if p.len() == 0 {
        assert(s.skip(1) =~= Seq::<u32>::empty());
        assert(horner(s.skip(1), x) == 0);
        lemma_gf_mul_units(c);
        lemma_gf_mul_units(x);
        lemma_gf_mul_units(gf_add(x, c));
        lemma_gf_add_laws(0, 0, 0);
    } else {
        let t = p.skip(1);
        let st = poly_times_linear(t, c);
        lemma_horner_times_linear(t, c, x);
        let ht = horner(t, x);
        // past its first coefficient, the product is the first coefficient of p plus
        // the product of the rest of p
        assert(s.skip(1) =~= poly_add(seq![p[0]], st)) by {
            assert forall|i: int| 0 <= i < s.len() - 1 implies s.skip(1)[i] == poly_add(
                seq![p[0]],
                st,
            )[i] by {
                let y: u32 = if i + 1 < p.len() {
                    p[i + 1]
                } else {
                    0
                };
                assert(s.skip(1)[i] == gf_add(p[i], gf_mul(c, y)));
                if i == 0 {
                    assert(st[0] == gf_add(0, gf_mul(c, y)));
                    lemma_gf_add_laws(gf_mul(c, y), 0, 0);
                } else {
                    assert(st[i] == gf_add(p[i], gf_mul(c, y)));
                    lemma_gf_add_laws(st[i], 0, 0);
                }
            }
        }
        lemma_horner_add(seq![p[0]], st, x);
        assert(seq![p[0]].skip(1) =~= Seq::<u32>::empty());
        assert(horner(seq![p[0]].skip(1), x) == 0);
        assert(horner(seq![p[0]], x) == p[0]) by {
            lemma_gf_mul_units(x);
            lemma_gf_add_laws(p[0], 0, 0);
        }
        let xc = gf_add(x, c);
        // the value of the product, by its first coefficient and the rest
        lemma_gf_add_laws(0, 0, 0);
        lemma_gf_add_laws(gf_mul(c, p[0]), 0, 0);
        assert(s[0] == gf_mul(c, p[0]));
        lemma_gf_mul_add(x, p[0], gf_mul(xc, ht));
        lemma_gf_mul_add(p[0], x, c);
        lemma_gf_mul_commutes(c, p[0]);
        lemma_gf_mul_commutes(x, p[0]);
        lemma_gf_mul_add(xc, p[0], gf_mul(x, ht));
        lemma_gf_mul_commutes(xc, p[0]);
        lemma_gf_mul_associates(x, xc, ht);
        lemma_gf_mul_commutes(x, xc);
        lemma_gf_mul_associates(xc, x, ht);
        lemma_xor4(gf_mul(p[0], c), gf_mul(p[0], x), gf_mul(x, gf_mul(xc, ht)), 0);
        lemma_xor4(gf_mul(p[0], x), gf_mul(p[0], c), 0, 0);
    }
}

/// A polynomial whose coefficients are all zero has the value zero.
pub proof fn lemma_horner_zero(p: Seq<u32>, x: u32)
    requires
        forall|i: int| 0 <= i < p.len() ==> p[i] == 0,
    ensures
        horner(p, x) == 0,
    decreases p.len(),
{
    if p.len() > 0 {
        lemma_horner_zero(p.skip(1), x);
        lemma_gf_mul_units(x);
        lemma_gf_add_laws(0, 0, 0);
    }
}

/// The quotient of `p` by `x - c`: its coefficient `i` is the value at `c` of
/// what stands above the coefficient `i` of `p`.
pub open spec fn poly_quotient(p: Seq<u32>, c: u32) -> Seq<u32> {
    Seq::new((p.len() - 1) as nat, |i: int| horner(p.skip(i + 1), c))
}

/// Dividing by `x - c` leaves the value at `c`:
/// `p(x) = p(c) + (x - c) * q(x)`.
pub proof fn lemma_quotient(p: Seq<u32>, c: u32, x: u32)
    requires
        p.len() >= 1,
    ensures
        horner(p, x) == gf_add(horner(p, c), gf_mul(gf_add(x, c), horner(poly_quotient(p, c), x))),
    decreases p.len(),
{
    let q = poly_quotient(p, c);
    let xc = gf_add(x, c);
    if p.len() == 1 {
        assert(p.skip(1) =~= Seq::<u32>::empty());
        assert(horner(p.skip(1), x) == 0);
        assert(horner(p.skip(1), c) == 0);
        assert(horner(q, x) == 0);
        lemma_gf_mul_units(xc);
        lemma_gf_mul_units(x);
        lemma_gf_mul_units(c);
        lemma_gf_add_laws(p[0], 0, 0);
    } else {
        let t = p.skip(1);
        let qt = poly_quotient(t, c);
        lemma_quotient(t, c, x);
        assert(q.skip(1) =~= qt) by {
            assert forall|i: int| 0 <= i < qt.len() implies q.skip(1)[i] == qt[i] by {
                assert(p.skip(i + 2) =~= t.skip(i + 1));
            }
        }
        assert(q[0] == horner(t, c));
        let hc = horner(t, c);
        let hq = horner(qt, x);
        // horner(t, x) == hc + xc * hq ; horner(q, x) == hc + x * hq
        lemma_gf_mul_add(x, hc, gf_mul(xc, hq));
        lemma_gf_mul_add(xc, hc, gf_mul(x, hq));
        lemma_gf_mul_add(hc, x, c);
        lemma_gf_mul_commutes(hc, x);
        lemma_gf_mul_commutes(hc, c);
        lemma_gf_mul_commutes(xc, hc);
        lemma_gf_mul_associates(x, xc, hq);
        lemma_gf_mul_commutes(x, xc);
        lemma_gf_mul_associates(xc, x, hq);
        let a = gf_mul(x, hc);
        let b = gf_mul(c, hc);
        let m = gf_mul(x, gf_mul(xc, hq));
        assert(horner(t, x) == gf_add(hc, gf_mul(xc, hq)));
        assert(q.len() >= 1);
        assert(horner(q, x) == gf_add(hc, gf_mul(x, hq)));
        assert(gf_mul(x, horner(t, x)) == a ^ m);
        assert(gf_mul(xc, hc) == a ^ b);
        assert(gf_mul(xc, horner(q, x)) == (a ^ b) ^ m);
        assert(horner(p, x) == p[0] ^ (a ^ m));
        assert(horner(p, c) == p[0] ^ b);
        lemma_xor4(p[0], b, a, m);
    }
}

/// A polynomial with as many distinct roots as it has coefficients is zero.
pub proof fn lemma_roots(p: Seq<u32>, roots: Seq<u32>)
    requires
        roots.len() >= p.len(),
        forall|i: int, j: int| 0 <= i < j < roots.len() ==> roots[i] != roots[j],
        forall|i: int| 0 <= i < roots.len() ==> horner(p, #[trigger] roots[i]) == 0,
    ensures
        forall|i: int| 0 <= i < p.len() ==> p[i] == 0,
    decreases p.len(),
{
    if p.len() > 0 {
        let c = roots.last();
        let q = poly_quotient(p, c);
        let rest = roots.drop_last();
        assert(horner(p, roots[roots.len() - 1]) == 0);
        assert forall|i: int| 0 <= i < rest.len() implies horner(q, #[trigger] rest[i]) == 0 by {
            let r = rest[i];
            assert(r == roots[i]);
            lemma_quotient(p, c, r);
            lemma_gf_add_laws(r, c, 0);
            lemma_gf_add_laws(gf_mul(gf_add(r, c), horner(q, r)), 0, 0);
            lemma_gf_mul_zero(gf_add(r, c), horner(q, r));
        }
        lemma_roots(q, rest);
        let n = (p.len() - 1) as int;
        // from the top coefficient down to the first
        assert forall|k: int| 1 <= k <= n implies p[k] == 0 by {
            let tail = p.skip(k);
            assert(q[k - 1] == 0);
            assert(q[k - 1] == horner(tail, c));
            assert(tail.skip(1) =~= p.skip(k + 1));
            assert(tail[0] == p[k]);
            if k < n {
                assert(q[k] == 0);
                assert(q[k] == horner(p.skip(k + 1), c));
            } else {
                assert(p.skip(k + 1) =~= Seq::<u32>::empty());
                assert(horner(p.skip(k + 1), c) == 0);
            }
            assert(horner(tail, c) == gf_add(p[k], gf_mul(c, horner(tail.skip(1), c))));
            lemma_gf_mul_units(c);
            lemma_gf_add_laws(p[k], 0, 0);
        }
        if n >= 1 {
            assert(q[0] == 0);
            assert(q[0] == horner(p.skip(1), c));
        } else {
            assert(p.skip(1) =~= Seq::<u32>::empty());
            assert(horner(p.skip(1), c) == 0);
        }
        lemma_gf_mul_units(c);
        lemma_gf_add_laws(p[0], 0, 0);
        assert(horner(p, c) == gf_add(p[0], gf_mul(c, horner(p.skip(1), c))));
        assert(p[0] == 0);
    }
}

/// The value of a sum of two polynomials is the sum of their values.
pub proof fn lemma_poly_add_eval(p: Seq<u32>, q: Seq<u32>, x: u32)
    ensures
        poly_eval(poly_add(p, q), x) == gf_add(poly_eval(p, x), poly_eval(q, x)),
{
    lemma_horner_add(p, q, x);
    lemma_horner_is_eval(p, x);
    lemma_horner_is_eval(q, x);
    lemma_horner_is_eval(poly_add(p, q), x);
}

/// The value of a polynomial at zero is its constant term.
pub proof fn lemma_poly_eval_at_zero(p: Seq<u32>)
    requires
        p.len() >= 1,
    ensures
        poly_eval(p, 0) == p[0],
{
    lemma_horner_is_eval(p, 0);
    lemma_gf_mul_units(horner(p.skip(1), 0));
    lemma_gf_add_laws(p[0], 0, 0);
}

/// The integers that a sequence of field elements holds.
pub open spec fn elems(v: Seq<GfElem>) -> Seq<u32> {
    v.map_values(|e: GfElem| e.0)
}

/// Something that can be evaluated like a polynomial over the field.
pub trait EvaluablePolynomial {
    /// Whether the value is a valid one of its type.
    spec fn well_formed(&self) -> bool;

    /// The value of the polynomial at `x`.
    spec fn value_at(&self, x: u32) -> u32;

    /// The degree of the polynomial.
    spec fn degree_bound(&self) -> nat;

    /// Evaluate the polynomial at a given `x` value.
    fn evaluate(&self, x: GfElem) -> (y: GfElem)
        requires
            self.well_formed(),
        ensures
            y.0 == self.value_at(x.0),
    ;

    /// Return the degree of the polynomial (the largest power of x).
    fn degree(&self) -> (d: u32)
        requires
            self.well_formed(),
        ensures
            d == self.degree_bound(),
    ;

    /// Retreive the constant term of the polynomial.
    fn constant(&self) -> (c: GfElem)
        requires
            self.well_formed(),
        ensures
            c.0 == self.value_at(0),
    ;
}

/// A polynomial in `GF(2^32)`. The coefficients are in *increasing* degree
/// (x^0, x^1, ..., x^n).
#[derive(Debug, PartialEq, Eq)]
pub struct GfPolynomial(pub Vec<GfElem>);

impl Clone for GfPolynomial {
    fn clone(&self) -> (p: GfPolynomial)
        ensures
            p@ == self@,
    {
        let coeffs = self.0.clone();
        assert(coeffs@ =~= self.0@);
        GfPolynomial(coeffs)
    }
}

impl View for GfPolynomial {
    type V = Seq<u32>;

    open spec fn view(&self) -> Seq<u32> {
        elems(self.0@)
    }
}

impl GfPolynomial {
    /// A polynomial has at least one coefficient, and its degree fits in 32
    /// bits.
    pub open spec fn wf(&self) -> bool {
        1 <= self.0@.len() <= 0x1_0000_0000
    }

    /// A polynomial of degree `n` whose coefficients are random and none of
    /// them zero.
    pub fn new_rand(n: u32) -> (p: GfPolynomial)
        requires
            n < u32::MAX,
        ensures
            p.wf(),
            p@.len() == n + 1,
            forall|i: int| 0 <= i < p@.len() ==> p@[i] != 0,
    {
        let k: u32 = n + 1;
        let mut coeffs: Vec<GfElem> = Vec::new();
        for i in 0..k
            invariant
                coeffs@.len() == i,
                forall|j: int| 0 <= j < coeffs@.len() ==> coeffs@[j].0 != 0,
        {
            coeffs.push(GfElem(random_nonzero_u32()));
        }
        GfPolynomial(coeffs)
    }

    /// Yield a mutable reference to the constant term of the polynomial.
    pub fn constant_mut(&mut self) -> (c: &mut GfElem)
        requires
            old(self).wf(),
        ensures
            *c == old(self).0@[0],
            final(self).0@ == old(self).0@.update(0, *final(c)),
    {
        &mut self.0[0]
    }
}

impl EvaluablePolynomial for GfPolynomial {
    open spec fn well_formed(&self) -> bool {
        self.wf()
    }

    open spec fn value_at(&self, x: u32) -> u32 {
        poly_eval(self@, x)
    }

    open spec fn degree_bound(&self) -> nat {
        (self@.len() - 1) as nat
    }

    /// Horner's method, from the coefficient of the highest degree down.
    fn evaluate(&self, x: GfElem) -> (y: GfElem) {
        let n = self.0.len();
        let mut acc = GfElem(0);
        let mut i: usize = n;
        proof {
            assert(self@.skip(n as int) =~= Seq::<u32>::empty());
        }
        while i > 0
            invariant
                i <= n,
                n == self.0@.len(),
                acc.0 == horner(self@.skip(i as int), x.0),
            decreases i,
        {
            i = i - 1;
            proof {
                assert(self@.skip(i as int).skip(1) =~= self@.skip(i + 1));
                lemma_gf_mul_commutes(x.0, acc.0);
            }
            acc = self.0[i] + x * acc;
        }
        proof {
            assert(self@.skip(0) =~= self@);
            lemma_horner_is_eval(self@, x.0);
        }
        acc
    }

    fn degree(&self) -> (d: u32) {
        (self.0.len() - 1) as u32
    }

    fn constant(&self) -> (c: GfElem) {
        proof {
            lemma_poly_eval_at_zero(self@);
        }
        self.0[0]
    }
}

impl core::ops::AddAssign for GfPolynomial {
    fn add_assign(&mut self, rhs: GfPolynomial)
        ensures
            final(self)@ == poly_add(old(self)@, rhs@),
    {
        let n = self.0.len();
        let m = rhs.0.len();
        let mut i: usize = 0;
        while i < m
            invariant
                i <= m,
                m == rhs.0@.len(),
                n == old(self).0@.len(),
                self.0@.len() == (if i <= n {
                    n
                } else {
                    i
                }),
                forall|j: int|
                    0 <= j < i ==> (#[trigger] self.0@[j]).0 == poly_add(old(self)@, rhs@)[j],
                forall|j: int| i <= j < self.0@.len() ==> self.0@[j] == old(self).0@[j],
            decreases m - i,
        {
            let r = rhs.0[i];
            proof {
                assert(rhs@[i as int] == r.0);
                if i < n {
                    assert(old(self)@[i as int] == old(self).0@[i as int].0);
                }
            }
            if i < n {
                let l = self.0[i];
                self.0[i] = l + r;
            } else {
                proof {
                    lemma_gf_add_laws(r.0, 0, 0);
                }
                self.0.push(r);
            }
            i = i + 1;
        }
        proof {
            assert forall|j: int| 0 <= j < self.0@.len() implies self@[j] == poly_add(
                old(self)@,
                rhs@,
            )[j] by {
                if j >= m {
                    assert(old(self)@[j] == old(self).0@[j].0);
                    lemma_gf_add_laws(old(self)@[j], 0, 0);
                } else {
                    assert(self.0@[j].0 == poly_add(old(self)@, rhs@)[j]);
                }
            }
            assert(self@ =~= poly_add(old(self)@, rhs@));
        }
    }
}

impl core::ops::Add for GfPolynomial {
    type Output = GfPolynomial;

    fn add(self, rhs: GfPolynomial) -> (ret: GfPolynomial)
        ensures
            ret@ == poly_add(self@, rhs@),
    {
        let mut sum = self;
        core::ops::AddAssign::add_assign(&mut sum, rhs);
        sum
    }
}

impl vstd::std_specs::ops::AddSpecImpl for GfPolynomial {
    open spec fn obeys_add_spec() -> bool {
        false
    }

    open spec fn add_req(self, rhs: GfPolynomial) -> bool {
        true
    }

    open spec fn add_spec(self, rhs: GfPolynomial) -> GfPolynomial {
        self
    }
}

} // verus!
