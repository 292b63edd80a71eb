//! The field `GF(2^32)` with the polynomial `x^32 + x^22 + x^2 + x + 1`, and
//! polynomials over it.

use crate::shamir::binary::{
    bit_len, is_division, lemma_bit_len_below, lemma_bit_len_top, lemma_below_xor,
    lemma_division_step, lemma_euclid_step, lemma_first_quotient, lemma_mul_low_add_left,
    lemma_mul_low_add_right, lemma_mul_low_in_ring, lemma_mul_low_zero_left,
    lemma_mul_low_zero_right, lemma_polynomial_irreducible, lemma_ring_mul_agree,
    lemma_ring_mul_associates, lemma_ring_mul_commutes, lemma_ring_mul_one_left,
    lemma_ring_mul_one_right, lemma_xor, mul_low, ring_mul, times_x, POLYNOMIAL,
    TRUNC_POLYNOMIAL,
};
use crate::rng::random_u32;
use vstd::prelude::*;
use vstd::slice::slice_subrange;

verus! {

/// What can go wrong in an interpolation.
#[derive(Debug, PartialEq, Eq)]
pub enum Error {
    /// The number of points is not the degree plus one.
    NumPointsMismatch { needed: usize, num_points: usize },
    /// A point has the x value zero, which has no inverse.
    NonInvertiblePoint,
}

/// Primitive uint type for GfElems.
pub type GfElemPrimitive = u32;

/// The sum of two field elements: the sum of their coefficients modulo 2.
pub open spec fn gf_add(a: u32, b: u32) -> u32 {
    a ^ b
}

/// The product of two field elements: the product of the two polynomials
/// modulo the field polynomial.
pub open spec fn gf_mul(a: u32, b: u32) -> u32 {
    ring_mul(false, a as u64, b as u64) as u32
}

/// The power `a^n`.
pub open spec fn gf_pow(a: u32, n: nat) -> u32
    decreases n,
{
    if n == 0 {
        1
    } else {
        gf_mul(a, gf_pow(a, (n - 1) as nat))
    }
}

/// The multiplicative inverse of a non-zero field element.
pub open spec fn gf_inv(a: u32) -> u32 {
    choose|t: u32| gf_mul(a, t) == 1
}

/// The quotient `a / b` for a non-zero `b`.
pub open spec fn gf_div(a: u32, b: u32) -> u32 {
    gf_mul(a, gf_inv(b))
}

proof fn lemma_mul_step_bits(a: u32, b: u32, p: u32, mask: u64, keep: u32)
    by (bit_vector)
    ensures
        (a >> 31) & 1 == 0 || (a >> 31) & 1 == 1,
        b & 1 == 0 || b & 1 == 1,
        keep == (if b & 1 == 1 {
            0xffff_ffffu32
        } else {
            0u32
        }) ==> (a & keep) as u64 == (if (b as u64) & 1 == 1 {
            a as u64
        } else {
            0u64
        }),
        (p ^ a) as u64 == (p as u64) ^ (a as u64),
        mask == (if (a >> 31) & 1 == 1 {
            0xffff_ffffu64
        } else {
            0u64
        }) ==> ((((a as u64) << 1) ^ (0x1_0040_0007u64 & mask)) as u32) as u64 == (((a as u64)
            << 1) & 0xffff_ffff) ^ (if (a as u64) & 0x8000_0000 != 0 {
            0x0040_0007u64
        } else {
            0u64
        }),
        (b >> 1) as u64 == (b as u64) >> 1,
        (p as u64) ^ 0 == p as u64,
{
}

impl GfElem {
    /// A modified Russian Peasant Multiplication which avoids branching on the
    /// operands by using masks instead.
    pub fn polynomial_mul(a: u32, b: u32) -> (p: u32)
        ensures
            p == gf_mul(a, b),
    {
        let mut p: u32 = 0;
        let mut x: u32 = a;
        let mut y: u32 = b;
        proof {
            lemma_mul_step_bits(0, 0, 0, 0, 0);
            lemma_mul_low_in_ring(false, a as u64, b as u64, 32);
            assert((0u32 as u64) ^ ring_mul(false, a as u64, b as u64) == ring_mul(
                false,
                a as u64,
                b as u64,
            )) by {
                lemma_xor(ring_mul(false, a as u64, b as u64), 0, 0, 0);
            }
        }
        for i in 0..32u32
            invariant
                (p as u64) ^ mul_low(false, x as u64, y as u64, (32 - i) as nat) == ring_mul(
                    false,
                    a as u64,
                    b as u64,
                ),
        {
            let top: u32 = (x >> 31) & 1;
            let low: u32 = y & 1;
            proof {
                lemma_mul_step_bits(x, y, p, 0, 0);
            }
            let mask: u64 = 0u32.wrapping_sub(top) as u64;
            let keep: u32 = 0u32.wrapping_sub(low);
            let term: u32 = x & keep;
            proof {
                lemma_mul_step_bits(x, y, p, mask, keep);
                lemma_mul_step_bits(term, y, p, mask, keep);
                let rest = mul_low(false, times_x(false, x as u64), (y as u64) >> 1, (31 - i) as nat);
                lemma_xor(p as u64, term as u64, rest, 0);
            }
            p = p ^ term;
            x = #[verifier::truncate]
            ((((x as u64) << 1) ^ (POLYNOMIAL & mask)) as u32);
            y = y >> 1;
        }
        proof {
            lemma_mul_step_bits(0, 0, p, 0, 0);
            lemma_mul_low_in_ring(false, a as u64, b as u64, 32);
        }
        p
    }
}

/// Multiplication in the field distributes over addition, on either side.
pub proof fn lemma_gf_mul_add(a: u32, b: u32, c: u32)
    ensures
        gf_mul(a, b ^ c) == gf_mul(a, b) ^ gf_mul(a, c),
        gf_mul(b ^ c, a) == gf_mul(b, a) ^ gf_mul(c, a),
{
    lemma_mul_low_add_right(false, a as u64, b as u64, c as u64, 32);
    lemma_mul_low_add_left(false, b as u64, c as u64, a as u64, 32);
    lemma_mul_low_in_ring(false, a as u64, b as u64, 32);
    lemma_mul_low_in_ring(false, a as u64, c as u64, 32);
    lemma_mul_low_in_ring(false, b as u64, a as u64, 32);
    lemma_mul_low_in_ring(false, c as u64, a as u64, 32);
    lemma_cast_bits(b, c, ring_mul(false, a as u64, b as u64), ring_mul(false, a as u64, c as u64));
    lemma_cast_bits(b, c, ring_mul(false, b as u64, a as u64), ring_mul(false, c as u64, a as u64));
}

proof fn lemma_cast_bits(a: u32, b: u32, x: u64, y: u64)
    by (bit_vector)
    ensures
        (a ^ b) as u64 == (a as u64) ^ (b as u64),
        x <= 0xffff_ffff && y <= 0xffff_ffff ==> (x ^ y) as u32 == (x as u32) ^ (y as u32),
        (a >> 1) as u64 == (a as u64) >> 1,
        a != 0 ==> a >> 1 < a,
        a ^ 0 == a,
        a ^ a == 0,
        a ^ b == b ^ a,
        (a ^ b) ^ a == b,
        (0x0040_0007u32 as u64) | 0x1_0000_0000 == 0x1_0040_0007,
        x <= 0xffff_ffff ==> (x as u32) as u64 == x,
        0x1_0040_0007u64 >> 33 == 0,
{
}

/// Multiplication in the field is commutative.
pub proof fn lemma_gf_mul_commutes(a: u32, b: u32)
    ensures
        gf_mul(a, b) == gf_mul(b, a),
{
    lemma_ring_mul_commutes(false, a as u64, b as u64);
}

/// Multiplication in the field is associative.
pub proof fn lemma_gf_mul_associates(a: u32, b: u32, c: u32)
    ensures
        gf_mul(gf_mul(a, b), c) == gf_mul(a, gf_mul(b, c)),
{
    lemma_ring_mul_associates(false, a as u64, b as u64, c as u64);
    lemma_mul_low_in_ring(false, a as u64, b as u64, 32);
    lemma_mul_low_in_ring(false, b as u64, c as u64, 32);
}

/// One is neutral and zero absorbs.
pub proof fn lemma_gf_mul_units(a: u32)
    ensures
        gf_mul(a, 1) == a,
        gf_mul(1, a) == a,
        gf_mul(a, 0) == 0,
        gf_mul(0, a) == 0,
{
    lemma_ring_mul_one_right(false, a as u64);
    lemma_ring_mul_one_left(false, a as u64);
    lemma_mul_low_zero_right(false, a as u64, 32);
    lemma_mul_low_zero_left(false, a as u64, 32);
}

/// A field element has at most one inverse.
pub proof fn lemma_gf_inverse_unique(a: u32, s: u32, t: u32)
    requires
        gf_mul(a, s) == 1,
        gf_mul(a, t) == 1,
    ensures
        s == t,
{
    lemma_gf_mul_associates(s, a, t);
    lemma_gf_mul_commutes(s, a);
    lemma_gf_mul_units(s);
    lemma_gf_mul_units(t);
}

/// The number of significant bits of `p`.
fn msb(p: u32) -> (n: u32)
    ensures
        n == bit_len(p as u64),
        n <= 32,
{
    let mut n: u32 = 0;
    let mut v: u32 = p;
    proof {
        lemma_bit_len_top(p as u64);
    }
    while v != 0
        invariant
            n + bit_len(v as u64) == bit_len(p as u64),
            bit_len(p as u64) <= 32,
        decreases v,
    {
        proof {
            lemma_cast_bits(v, 0, 0, 0);
        }
        v = v >> 1;
        n = n + 1;
    }
    n
}

/// What is divided: `a`, with the term `x^32` added where `carry` is set.
pub open spec fn dividend(a: u32, carry: bool) -> u64 {
    if carry {
        (a as u64) | 0x1_0000_0000
    } else {
        a as u64
    }
}

/// The whole quotient, of which `q` holds the terms below `x^32`: it has the
/// term `x^32` only where `x^32 + a` is divided by one.
pub open spec fn whole_quotient(q: u32, b: u32, carry: bool) -> u64 {
    if carry && b == 1 {
        (q as u64) | 0x1_0000_0000
    } else {
        q as u64
    }
}

proof fn lemma_div_bits(r: u32, b: u32, q: u32, n: u32, m: u32)
    by (bit_vector)
    requires
        1 <= m <= n <= 32,
        (r as u64) >> ((n - 1) as u64) == 1,
        (b as u64) >> ((m - 1) as u64) == 1,
    ensures
        (r ^ (b << ((n - m) as u32))) as u64 == (r as u64) ^ ((b as u64) << ((n - m) as u64)),
        ((r ^ (b << ((n - m) as u32))) as u64) >> ((n - 1) as u64) == 0,
        (q ^ (1u32 << ((n - m) as u32))) as u64 == (q as u64) ^ (1u64 << ((n - m) as u64)),
        (1u64 << ((n - m) as u64)) >> ((n - m + 1) as u64) == 0,
{
}

proof fn lemma_carry_bits(a: u32, b: u32, m: u32)
    by (bit_vector)
    requires
        1 <= m <= 32,
        (b as u64) >> ((m - 1) as u64) == 1,
    ensures
        m >= 2 ==> (a ^ (b << ((33 - m) as u32))) as u64 == ((a as u64) | 0x1_0000_0000) ^ ((
        b as u64) << ((33 - m) as u64)),
        m >= 2 ==> (1u32 << ((33 - m) as u32)) as u64 == 1u64 << ((33 - m) as u64),
        m == 1 ==> b == 1 && a as u64 == ((a as u64) | 0x1_0000_0000) ^ ((b as u64) << 32),
        m >= 2 ==> b != 1,
        (1u64 << 32) == 0x1_0000_0000,
        (a as u64) | 0x1_0000_0000 == (a as u64) ^ 0x1_0000_0000,
        ((a as u64) | 0x1_0000_0000) >> 33 == 0,
        ((a as u64) | 0x1_0000_0000) >> 32 != 0,
        (1u64 << ((33 - m) as u64)) >> ((34 - m) as u64) == 0,
        (0u32 as u64) ^ (1u64 << 32) == 0x1_0000_0000,
{
}

impl GfElem {
    /// Euclidean division of polynomials over GF(2): `a = b * q + r` with `r` of
    /// lower degree than `b`. With `carry` set, `x^32 + a` is divided. Returns
    /// `(q, r)`.
    #[verifier::rlimit(40)]
    pub fn polynomial_div(a: u32, b: u32, carry: bool) -> (res: (u32, u32))
        requires
            b != 0,
        ensures
            is_division(dividend(a, carry), b as u64, whole_quotient(res.0, b, carry), res.1 as u64),
    {
        let bmsb = msb(b);
        let mut q: u32 = 0;
        let mut r: u32 = a;
        let ghost big = dividend(a, carry);
        let ghost hi: u64 = if carry && b == 1 { 0x1_0000_0000 } else { 0 };
        let ghost mut full: u64 = 0;
        proof {
            lemma_bit_len_top(b as u64);
            lemma_bit_len_top(a as u64);
            lemma_bit_len_top(big);
            lemma_mul_low_zero_left(true, b as u64, 64);
            lemma_xor(a as u64, 0, 0, 0);
            lemma_xor(big, 0, 0, 0);
            lemma_xor(hi, 0, 0, 0);
            lemma_carry_bits(a, b, bmsb);
            lemma_bit_len_below(big, 33);
            lemma_bit_len_below(big, 32);
        }
        if carry {
            let shift: u32 = 33 - bmsb;
            proof {
                lemma_division_step(big, b as u64, 0, big, shift as nat);
                full = 1u64 << (shift as u64);
                lemma_xor(full, 0, 0, 0);
                lemma_bit_len_below(full, (34 - bmsb) as nat);
            }
            if shift < 32 {
                proof {
                    lemma_cast_bits(1u32 << shift, 0, 0, 0);
                }
                q = q ^ (1u32 << shift);
                r = r ^ (b << shift);
            }
        }
        let mut rmsb = msb(r);
        while rmsb >= bmsb
            invariant
                b != 0,
                bmsb == bit_len(b as u64),
                rmsb == bit_len(r as u64),
                big == dividend(a, carry),
                ring_mul(true, full, b as u64) ^ (r as u64) == big,
                full == (q as u64) ^ hi,
                hi == 0 || hi == 0x1_0000_0000,
                full == 0 || bit_len(full) + bmsb <= bit_len(big) + 1,
                rmsb <= bit_len(big),
                rmsb <= 32,
            decreases rmsb,
        {
            let shift: u32 = rmsb - bmsb;
            proof {
                lemma_bit_len_top(b as u64);
                lemma_bit_len_top(r as u64);
                lemma_bit_len_top(full);
                lemma_div_bits(r, b, q, rmsb, bmsb);
                lemma_division_step(big, b as u64, full, r as u64, shift as nat);
                lemma_xor(q as u64, hi, 1u64 << (shift as u64), 0);
                lemma_xor(q as u64, 1u64 << (shift as u64), hi, 0);
                lemma_xor(hi, 1u64 << (shift as u64), 0, 0);
                let k = (bit_len(big) + 1 - bmsb) as nat;
                lemma_bit_len_below(1u64 << (shift as u64), (shift + 1) as nat);
                lemma_below_xor(full, 1u64 << (shift as u64), bit_len(full), (shift + 1) as nat, k);
                lemma_bit_len_below(full ^ (1u64 << (shift as u64)), k);
                lemma_bit_len_below((r ^ (b << shift)) as u64, (rmsb - 1) as nat);
                full = full ^ (1u64 << (shift as u64));
            }
            q = q ^ (1u32 << shift);
            r = r ^ (b << shift);
            rmsb = msb(r);
        }
        proof {
            lemma_bit_len_top(b as u64);
            lemma_carry_bits(q, b, bmsb);
            lemma_xor(q as u64, 0, 0, 0);
        }
        (q, r)
    }
}

/// One step of the extended Euclidean algorithm, read in the field: the
/// cofactor of the new remainder.
proof fn lemma_inverse_step(a: u32, t: u32, newt: u32, r: u32, newr: u32, q: u32, ri: u32)
    requires
        gf_mul(t, a) == r,
        gf_mul(newt, a) == newr,
        is_division(r as u64, newr as u64, q as u64, ri as u64),
        bit_len(newr as u64) < bit_len(r as u64),
    ensures
        gf_mul(t ^ gf_mul(q, newt), a) == ri,
{
    let w = ring_mul(true, q as u64, newr as u64);
    lemma_gf_mul_add(a, t, gf_mul(q, newt));
    lemma_gf_mul_associates(q, newt, a);
    lemma_bit_len_top(q as u64);
    lemma_bit_len_top(newr as u64);
    lemma_bit_len_top(r as u64);
    lemma_ring_mul_agree(q as u64, newr as u64, bit_len(q as u64), bit_len(newr as u64));
    lemma_mul_low_in_ring(false, q as u64, newr as u64, 32);
    lemma_cast_bits(w as u32, ri, w, ri as u64);
    lemma_cast_bits(0, 0, (r as u64), 0);
    lemma_cast_bits(0, 0, (ri as u64), 0);
}

/// A field element of `GF(2^32)`, with characteristic polynomial
/// `x^32 + x^22 + x^2 + x^1 + 1`.
#[derive(Copy, Clone, Debug, Hash, PartialEq, Eq, Structural)]
pub struct GfElem(pub u32);

/// (x, y) in GF.
pub type GfPoint = (GfElem, GfElem);

impl GfElem {
    /// Additive identity.
    pub fn zero() -> (e: GfElem)
        ensures
            e.0 == 0,
    {
        GfElem(0)
    }

    /// Multiplicative identity.
    pub fn one() -> (e: GfElem)
        ensures
            e.0 == 1,
    {
        GfElem(1)
    }

    /// The integer that holds the coefficients.
    pub fn inner(&self) -> (v: u32)
        ensures
            v == self.0,
    {
        self.0
    }

    /// The element whose coefficients are the bits of `v`.
    pub fn from_inner(v: u32) -> (e: GfElem)
        ensures
            e.0 == v,
    {
        GfElem(v)
    }

    /// The multiplicative inverse, by the extended Euclidean algorithm on the
    /// field polynomial and `self`. Zero has none.
    #[verifier::rlimit(40)]
    pub fn inverse(self) -> (res: Option<GfElem>)
        ensures
            self.0 == 0 <==> res is None,
            res matches Some(t) ==> gf_mul(self.0, t.0) == 1 && t.0 == gf_inv(self.0),
    {
        let a = self.0;
        if a == 0 {
            return None;
        }
        let (q1, r1) = GfElem::polynomial_div(TRUNC_POLYNOMIAL, a, true);
        let mut t: u32 = 1;
        let mut newt: u32 = q1;
        let mut r: u32 = a;
        let mut newr: u32 = r1;
        let ghost mut alpha: u64 = whole_quotient(q1, a, true);
        let ghost mut beta: u64 = 1;
        proof {
            lemma_cast_bits(0, 0, 0, 0);
            lemma_bit_len_top(a as u64);
            lemma_bit_len_top(r1 as u64);
            lemma_bit_len_top(1);
            lemma_bit_len_below(POLYNOMIAL, 33);
            lemma_ring_mul_one_left(true, r1 as u64);
            lemma_gf_mul_units(a);
            if a != 1 {
                lemma_first_quotient(a as u64, q1 as u64, r1 as u64);
            }
        }
        while newr != 0
            invariant
                a != 0,
                r != 0,
                gf_mul(t, a) == r,
                newr != 0 ==> gf_mul(newt, a) == newr,
                ring_mul(true, alpha, r as u64) ^ ring_mul(true, beta, newr as u64) == POLYNOMIAL,
                bit_len(alpha) + bit_len(r as u64) <= 34,
                bit_len(beta) + bit_len(r as u64) <= 33,
                bit_len(newr as u64) < bit_len(r as u64),
            decreases bit_len(newr as u64),
        {
            let (qi, ri) = GfElem::polynomial_div(r, newr, false);
            proof {
                lemma_inverse_step(a, t, newt, r, newr, qi, ri);
                lemma_euclid_step(alpha, beta, r as u64, newr as u64, qi as u64, ri as u64);
                let next = ring_mul(true, alpha, qi as u64) ^ beta;
                beta = alpha;
                alpha = next;
            }
            let tmpt = newt;
            newt = t ^ GfElem::polynomial_mul(qi, newt);
            t = tmpt;
            let tmpr = newr;
            newr = ri;
            r = tmpr;
        }
        proof {
            lemma_mul_low_zero_right(true, beta, 64);
            lemma_xor(ring_mul(true, alpha, r as u64), 0, 0, 0);
            lemma_polynomial_irreducible(alpha, r as u64);
            lemma_gf_mul_commutes(t, a);
            lemma_gf_inverse_unique(a, t, gf_inv(a));
        }
        Some(GfElem(t))
    }
}

proof fn lemma_div_bits_wide(a: u64, b: u64, n: u64, m: u64)
    by (bit_vector)
    requires
        1 <= m <= n <= 64,
        a >> ((n - 1) as u64) == 1,
        b >> ((m - 1) as u64) == 1,
    ensures
        (a ^ (b << ((n - m) as u64))) >> ((n - 1) as u64) == 0,
        n - m < 63 ==> (1u64 << ((n - m) as u64)) >> ((n - m + 1) as u64) == 0,
{
}

/// Every plain polynomial can be divided by every one but zero.
proof fn lemma_division_exists(a: u64, b: u64) -> (res: (u64, u64))
    requires
        b != 0,
    ensures
        is_division(a, b, res.0, res.1),
    decreases bit_len(a),
{
    lemma_bit_len_top(a);
    lemma_bit_len_top(b);
    let n = bit_len(a);
    let m = bit_len(b);
    if n < m {
        lemma_mul_low_zero_left(true, b, 64);
        lemma_xor(a, 0, 0, 0);
        (0, a)
    } else {
        let s = (n - m) as nat;
        let e = 1u64 << (s as u64);
        let rest = a ^ (b << (s as u64));
        lemma_div_bits_wide(a, b, n as u64, m as u64);
        lemma_bit_len_below(rest, (n - 1) as nat);
        let (q, r) = lemma_division_exists(rest, b);
        lemma_division_step(rest, b, q, r, s);
        let x = ring_mul(true, q ^ e, b);
        let sh = b << (s as u64);
        assert(x ^ (r ^ sh) == a ^ sh);
        lemma_xor(x, r, sh, 0);
        lemma_xor(x ^ r, sh, sh, 0);
        lemma_xor(x ^ r, 0, 0, 0);
        lemma_xor(a, sh, sh, 0);
        lemma_xor(a, 0, 0, 0);
        lemma_xor(sh, 0, 0, 0);
        assert(x ^ r == a);
        lemma_bit_len_top(q);
        lemma_bit_len_top(q ^ e);
        if s < 63 {
            lemma_bit_len_below(e, s + 1);
            lemma_below_xor(q, e, bit_len(q), s + 1, s + 1);
            lemma_bit_len_below(q ^ e, s + 1);
        }
        assert(bit_len(q ^ e) + m <= n + 1);
        (q ^ e, r)
    }
}

/// The extended Euclidean algorithm on the field polynomial and `a` ends
/// with an inverse of `a`.
proof fn lemma_euclid_ends(a: u32, t: u32, newt: u32, r: u32, newr: u32, alpha: u64, beta: u64)
    requires
        a != 0,
        r != 0,
        gf_mul(t, a) == r,
        newr != 0 ==> gf_mul(newt, a) == newr,
        ring_mul(true, alpha, r as u64) ^ ring_mul(true, beta, newr as u64) == POLYNOMIAL,
        bit_len(alpha) + bit_len(r as u64) <= 34,
        bit_len(beta) + bit_len(r as u64) <= 33,
        bit_len(newr as u64) < bit_len(r as u64),
    ensures
        exists|s: u32| gf_mul(a, s) == 1,
    decreases bit_len(newr as u64),
{
    if newr == 0 {
        lemma_mul_low_zero_right(true, beta, 64);
        lemma_xor(ring_mul(true, alpha, r as u64), 0, 0, 0);
        lemma_polynomial_irreducible(alpha, r as u64);
        lemma_gf_mul_commutes(t, a);
        assert(gf_mul(a, t) == 1);
    } else {
        let (q, ri) = lemma_division_exists(r as u64, newr as u64);
        lemma_bit_len_top(q);
        lemma_bit_len_top(ri);
        lemma_bit_len_top(r as u64);
        lemma_bit_len_top(newr as u64);
        lemma_bit_len_below(q, 32);
        lemma_bit_len_below(ri, 32);
        lemma_cast_bits(0, 0, q, ri);
        crate::shamir::binary::lemma_ring_bits(q, 32);
        crate::shamir::binary::lemma_ring_bits(ri, 32);
        lemma_inverse_step(a, t, newt, r, newr, q as u32, ri as u32);
        lemma_euclid_step(alpha, beta, r as u64, newr as u64, q, ri);
        lemma_euclid_ends(
            a,
            newt,
            t ^ gf_mul(q as u32, newt),
            newr,
            ri as u32,
            ring_mul(true, alpha, q) ^ beta,
            alpha,
        );
    }
}

/// Every field element but zero has an inverse.
pub proof fn lemma_gf_inverse_exists(a: u32)
    requires
        a != 0,
    ensures
        exists|s: u32| gf_mul(a, s) == 1,
{
    if a == 1 {
        lemma_gf_mul_units(1);
        assert(gf_mul(a, 1) == 1);
    } else {
        let (q, r1) = lemma_division_exists(POLYNOMIAL, a as u64);
        lemma_bit_len_top(a as u64);
        lemma_bit_len_top(r1);
        lemma_bit_len_top(q);
        lemma_bit_len_top(1);
        lemma_bit_len_below(POLYNOMIAL, 33);
        lemma_bit_len_below(r1, 32);
        crate::shamir::binary::lemma_ring_bits(r1, 32);
        lemma_cast_bits(0, 0, q, r1);
        lemma_first_quotient(a as u64, q, r1);
        lemma_cast_bits(0, 0, q, r1);
        lemma_ring_mul_one_left(true, r1);
        lemma_gf_mul_units(a);
        lemma_euclid_ends(a, 1, q as u32, a, r1 as u32, q, 1);
    }
}

/// Every field element but zero has an inverse.
pub proof fn lemma_gf_inverse(a: u32)
    requires
        a != 0,
    ensures
        gf_mul(a, gf_inv(a)) == 1,
        gf_mul(gf_inv(a), a) == 1,
        gf_inv(a) != 0,
{
    lemma_gf_inverse_exists(a);
    lemma_gf_mul_commutes(a, gf_inv(a));
    lemma_gf_mul_units(a);
}

/// Addition in the field is commutative and associative, zero is neutral,
/// and every element is its own additive inverse.
pub proof fn lemma_gf_add_laws(a: u32, b: u32, c: u32)
    by (bit_vector)
    ensures
        gf_add(a, b) == gf_add(b, a),
        gf_add(gf_add(a, b), c) == gf_add(a, gf_add(b, c)),
        gf_add(a, 0) == a,
        gf_add(0, a) == a,
        gf_add(a, a) == 0,
        gf_add(a, b) == 0 <==> a == b,
{
}

/// Dividing and multiplying by the same non-zero element cancel.
pub proof fn lemma_gf_div_mul(a: u32, b: u32)
    requires
        b != 0,
    ensures
        gf_mul(gf_div(a, b), b) == a,
        gf_div(gf_mul(a, b), b) == a,
        gf_div(b, b) == 1,
{
    lemma_gf_inverse(b);
    lemma_gf_mul_associates(a, gf_inv(b), b);
    lemma_gf_mul_associates(a, b, gf_inv(b));
    lemma_gf_mul_units(a);
}

/// A product in the field is zero only where a factor is.
pub proof fn lemma_gf_mul_zero(a: u32, b: u32)
    ensures
        gf_mul(a, b) == 0 <==> a == 0 || b == 0,
{
    lemma_gf_mul_units(a);
    lemma_gf_mul_units(b);
    if a != 0 && gf_mul(a, b) == 0 {
        lemma_gf_inverse(a);
        lemma_gf_mul_associates(gf_inv(a), a, b);
        lemma_gf_mul_units(gf_inv(a));
    }
}

/// Powers add up: `a^(m+n) = a^m * a^n`.
pub proof fn lemma_gf_pow_add(a: u32, m: nat, n: nat)
    ensures
        gf_pow(a, m + n) == gf_mul(gf_pow(a, m), gf_pow(a, n)),
    decreases m,
{
    if m == 0 {
        lemma_gf_mul_units(gf_pow(a, n));
    } else {
        lemma_gf_pow_add(a, (m - 1) as nat, n);
        lemma_gf_mul_associates(a, gf_pow(a, (m - 1) as nat), gf_pow(a, n));
    }
}

/// The power of a square: `(a * a)^n = a^(2n)`.
pub proof fn lemma_gf_pow_square(a: u32, n: nat)
    ensures
        gf_pow(gf_mul(a, a), n) == gf_pow(a, 2 * n),
    decreases n,
{
    if n > 0 {
        let m = (n - 1) as nat;
        lemma_gf_pow_square(a, m);
        lemma_gf_pow_add(a, 2, 2 * m);
        reveal_with_fuel(gf_pow, 3);
        lemma_gf_mul_units(a);
    }
}

impl GfElem {
    /// Raises `self` to the power `n`, by squaring.
    pub fn pow(self, n: usize) -> (res: GfElem)
        ensures
            res.0 == gf_pow(self.0, n as nat),
    {
        let mut mult: u32 = self.0;
        let mut result: u32 = 1;
        let mut k: usize = n;
        proof {
            lemma_gf_mul_units(gf_pow(self.0, n as nat));
        }
        while k != 0
            invariant
                gf_mul(result, gf_pow(mult, k as nat)) == gf_pow(self.0, n as nat),
            decreases k,
        {
            proof {
                let h = (k / 2) as nat;
                lemma_gf_pow_square(mult, h);
                if k % 2 == 1 {
                    lemma_gf_mul_associates(result, mult, gf_pow(mult, 2 * h));
                }
            }
            if k % 2 == 1 {
                result = GfElem::polynomial_mul(result, mult);
            }
            mult = GfElem::polynomial_mul(mult, mult);
            k = k / 2;
        }
        proof {
            lemma_gf_mul_units(result);
        }
        GfElem(result)
    }
}

impl core::ops::Add for GfElem {
    type Output = GfElem;

    fn add(self, rhs: GfElem) -> (ret: GfElem) {
        GfElem(self.0 ^ rhs.0)
    }
}

impl vstd::std_specs::ops::AddSpecImpl for GfElem {
    open spec fn obeys_add_spec() -> bool {
        true
    }

    open spec fn add_req(self, rhs: GfElem) -> bool {
        true
    }

    open spec fn add_spec(self, rhs: GfElem) -> GfElem {
        GfElem(gf_add(self.0, rhs.0))
    }
}

impl core::ops::Sub for GfElem {
    type Output = GfElem;

    fn sub(self, rhs: GfElem) -> (ret: GfElem) {
        GfElem(self.0 ^ rhs.0)
    }
}

impl vstd::std_specs::ops::SubSpecImpl for GfElem {
    open spec fn obeys_sub_spec() -> bool {
        true
    }

    open spec fn sub_req(self, rhs: GfElem) -> bool {
        true
    }

    open spec fn sub_spec(self, rhs: GfElem) -> GfElem {
        GfElem(gf_add(self.0, rhs.0))
    }
}

impl core::ops::Neg for GfElem {
    type Output = GfElem;

    fn neg(self) -> (ret: GfElem) {
        self
    }
}

impl vstd::std_specs::ops::NegSpecImpl for GfElem {
    open spec fn obeys_neg_spec() -> bool {
        true
    }

    open spec fn neg_req(self) -> bool {
        true
    }

    open spec fn neg_spec(self) -> GfElem {
        self
    }
}

impl core::ops::Mul for GfElem {
    type Output = GfElem;

    fn mul(self, rhs: GfElem) -> (ret: GfElem) {
        GfElem(GfElem::polynomial_mul(self.0, rhs.0))
    }
}

impl vstd::std_specs::ops::MulSpecImpl for GfElem {
    open spec fn obeys_mul_spec() -> bool {
        true
    }

    open spec fn mul_req(self, rhs: GfElem) -> bool {
        true
    }

    open spec fn mul_spec(self, rhs: GfElem) -> GfElem {
        GfElem(gf_mul(self.0, rhs.0))
    }
}

impl core::ops::Div for GfElem {
    type Output = GfElem;

    fn div(self, rhs: GfElem) -> (ret: GfElem) {
        let inv = rhs.inverse();
        GfElem(GfElem::polynomial_mul(self.0, inv.unwrap().0))
    }
}

impl vstd::std_specs::ops::DivSpecImpl for GfElem {
    open spec fn obeys_div_spec() -> bool {
        true
    }

    open spec fn div_req(self, rhs: GfElem) -> bool {
        rhs.0 != 0
    }

    open spec fn div_spec(self, rhs: GfElem) -> GfElem {
        GfElem(gf_div(self.0, rhs.0))
    }
}

impl core::ops::AddAssign for GfElem {
    fn add_assign(&mut self, rhs: GfElem)
        ensures
            final(self).0 == gf_add(old(self).0, rhs.0),
    {
        self.0 = self.0 ^ rhs.0;
    }
}

impl core::ops::SubAssign for GfElem {
    fn sub_assign(&mut self, rhs: GfElem)
        ensures
            final(self).0 == gf_add(old(self).0, rhs.0),
    {
        self.0 = self.0 ^ rhs.0;
    }
}

impl core::ops::MulAssign for GfElem {
    fn mul_assign(&mut self, rhs: GfElem)
        ensures
            final(self).0 == gf_mul(old(self).0, rhs.0),
    {
        self.0 = GfElem::polynomial_mul(self.0, rhs.0);
    }
}

impl core::ops::DivAssign for GfElem {
    fn div_assign(&mut self, rhs: GfElem)
        requires
            rhs.0 != 0,
        ensures
            final(self).0 == gf_div(old(self).0, rhs.0),
    {
        let inv = rhs.inverse();
        self.0 = GfElem::polynomial_mul(self.0, inv.unwrap().0);
    }
}

/// The byte `i` of `bytes`, and zero beyond its end.
pub open spec fn byte_at(bytes: Seq<u8>, i: int) -> nat {
    if 0 <= i < bytes.len() {
        bytes[i] as nat
    } else {
        0
    }
}

/// The little-endian value of the first four bytes of `bytes`, padded with
/// zeroes where it is shorter.
pub open spec fn le_u32(bytes: Seq<u8>) -> nat {
    byte_at(bytes, 0) + 0x100 * byte_at(bytes, 1) + 0x1_0000 * byte_at(bytes, 2) + 0x100_0000
        * byte_at(bytes, 3)
}

/// The four bytes of `v` in little-endian order.
pub open spec fn le_bytes(v: u32) -> Seq<u8> {
    seq![
        (v % 0x100) as u8,
        ((v / 0x100) % 0x100) as u8,
        ((v / 0x1_0000) % 0x100) as u8,
        (v / 0x100_0000) as u8,
    ]
}

/// The bytes of a value give the value back.
pub proof fn lemma_le_bytes_value(v: u32)
    ensures
        le_u32(le_bytes(v)) == v,
{
    let s = le_bytes(v);
    assert(s[0] == (v % 0x100) as u8);
    assert(s[1] == ((v / 0x100) % 0x100) as u8);
    assert(s[2] == ((v / 0x1_0000) % 0x100) as u8);
    assert(s[3] == (v / 0x100_0000) as u8);
}

/// The value of up to four bytes gives the bytes back, padded with zeroes.
#[verifier::rlimit(40)]
pub proof fn lemma_le_value_bytes(bytes: Seq<u8>)
    ensures
        le_u32(bytes) <= u32::MAX,
        forall|i: int| 0 <= i < 4 ==> le_bytes(le_u32(bytes) as u32)[i] == byte_at(bytes, i),
{
    let b0 = byte_at(bytes, 0) as int;
    let b1 = byte_at(bytes, 1) as int;
    let b2 = byte_at(bytes, 2) as int;
    let b3 = byte_at(bytes, 3) as int;
    let v = le_u32(bytes) as int;
    vstd::arithmetic::div_mod::lemma_fundamental_div_mod_converse(
        v,
        0x100,
        b1 + 0x100 * b2 + 0x1_0000 * b3,
        b0,
    );
    vstd::arithmetic::div_mod::lemma_fundamental_div_mod_converse(
        v / 0x100,
        0x100,
        b2 + 0x100 * b3,
        b1,
    );
    vstd::arithmetic::div_mod::lemma_fundamental_div_mod_converse(
        v,
        0x1_0000,
        b2 + 0x100 * b3,
        b0 + 0x100 * b1,
    );
    vstd::arithmetic::div_mod::lemma_fundamental_div_mod_converse(v / 0x1_0000, 0x100, b3, b2);
    vstd::arithmetic::div_mod::lemma_fundamental_div_mod_converse(
        v,
        0x100_0000,
        b3,
        b0 + 0x100 * b1 + 0x1_0000 * b2,
    );
    let s = le_bytes(v as u32);
    assert(s[0] == b0);
    assert(s[1] == b1);
    assert(s[2] == b2);
    assert(s[3] == b3);
}

impl GfElem {
    /// A random field element.
    pub fn new_rand() -> GfElem {
        GfElem(random_u32())
    }

    /// Reads up to four bytes in little-endian order, padded with zeroes
    /// where there are fewer, and returns the element and the bytes that
    /// are left.
    pub fn from_bytes_partial(bytes: &[u8]) -> (res: (GfElem, &[u8]))
        ensures
            res.0.0 == le_u32(bytes@),
            res.1@ == bytes@.skip(if bytes@.len() < 4 {
                bytes@.len() as int
            } else {
                4
            }),
    {
        let n = bytes.len();
        let len: usize = if n < 4 {
            n
        } else {
            4
        };
        let b0: u32 = if len > 0 {
            bytes[0] as u32
        } else {
            0
        };
        let b1: u32 = if len > 1 {
            bytes[1] as u32
        } else {
            0
        };
        let b2: u32 = if len > 2 {
            bytes[2] as u32
        } else {
            0
        };
        let b3: u32 = if len > 3 {
            bytes[3] as u32
        } else {
            0
        };
        let v: u32 = b0 + 0x100 * b1 + 0x1_0000 * b2 + 0x100_0000 * b3;
        (GfElem(v), slice_subrange(bytes, len, n))
    }

    /// The element that at most four bytes hold in little-endian order.
    pub fn from_bytes(bytes: &[u8]) -> (e: GfElem)
        requires
            bytes@.len() <= 4,
        ensures
            e.0 == le_u32(bytes@),
    {
        let (elem, _remain) = GfElem::from_bytes_partial(bytes);
        elem
    }

    /// The four bytes of the element in little-endian order.
    pub fn to_bytes(self) -> (bytes: Vec<u8>)
        ensures
            bytes@ == le_bytes(self.0),
    {
        let v = self.0;
        let mut bytes: Vec<u8> = Vec::new();
        bytes.push((v % 0x100) as u8);
        bytes.push(((v / 0x100) % 0x100) as u8);
        bytes.push(((v / 0x1_0000) % 0x100) as u8);
        bytes.push((v / 0x100_0000) as u8);
        assert(bytes@ =~= le_bytes(v));
        bytes
    }
}

} // verus!
