//! Polynomials over GF(2) held in machine words, bit `i` being the coefficient
//! of `x^i`, and the two rings of them that the field arithmetic needs.
//!
//! With `wide` set, products are taken modulo `x^64`, which is the plain
//! product of polynomials as long as its degree stays below 64. Without it
//! they are taken modulo the field polynomial `x^32 + x^22 + x^2 + x + 1`, on
//! values below `2^32`: this is multiplication in `GF(2^32)`.

use vstd::prelude::*;

verus! {

/// The field polynomial, bit 32 included.
pub const POLYNOMIAL: u64 = 0x1_0040_0007;

/// The field polynomial without its leading term.
pub const TRUNC_POLYNOMIAL: u32 = 0x0040_0007;

/// The product of `a` and the polynomial `x`.
pub open spec fn times_x(wide: bool, a: u64) -> u64 {
    if wide {
        a << 1
    } else {
        ((a << 1) & 0xffff_ffff) ^ (if a & 0x8000_0000 != 0 {
            0x0040_0007u64
        } else {
            0u64
        })
    }
}

/// The product of `a` and `x^k`.
pub open spec fn times_x_pow(wide: bool, a: u64, k: nat) -> u64
    decreases k,
{
    if k == 0 {
        a
    } else {
        times_x(wide, times_x_pow(wide, a, (k - 1) as nat))
    }
}

/// Whether `a` is an element of the ring.
pub open spec fn in_ring(wide: bool, a: u64) -> bool {
    wide || a <= 0xffff_ffff
}

/// The number of coefficients of an element of the ring.
pub open spec fn width(wide: bool) -> nat {
    if wide {
        64
    } else {
        32
    }
}

/// The product of `a` and the `n` lowest terms of `b`: the sum of `a * x^i`
/// over the `i < n` at which `b` has a term.
pub open spec fn mul_low(wide: bool, a: u64, b: u64, n: nat) -> u64
    decreases n,
{
    if n == 0 {
        0
    } else {
        (if b & 1 == 1 {
            a
        } else {
            0
        }) ^ mul_low(wide, times_x(wide, a), b >> 1, (n - 1) as nat)
    }
}

/// The product of `a` and `b` in the ring.
pub open spec fn ring_mul(wide: bool, a: u64, b: u64) -> u64 {
    mul_low(wide, a, b, width(wide))
}

/// Whether `a` has no term of degree `n` or above.
pub open spec fn below(a: u64, n: nat) -> bool {
    n >= 64 || a >> (n as u64) == 0
}

pub proof fn lemma_xor(a: u64, b: u64, c: u64, d: u64)
    by (bit_vector)
    ensures
        (a ^ b) ^ (c ^ d) == (a ^ c) ^ (b ^ d),
        (a ^ b) ^ c == a ^ (b ^ c),
        a ^ b == b ^ a,
        a ^ 0 == a,
        0 ^ a == a,
        a ^ a == 0,
        ((a ^ b) & 1 == 1) == ((a & 1 == 1) != (b & 1 == 1)),
        (a ^ b) >> 1 == (a >> 1) ^ (b >> 1),
        (a ^ b) << 1 == (a << 1) ^ (b << 1),
        0u64 & 1 == 0,
        0u64 >> 1 == 0,
        0u64 << 1 == 0,
        1u64 & 1 == 1,
        1u64 >> 1 == 0,
        a <= 0xffff_ffff && b <= 0xffff_ffff ==> (a ^ b) <= 0xffff_ffff,
{
}

pub proof fn lemma_times_x_bits(a: u64, b: u64, t: u64)
    by (bit_vector)
    ensures
        (((a ^ b) << 1) & 0xffff_ffff) ^ (if (a ^ b) & 0x8000_0000 != 0 {
            t
        } else {
            0u64
        }) == (((a << 1) & 0xffff_ffff) ^ (if a & 0x8000_0000 != 0 {
            t
        } else {
            0u64
        })) ^ (((b << 1) & 0xffff_ffff) ^ (if b & 0x8000_0000 != 0 {
            t
        } else {
            0u64
        })),
        ((0u64 << 1) & 0xffff_ffff) ^ (if 0u64 & 0x8000_0000 != 0 {
            t
        } else {
            0u64
        }) == 0,
        t <= 0xffff_ffff ==> (((a << 1) & 0xffff_ffff) ^ (if a & 0x8000_0000 != 0 {
            t
        } else {
            0u64
        })) <= 0xffff_ffff,
{
}

/// Multiplying by `x` is linear and stays in the ring.
pub proof fn lemma_times_x(wide: bool, a: u64, b: u64)
    ensures
        times_x(wide, a ^ b) == times_x(wide, a) ^ times_x(wide, b),
        times_x(wide, 0) == 0,
        in_ring(wide, a) ==> in_ring(wide, times_x(wide, a)),
{
    lemma_xor(a, b, 0, 0);
    lemma_times_x_bits(a, b, 0x0040_0007);
}

/// A product with zero on the right is zero.
pub proof fn lemma_mul_low_zero_right(wide: bool, a: u64, n: nat)
    ensures
        mul_low(wide, a, 0, n) == 0,
    decreases n,
{
    if n > 0 {
        lemma_xor(0, 0, 0, 0);
        lemma_mul_low_zero_right(wide, times_x(wide, a), (n - 1) as nat);
    }
}

/// A product with zero on the left is zero.
pub proof fn lemma_mul_low_zero_left(wide: bool, b: u64, n: nat)
    ensures
        mul_low(wide, 0, b, n) == 0,
    decreases n,
{
    if n > 0 {
        lemma_xor(0, 0, 0, 0);
        lemma_times_x(wide, 0, 0);
        lemma_mul_low_zero_left(wide, b >> 1, (n - 1) as nat);
    }
}

/// The product stays in the ring.
pub proof fn lemma_mul_low_in_ring(wide: bool, a: u64, b: u64, n: nat)
    requires
        in_ring(wide, a),
    ensures
        in_ring(wide, mul_low(wide, a, b, n)),
    decreases n,
{
    if n > 0 {
        lemma_times_x(wide, a, a);
        lemma_mul_low_in_ring(wide, times_x(wide, a), b >> 1, (n - 1) as nat);
        lemma_xor(a, mul_low(wide, times_x(wide, a), b >> 1, (n - 1) as nat), 0, 0);
        lemma_xor(0, mul_low(wide, times_x(wide, a), b >> 1, (n - 1) as nat), 0, 0);
    }
}

/// Multiplication distributes over addition on the left.
pub proof fn lemma_mul_low_add_left(wide: bool, a: u64, c: u64, b: u64, n: nat)
    ensures
        mul_low(wide, a ^ c, b, n) == mul_low(wide, a, b, n) ^ mul_low(wide, c, b, n),
    decreases n,
{
    if n > 0 {
        let m = (n - 1) as nat;
        lemma_times_x(wide, a, c);
        lemma_mul_low_add_left(wide, times_x(wide, a), times_x(wide, c), b >> 1, m);
        let u = mul_low(wide, times_x(wide, a), b >> 1, m);
        let v = mul_low(wide, times_x(wide, c), b >> 1, m);
        if b & 1 == 1 {
            lemma_xor(a, u, c, v);
        } else {
            lemma_xor(0, u, 0, v);
        }
    } else {
        lemma_xor(0, 0, 0, 0);
    }
}

/// Multiplication distributes over addition on the right.
pub proof fn lemma_mul_low_add_right(wide: bool, a: u64, b: u64, c: u64, n: nat)
    ensures
        mul_low(wide, a, b ^ c, n) == mul_low(wide, a, b, n) ^ mul_low(wide, a, c, n),
    decreases n,
{
    if n > 0 {
        let m = (n - 1) as nat;
        lemma_xor(b, c, 0, 0);
        lemma_mul_low_add_right(wide, times_x(wide, a), b >> 1, c >> 1, m);
        let u = mul_low(wide, times_x(wide, a), b >> 1, m);
        let v = mul_low(wide, times_x(wide, a), c >> 1, m);
        let x: u64 = if b & 1 == 1 { a } else { 0 };
        let y: u64 = if c & 1 == 1 { a } else { 0 };
        lemma_xor(x, u, y, v);
        lemma_xor(a, a, 0, 0);
        lemma_xor(0, a, 0, 0);
    } else {
        lemma_xor(0, 0, 0, 0);
    }
}

/// Multiplying by `x` before or after a product gives the same.
pub proof fn lemma_mul_low_times_x(wide: bool, a: u64, b: u64, n: nat)
    ensures
        mul_low(wide, times_x(wide, a), b, n) == times_x(wide, mul_low(wide, a, b, n)),
    decreases n,
{
    if n > 0 {
        let m = (n - 1) as nat;
        let xa = times_x(wide, a);
        lemma_mul_low_times_x(wide, xa, b >> 1, m);
        let u = mul_low(wide, xa, b >> 1, m);
        let x: u64 = if b & 1 == 1 { a } else { 0 };
        lemma_times_x(wide, x, u);
    } else {
        lemma_times_x(wide, 0, 0);
    }
}

/// Multiplying by `x^k` before or after a product gives the same.
pub proof fn lemma_mul_low_times_x_pow(wide: bool, a: u64, b: u64, n: nat, k: nat)
    ensures
        mul_low(wide, times_x_pow(wide, a, k), b, n) == times_x_pow(
            wide,
            mul_low(wide, a, b, n),
            k,
        ),
    decreases k,
{
    if k > 0 {
        let j = (k - 1) as nat;
        lemma_mul_low_times_x_pow(wide, a, b, n, j);
        lemma_mul_low_times_x(wide, times_x_pow(wide, a, j), b, n);
    }
}

/// `x^k` can be split off either end of a power of `x`.
pub proof fn lemma_times_x_pow_shift(wide: bool, a: u64, k: nat)
    ensures
        times_x_pow(wide, times_x(wide, a), k) == times_x(wide, times_x_pow(wide, a, k)),
    decreases k,
{
    if k > 0 {
        lemma_times_x_pow_shift(wide, a, (k - 1) as nat);
    }
}

pub proof fn lemma_unit_bits(i: u64)
    by (bit_vector)
    requires
        i < 64,
    ensures
        i == 0 ==> (1u64 << i) & 1 == 1 && (1u64 << i) >> 1 == 0,
        i > 0 ==> (1u64 << i) & 1 == 0 && (1u64 << i) >> 1 == 1u64 << ((i - 1) as u64),
        i < 63 ==> (1u64 << i) << 1 == 1u64 << ((i + 1) as u64),
        i < 31 ==> (((1u64 << i) << 1) & 0xffff_ffff) ^ (if (1u64 << i) & 0x8000_0000 != 0 {
            0x0040_0007u64
        } else {
            0u64
        }) == 1u64 << ((i + 1) as u64),
        i < 32 ==> (1u64 << i) <= 0xffff_ffff,
        i == 0 ==> 1u64 << i == 1,
{
}

/// The product of `a` and the term `x^i`.
pub proof fn lemma_mul_low_unit_right(wide: bool, a: u64, i: nat, n: nat)
    requires
        i < n,
        i < 64,
    ensures
        mul_low(wide, a, 1u64 << (i as u64), n) == times_x_pow(wide, a, i),
    decreases n,
{
    let m = (n - 1) as nat;
    lemma_unit_bits(i as u64);
    if i == 0 {
        lemma_mul_low_zero_right(wide, times_x(wide, a), m);
        lemma_xor(a, 0, 0, 0);
    } else {
        let j = (i - 1) as nat;
        lemma_mul_low_unit_right(wide, times_x(wide, a), j, m);
        lemma_times_x_pow_shift(wide, a, j);
        lemma_xor(times_x_pow(wide, a, i), 0, 0, 0);
    }
}

/// The term `x^i` is the unit times `x^i`.
pub proof fn lemma_unit_is_power(wide: bool, i: nat)
    requires
        i < width(wide),
    ensures
        times_x_pow(wide, 1, i) == 1u64 << (i as u64),
    decreases i,
{
    if i > 0 {
        lemma_unit_is_power(wide, (i - 1) as nat);
        lemma_unit_bits((i - 1) as u64);
    } else {
        lemma_unit_bits(0);
    }
}

pub proof fn lemma_below_bits(b: u64, n: u64, k: u64)
    by (bit_vector)
    requires
        n < 64,
        k < 64,
        b >> n == 0,
    ensures
        n > 0 ==> (b >> 1) >> ((n - 1) as u64) == 0,
        n == 0 ==> b == 0,
        k < 63 ==> (if b & 1 == 1 {
            1u64 << k
        } else {
            0
        }) ^ ((b >> 1) << ((k + 1) as u64)) == b << k,
        n == 1 ==> (if b & 1 == 1 {
            1u64 << k
        } else {
            0
        }) == b << k,
        b << 0u64 == b,
        0u64 << k == 0,
{
}

/// The product of the term `x^k` and a `b` of degree below `n`, where the
/// result has no term that leaves the ring, is `b` shifted by `k`.
pub proof fn lemma_mul_low_unit_left(wide: bool, k: nat, b: u64, n: nat)
    requires
        n < 64,
        b >> (n as u64) == 0,
        k < 64,
        k + n <= width(wide),
    ensures
        mul_low(wide, 1u64 << (k as u64), b, n) == b << (k as u64),
    decreases n,
{
    if n == 0 {
        lemma_below_bits(b, 0, 0);
        lemma_below_bits(b, 0, k as u64);
    } else {
        let m = (n - 1) as nat;
        let e = 1u64 << (k as u64);
        lemma_below_bits(b, n as u64, k as u64);
        if n == 1 {
            lemma_below_bits(b >> 1, 0, 0);
            assert(mul_low(wide, times_x(wide, e), b >> 1, m) == 0);
            lemma_xor(e, 0, 0, 0);
        } else {
            lemma_unit_bits(k as u64);
            assert(times_x(wide, e) == 1u64 << ((k + 1) as u64));
            lemma_mul_low_unit_left(wide, k + 1, b >> 1, m);
        }
    }
}

pub proof fn lemma_ring_bits(b: u64, n: u64)
    by (bit_vector)
    requires
        1 <= n <= 64,
        n < 64 ==> b >> n == 0,
    ensures
        (b ^ (b & (1u64 << ((n - 1) as u64)))) >> ((n - 1) as u64) == 0,
        b & (1u64 << ((n - 1) as u64)) == 0 || b & (1u64 << ((n - 1) as u64)) == 1u64 << ((n - 1) as u64),
        (b ^ (b & (1u64 << ((n - 1) as u64)))) ^ (b & (1u64 << ((n - 1) as u64))) == b,
        b <= 0xffff_ffff ==> (b ^ (b & (1u64 << ((n - 1) as u64)))) <= 0xffff_ffff,
        b <= 0xffff_ffff ==> b >> 32 == 0,
        (b >> 1) >> 63 == 0,
        n <= 32 ==> b <= 0xffff_ffff,
{
}

/// The unit of the ring is neutral on the left.
pub proof fn lemma_ring_mul_one_left(wide: bool, b: u64)
    requires
        in_ring(wide, b),
    ensures
        ring_mul(wide, 1, b) == b,
{
    lemma_ring_bits(b, 64);
    lemma_unit_bits(0);
    if wide {
        lemma_mul_low_unit_left(wide, 1, b >> 1, 63);
        lemma_below_bits(b >> 1, 63, 0);
        lemma_below_bits(b >> 1, 63, 1);
        assert((if b & 1 == 1 {
            1u64
        } else {
            0
        }) ^ ((b >> 1) << 1) == b) by (bit_vector);
    } else {
        lemma_mul_low_unit_left(wide, 0, b, 32);
        lemma_below_bits(b, 32, 0);
    }
}

/// The unit of the ring is neutral on the right.
pub proof fn lemma_ring_mul_one_right(wide: bool, a: u64)
    ensures
        ring_mul(wide, a, 1) == a,
{
    lemma_unit_bits(0);
    lemma_mul_low_unit_right(wide, a, 0, width(wide));
}

/// The term `x^i` commutes with every element of the ring.
pub proof fn lemma_ring_mul_unit(wide: bool, a: u64, i: nat)
    requires
        in_ring(wide, a),
        i < width(wide),
    ensures
        ring_mul(wide, 1u64 << (i as u64), a) == times_x_pow(wide, a, i),
        ring_mul(wide, a, 1u64 << (i as u64)) == times_x_pow(wide, a, i),
{
    let w = width(wide);
    lemma_unit_is_power(wide, i);
    lemma_mul_low_times_x_pow(wide, 1, a, w, i);
    lemma_ring_mul_one_left(wide, a);
    lemma_mul_low_unit_right(wide, a, i, w);
}

proof fn lemma_ring_mul_commutes_below(wide: bool, a: u64, b: u64, n: nat)
    requires
        in_ring(wide, a),
        in_ring(wide, b),
        n <= width(wide),
        below(b, n),
    ensures
        ring_mul(wide, a, b) == ring_mul(wide, b, a),
    decreases n,
{
    let w = width(wide);
    if n == 0 {
        lemma_below_bits(b, 0, 0);
        lemma_mul_low_zero_right(wide, a, w);
        lemma_mul_low_zero_left(wide, a, w);
    } else {
        let m = (n - 1) as nat;
        let hi = b & (1u64 << (m as u64));
        let lo = b ^ hi;
        lemma_ring_bits(b, n as u64);
        lemma_ring_mul_commutes_below(wide, a, lo, m);
        if hi == 0 {
            lemma_mul_low_zero_right(wide, a, w);
            lemma_mul_low_zero_left(wide, a, w);
        } else {
            lemma_ring_mul_unit(wide, a, m);
        }
        lemma_mul_low_add_right(wide, a, lo, hi, w);
        lemma_mul_low_add_left(wide, lo, hi, a, w);
    }
}

/// Multiplication in the ring is commutative.
pub proof fn lemma_ring_mul_commutes(wide: bool, a: u64, b: u64)
    requires
        in_ring(wide, a),
        in_ring(wide, b),
    ensures
        ring_mul(wide, a, b) == ring_mul(wide, b, a),
{
    lemma_ring_bits(b, 64);
    lemma_ring_mul_commutes_below(wide, a, b, width(wide));
}

/// A power of `x` on either factor can be taken out of the product.
pub proof fn lemma_ring_mul_times_x_pow(wide: bool, a: u64, b: u64, k: nat)
    requires
        in_ring(wide, a),
        in_ring(wide, b),
    ensures
        ring_mul(wide, times_x_pow(wide, a, k), b) == times_x_pow(wide, ring_mul(wide, a, b), k),
        ring_mul(wide, a, times_x_pow(wide, b, k)) == times_x_pow(wide, ring_mul(wide, a, b), k),
        in_ring(wide, times_x_pow(wide, a, k)),
{
    lemma_times_x_pow_in_ring(wide, a, k);
    lemma_times_x_pow_in_ring(wide, b, k);
    lemma_mul_low_times_x_pow(wide, a, b, width(wide), k);
    lemma_mul_low_times_x_pow(wide, b, a, width(wide), k);
    lemma_ring_mul_commutes(wide, a, times_x_pow(wide, b, k));
    lemma_ring_mul_commutes(wide, a, b);
}

/// A power of `x` times an element of the ring is in the ring.
pub proof fn lemma_times_x_pow_in_ring(wide: bool, a: u64, k: nat)
    requires
        in_ring(wide, a),
    ensures
        in_ring(wide, times_x_pow(wide, a, k)),
    decreases k,
{
    if k > 0 {
        lemma_times_x_pow_in_ring(wide, a, (k - 1) as nat);
        lemma_times_x(wide, times_x_pow(wide, a, (k - 1) as nat), 0);
    }
}

proof fn lemma_ring_mul_associates_below(wide: bool, a: u64, b: u64, c: u64, n: nat)
    requires
        in_ring(wide, a),
        in_ring(wide, b),
        in_ring(wide, c),
        n <= width(wide),
        below(c, n),
    ensures
        ring_mul(wide, ring_mul(wide, a, b), c) == ring_mul(wide, a, ring_mul(wide, b, c)),
    decreases n,
{
    let w = width(wide);
    let ab = ring_mul(wide, a, b);
    lemma_mul_low_in_ring(wide, a, b, w);
    if n == 0 {
        lemma_below_bits(c, 0, 0);
        lemma_mul_low_zero_right(wide, ab, w);
        lemma_mul_low_zero_right(wide, b, w);
        lemma_mul_low_zero_right(wide, a, w);
    } else {
        let m = (n - 1) as nat;
        let hi = c & (1u64 << (m as u64));
        let lo = c ^ hi;
        lemma_ring_bits(c, n as u64);
        lemma_ring_mul_associates_below(wide, a, b, lo, m);
        if hi == 0 {
            lemma_mul_low_zero_right(wide, ab, w);
            lemma_mul_low_zero_right(wide, b, w);
            lemma_mul_low_zero_right(wide, a, w);
        } else {
            lemma_ring_mul_unit(wide, ab, m);
            lemma_ring_mul_unit(wide, b, m);
            lemma_ring_mul_times_x_pow(wide, a, b, m);
        }
        lemma_mul_low_add_right(wide, ab, lo, hi, w);
        lemma_mul_low_add_right(wide, b, lo, hi, w);
        lemma_mul_low_add_right(wide, a, ring_mul(wide, b, lo), ring_mul(wide, b, hi), w);
    }
}

/// Multiplication in the ring is associative.
pub proof fn lemma_ring_mul_associates(wide: bool, a: u64, b: u64, c: u64)
    requires
        in_ring(wide, a),
        in_ring(wide, b),
        in_ring(wide, c),
    ensures
        ring_mul(wide, ring_mul(wide, a, b), c) == ring_mul(wide, a, ring_mul(wide, b, c)),
{
    lemma_ring_bits(c, 64);
    lemma_ring_mul_associates_below(wide, a, b, c, width(wide));
}

/// The number of coefficients up to the leading term: the degree plus one, and
/// zero for the zero polynomial.
pub open spec fn bit_len(a: u64) -> nat
    decreases a,
{
    if a == 0 {
        0
    } else {
        proof {
            lemma_shift_bits(a, 0, 0, 0);
        }
        1 + bit_len(a >> 1)
    }
}

pub proof fn lemma_shift_bits(a: u64, b: u64, n: u64, k: u64)
    by (bit_vector)
    requires
        n < 64,
        k < 64,
    ensures
        a != 0 ==> a >> 1 < a,
        n > 0 ==> ((a >> 1) >> ((n - 1) as u64) == 0) == (a >> n == 0),
        a >> 0u64 == a,
        0u64 >> n == 0,
        a >> n == 0 && n <= k ==> a >> k == 0,
        a >> n == 0 && b >> n == 0 ==> (a ^ b) >> n == 0,
        a >> n == 0 && n < 63 ==> (a << 1) >> ((n + 1) as u64) == 0,
        a >> n == 0 && n < 32 ==> a & 0x8000_0000 == 0 && (a << 1) & 0xffff_ffff == a << 1,
        k < 63 ==> (a << k) << 1 == a << ((k + 1) as u64),
        a << 0u64 == a,
        (1u64 << n) >> n == 1 && (n < 63 ==> (1u64 << n) >> ((n + 1) as u64) == 0),
        (a >> 1) >> 63 == 0,
{
}

/// A polynomial has at most `k` coefficients exactly if it is below `x^k`.
pub proof fn lemma_bit_len_below(a: u64, k: nat)
    ensures
        bit_len(a) <= k <==> below(a, k),
        bit_len(a) <= 64,
    decreases k,
{
    lemma_bit_len_bound(a, 64);
    if k < 64 {
        lemma_shift_bits(a, 0, k as u64, 0);
        if a != 0 && k > 0 {
            lemma_bit_len_below(a >> 1, (k - 1) as nat);
        } else if a == 0 {
        }
    }
}

proof fn lemma_bit_len_bound(a: u64, k: nat)
    requires
        k <= 64,
        below(a, k),
    ensures
        bit_len(a) <= k,
    decreases k,
{
    if a != 0 {
        if k == 0 {
            lemma_shift_bits(a, 0, 0, 0);
        } else if k == 64 {
            lemma_shift_bits(a, 0, 0, 0);
            lemma_bit_len_bound(a >> 1, 63);
        } else {
            lemma_shift_bits(a, 0, k as u64, 0);
            lemma_bit_len_bound(a >> 1, (k - 1) as nat);
        }
    }
}

/// In the wide ring, multiplying by `x^k` is a shift by `k`.
pub proof fn lemma_times_x_pow_wide(a: u64, k: nat)
    requires
        k < 64,
    ensures
        times_x_pow(true, a, k) == a << (k as u64),
    decreases k,
{
    if k > 0 {
        lemma_times_x_pow_wide(a, (k - 1) as nat);
        lemma_shift_bits(a, 0, 0, (k - 1) as u64);
    } else {
        lemma_shift_bits(a, 0, 0, 0);
    }
}

/// Only the terms of `b` take part in a product.
pub proof fn lemma_mul_low_short(wide: bool, a: u64, b: u64, n: nat, k: nat)
    requires
        n <= k,
        below(b, n),
    ensures
        mul_low(wide, a, b, k) == mul_low(wide, a, b, n),
    decreases n,
{
    if n < 64 {
        if n == 0 {
            lemma_below_bits(b, 0, 0);
            lemma_mul_low_zero_right(wide, a, k);
        } else {
            lemma_shift_bits(b, 0, n as u64, 0);
            lemma_mul_low_short(wide, times_x(wide, a), b >> 1, (n - 1) as nat, (k - 1) as nat);
        }
    } else if n < k {
        lemma_shift_bits(b, 0, 0, 0);
        lemma_mul_low_short(wide, times_x(wide, a), b >> 1, 63, (k - 1) as nat);
        lemma_mul_low_short(wide, times_x(wide, a), b >> 1, 63, (n - 1) as nat);
    }
}

/// The degree of a plain product is at most the sum of the degrees.
pub proof fn lemma_mul_low_below(a: u64, b: u64, m: nat, n: nat)
    requires
        below(a, m),
        1 <= n,
        m + n <= 65,
    ensures
        below(mul_low(true, a, b, n), (m + n - 1) as nat),
    decreases n,
{
    let t = (m + n - 1) as nat;
    if t < 64 {
        let tail = mul_low(true, a << 1, b >> 1, (n - 1) as nat);
        lemma_shift_bits(a, 0, m as u64, t as u64);
        if n > 1 {
            lemma_mul_low_below(a << 1, b >> 1, m + 1, (n - 1) as nat);
        }
        lemma_shift_bits(a, tail, t as u64, 0);
        lemma_shift_bits(0, tail, t as u64, 0);
    }
}

/// Where no term of the plain product reaches `x^32`, the product in the
/// field is the plain product.
pub proof fn lemma_mul_low_agree(a: u64, b: u64, m: nat, n: nat)
    requires
        below(a, m),
        m + n <= 33,
    ensures
        mul_low(false, a, b, n) == mul_low(true, a, b, n),
    decreases n,
{
    if n > 1 {
        lemma_shift_bits(a, 0, m as u64, 31);
        lemma_shift_bits(a, 0, 31, 0);
        lemma_xor(a << 1, 0, 0, 0);
        assert(times_x(false, a) == a << 1);
        lemma_mul_low_agree(a << 1, b >> 1, m + 1, (n - 1) as nat);
    } else if n == 1 {
        assert(mul_low(false, times_x(false, a), b >> 1, 0) == 0);
        assert(mul_low(true, times_x(true, a), b >> 1, 0) == 0);
    }
}

/// Where the degrees of two elements of the field add up to less than 32,
/// their product in the field is their plain product.
pub proof fn lemma_ring_mul_agree(a: u64, b: u64, m: nat, n: nat)
    requires
        below(a, m),
        below(b, n),
        n <= 32,
        m + n <= 33,
    ensures
        ring_mul(false, a, b) == ring_mul(true, a, b),
{
    lemma_mul_low_short(false, a, b, n, 32);
    lemma_mul_low_short(true, a, b, n, 64);
    lemma_mul_low_agree(a, b, m, n);
}

/// The term of `q * d` that the coefficient `i` of `d` contributes.
pub open spec fn row(d: u64, q: u64, i: u64) -> u64 {
    if (d >> i) & 1 == 1 {
        q << i
    } else {
        0
    }
}

/// The sum of the terms `i..17` of `q * d`.
pub open spec fn rows(d: u64, q: u64, i: nat) -> u64
    decreases 17 - i,
{
    if i >= 17 {
        0
    } else {
        row(d, q, i as u64) ^ rows(d, q, i + 1)
    }
}

proof fn lemma_row_bits(d: u64, q: u64, i: u64)
    by (bit_vector)
    requires
        i < 63,
    ensures
        (q << i) << 1 == q << ((i + 1) as u64),
        (d >> i) >> 1 == d >> ((i + 1) as u64),
        q << 0u64 == q,
        d >> 0u64 == d,
        d >> 17 == 0 <==> d < 0x20000,
        d >> 1 == 0 <==> d <= 1,
        d >> 16 == 0 ==> d < 0x20000,
        d >> 32 == 0 ==> d < 0x2_0000_0000,
        d <= 0xffff_ffff ==> d < 0x2_0000_0000 && d != 0x1_0040_0007,
{
}

proof fn lemma_mul_low_rows(d: u64, q: u64, i: nat, n: nat)
    requires
        i + n == 17,
    ensures
        mul_low(true, q << (i as u64), d >> (i as u64), n) == rows(d, q, i),
    decreases n,
{
    if n > 0 {
        lemma_row_bits(d, q, i as u64);
        lemma_mul_low_rows(d, q, i + 1, (n - 1) as nat);
    }
}

/// No polynomial of degree 1 to 16 divides the field polynomial.
#[verifier::rlimit(100)]
proof fn lemma_no_factor_bits(d: u64, q: u64)
    by (bit_vector)
    requires
        2 <= d < 0x20000,
        q < 0x2_0000_0000,
    ensures
        row(d, q, 0) ^ (row(d, q, 1) ^ (row(d, q, 2) ^ (row(d, q, 3) ^ (row(d, q, 4) ^ (row(d, q, 5)
            ^ (row(d, q, 6) ^ (row(d, q, 7) ^ (row(d, q, 8) ^ (row(d, q, 9) ^ (row(d, q, 10) ^ (row(
            d,
            q,
            11,
        ) ^ (row(d, q, 12) ^ (row(d, q, 13) ^ (row(d, q, 14) ^ (row(d, q, 15) ^ (row(d, q, 16)
            ^ 0u64)))))))))))))))) != 0x1_0040_0007u64,
{
}

/// The field polynomial has no factor of degree 1 to 16.
pub proof fn lemma_no_small_factor(d: u64, q: u64)
    requires
        2 <= d < 0x20000,
        q < 0x2_0000_0000,
    ensures
        ring_mul(true, q, d) != POLYNOMIAL,
{
    lemma_row_bits(d, q, 0);
    lemma_mul_low_short(true, q, d, 17, 64);
    lemma_mul_low_rows(d, q, 0, 17);
    lemma_no_factor_bits(d, q);
    reveal_with_fuel(rows, 18);
}

/// The field polynomial is irreducible: a divisor `r` of it, of degree below
/// 32 and with a cofactor of the degree that is left, is the unit.
pub proof fn lemma_polynomial_irreducible(alpha: u64, r: u64)
    requires
        r != 0,
        r <= 0xffff_ffff,
        bit_len(alpha) + bit_len(r) <= 34,
        ring_mul(true, alpha, r) == POLYNOMIAL,
    ensures
        r == 1,
{
    if r != 1 {
        lemma_row_bits(r, alpha, 0);
        lemma_bit_len_below(r, 1);
        lemma_bit_len_below(r, 17);
        if r < 0x20000 {
            lemma_bit_len_below(alpha, 32);
            lemma_row_bits(alpha, r, 0);
            lemma_no_small_factor(r, alpha);
        } else {
            lemma_bit_len_below(alpha, 16);
            lemma_row_bits(alpha, r, 0);
            if alpha == 0 {
                lemma_mul_low_zero_left(true, r, 64);
            } else if alpha == 1 {
                lemma_ring_mul_one_left(true, r);
            } else {
                lemma_ring_mul_commutes(true, alpha, r);
                lemma_no_small_factor(alpha, r);
            }
        }
    }
}

/// What a polynomial with `n` coefficients looks like.
pub proof fn lemma_bit_len_top(a: u64)
    ensures
        bit_len(a) <= 64,
        below(a, bit_len(a)),
        a != 0 ==> bit_len(a) >= 1 && a >> ((bit_len(a) - 1) as u64) == 1,
        a <= 0xffff_ffff ==> bit_len(a) <= 32,
        a == 1 <==> bit_len(a) == 1,
{
    let n = bit_len(a);
    lemma_bit_len_below(a, n);
    lemma_bit_len_below(a, 32);
    lemma_bit_len_below(a, 1);
    lemma_bit_len_below(a, 0);
    lemma_ring_bits(a, 64);
    lemma_row_bits(a, 0, 0);
    if a != 0 {
        lemma_bit_len_below(a, (n - 1) as nat);
        lemma_top_bits(a, n as u64);
    }
}

proof fn lemma_top_bits(a: u64, n: u64)
    by (bit_vector)
    requires
        1 <= n <= 64,
        n < 64 ==> a >> n == 0,
        a >> ((n - 1) as u64) != 0,
    ensures
        a >> ((n - 1) as u64) == 1,
{
}

/// Two polynomials below `x^n` have a sum below `x^n`.
pub proof fn lemma_below_xor(a: u64, b: u64, m: nat, n: nat, k: nat)
    requires
        below(a, m),
        below(b, n),
        m <= k,
        n <= k,
    ensures
        below(a ^ b, k),
{
    if k < 64 {
        lemma_shift_bits(a, b, m as u64, k as u64);
        lemma_shift_bits(b, a, n as u64, k as u64);
        lemma_shift_bits(a, b, k as u64, 0);
    }
}

/// In the field, multiplying by `x^k` is a shift by `k` as long as no term
/// reaches `x^32`.
pub proof fn lemma_times_x_pow_field(a: u64, m: nat, k: nat)
    requires
        below(a, m),
        m + k <= 32,
    ensures
        times_x_pow(false, a, k) == a << (k as u64),
        below(a << (k as u64), m + k),
    decreases k,
{
    if k > 0 {
        let j = (k - 1) as nat;
        let b = a << (j as u64);
        lemma_times_x_pow_field(a, m, j);
        lemma_shift_bits(b, 0, (m + j) as u64, 31);
        lemma_shift_bits(b, 0, 31, 0);
        lemma_shift_bits(a, 0, 0, j as u64);
        lemma_xor(b << 1, 0, 0, 0);
    } else {
        lemma_shift_bits(a, 0, 0, 0);
    }
}

proof fn lemma_first_bits(a: u64, q: u64, m: u64)
    by (bit_vector)
    requires
        2 <= m <= 32,
        a >> m == 0,
        a >> ((m - 1) as u64) == 1,
        q >> ((34 - m) as u64) == 0,
    ensures
        (q ^ (q & (1u64 << ((33 - m) as u64)))) >> ((33 - m) as u64) == 0,
        q & (1u64 << ((33 - m) as u64)) == 0 || q & (1u64 << ((33 - m) as u64)) == 1u64 << ((33
            - m) as u64),
        (q ^ (q & (1u64 << ((33 - m) as u64)))) ^ (q & (1u64 << ((33 - m) as u64))) == q,
        (a << ((32 - m) as u64)) & 0x8000_0000 != 0,
        (((a << ((32 - m) as u64)) << 1) & 0xffff_ffff) ^ 0x0040_0007 == (a << ((33 - m) as u64))
            ^ 0x1_0040_0007,
        (a << ((32 - m) as u64)) << 1 == a << ((33 - m) as u64),
{
}

/// The first division of the Euclidean algorithm, read in the field: where
/// the field polynomial is `q * a + r` as plain polynomials, `q * a` is `r`
/// in the field.
pub proof fn lemma_first_quotient(a: u64, q: u64, r: u64)
    requires
        1 < a <= 0xffff_ffff,
        r <= 0xffff_ffff,
        bit_len(q) + bit_len(a) <= 34,
        ring_mul(true, q, a) ^ r == POLYNOMIAL,
    ensures
        q <= 0xffff_ffff,
        ring_mul(false, q, a) == r,
{
    lemma_bit_len_top(a);
    lemma_bit_len_top(q);
    let m = bit_len(a);
    let s = (33 - m) as nat;
    let e = 1u64 << (s as u64);
    let hi = q & e;
    let lo = q ^ hi;
    lemma_bit_len_below(q, s + 1);
    lemma_bit_len_below(q, 32);
    lemma_ring_bits(q, 32);
    lemma_first_bits(a, q, m as u64);
    lemma_ring_bits(q, 64);
    lemma_ring_bits(lo, 64);
    lemma_bit_len_below(lo, 32);
    lemma_bit_len_below(lo, s);
    // the low part of the quotient multiplies without leaving the field
    lemma_ring_mul_agree(lo, a, s, m);
    lemma_mul_low_add_left(true, lo, hi, a, 64);
    lemma_mul_low_add_left(false, lo, hi, a, 32);
    let wl = ring_mul(true, lo, a);
    if hi == 0 {
        // then the product cannot reach x^32
        lemma_mul_low_zero_left(true, a, 64);
        lemma_xor(wl, 0, 0, 0);
        lemma_mul_low_short(true, lo, a, m, 64);
        lemma_mul_low_below(lo, a, s, m);
        lemma_ring_bits(r, 64);
        lemma_below_xor(wl, r, 32, 32, 32);
        lemma_ring_bits(wl ^ r, 32);
        lemma_row_bits(wl ^ r, 0, 0);
        assert(false);
    } else {
        lemma_ring_mul_unit(true, a, s);
        lemma_ring_mul_unit(false, a, s);
        lemma_times_x_pow_wide(a, s);
        lemma_times_x_pow_field(a, m, (s - 1) as nat);
        let top = a << (s as u64);
        let x = wl ^ top;
        assert(hi == e);
        assert(ring_mul(true, hi, a) == top);
        assert(times_x_pow(false, a, (s - 1) as nat) == a << ((32 - m) as u64));
        assert(ring_mul(false, hi, a) == top ^ POLYNOMIAL);
        assert(x ^ r == POLYNOMIAL);
        lemma_xor(x, x, r, 0);
        lemma_xor(r, 0, 0, 0);
        assert(x ^ POLYNOMIAL == r);
        lemma_xor(wl, top, POLYNOMIAL, 0);
    }
}

/// Whether `q` and `r` are the quotient and the remainder of the plain
/// polynomial `a` divided by `b`.
pub open spec fn is_division(a: u64, b: u64, q: u64, r: u64) -> bool {
    &&& ring_mul(true, q, b) ^ r == a
    &&& bit_len(r) < bit_len(b)
    &&& q == 0 || bit_len(q) + bit_len(b) <= bit_len(a) + 1
}

/// One step of the long division: taking `b * x^s` off the remainder puts
/// `x^s` on the quotient.
pub proof fn lemma_division_step(a: u64, b: u64, q: u64, r: u64, s: nat)
    requires
        s < 64,
        ring_mul(true, q, b) ^ r == a,
    ensures
        ring_mul(true, q ^ (1u64 << (s as u64)), b) ^ (r ^ (b << (s as u64))) == a,
{
    let e = 1u64 << (s as u64);
    let t = b << (s as u64);
    lemma_mul_low_add_left(true, q, e, b, 64);
    lemma_ring_mul_unit(true, b, s);
    lemma_times_x_pow_wide(b, s);
    lemma_xor(ring_mul(true, q, b), t, r, t);
    lemma_xor(t, 0, 0, 0);
    lemma_xor(ring_mul(true, q, b) ^ r, 0, 0, 0);
}

/// One step of the Euclidean algorithm on the field polynomial: with
/// `r = q * newr + ri`, a combination of `r` and `newr` that gives the field
/// polynomial becomes one of `newr` and `ri`.
pub proof fn lemma_euclid_step(alpha: u64, beta: u64, r: u64, newr: u64, q: u64, ri: u64)
    requires
        ring_mul(true, alpha, r) ^ ring_mul(true, beta, newr) == POLYNOMIAL,
        is_division(r, newr, q, ri),
        r <= 0xffff_ffff,
        bit_len(alpha) + bit_len(r) <= 34,
        bit_len(beta) + bit_len(r) <= 33,
        bit_len(newr) < bit_len(r),
    ensures
        ring_mul(true, ring_mul(true, alpha, q) ^ beta, newr) ^ ring_mul(true, alpha, ri)
            == POLYNOMIAL,
        bit_len(ring_mul(true, alpha, q) ^ beta) + bit_len(newr) <= 34,
        bit_len(alpha) + bit_len(newr) <= 33,
{
    let aq = ring_mul(true, alpha, q);
    let x = ring_mul(true, aq, newr);
    let y = ring_mul(true, alpha, ri);
    let b = ring_mul(true, beta, newr);
    lemma_mul_low_add_right(true, alpha, ring_mul(true, q, newr), ri, 64);
    lemma_ring_mul_associates(true, alpha, q, newr);
    lemma_mul_low_add_left(true, aq, beta, newr, 64);
    assert(ring_mul(true, alpha, r) == x ^ y);
    assert(ring_mul(true, aq ^ beta, newr) == x ^ b);
    lemma_xor(x, y, b, 0);
    lemma_xor(x, b, y, 0);
    lemma_xor(y, b, 0, 0);
    // degrees
    lemma_bit_len_top(r);
    lemma_bit_len_top(alpha);
    lemma_bit_len_top(beta);
    lemma_bit_len_top(q);
    let k = (34 - bit_len(newr)) as nat;
    if q == 0 {
        lemma_mul_low_zero_right(true, alpha, 64);
        lemma_xor(beta, 0, 0, 0);
    } else {
        lemma_mul_low_short(true, alpha, q, bit_len(q), 64);
        lemma_mul_low_below(alpha, q, bit_len(alpha), bit_len(q));
        lemma_below_xor(aq, beta, (bit_len(alpha) + bit_len(q) - 1) as nat, bit_len(beta), k);
        lemma_bit_len_below(aq ^ beta, k);
    }
}

} // verus!
