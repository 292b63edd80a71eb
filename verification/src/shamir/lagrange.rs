//! Lagrange interpolation over `GF(2^32)`: what the polynomial through a set
//! of points is worth anywhere, and why the barycentric form and the formula
//! for the constant term give that value.

use crate::shamir::gf::{
    gf_add, gf_div, gf_inv, gf_mul, lemma_gf_add_laws, lemma_gf_inverse,
    lemma_gf_inverse_unique, lemma_gf_mul_add, lemma_gf_mul_associates, lemma_gf_mul_commutes,
    lemma_gf_mul_units, lemma_gf_mul_zero, Error, GfElem, GfPoint,
};
use crate::shamir::polynomial::{
    elems, horner, GfPolynomial, lemma_horner_add, lemma_horner_is_eval, lemma_horner_scale,
    lemma_horner_times_linear, lemma_horner_zero, lemma_roots, poly_add, poly_eval, poly_scale,
    poly_times_linear, EvaluablePolynomial,
};
use itertools::Itertools;
use vstd::prelude::*;

verus! {

/// Whether no value occurs twice in `xs`.
pub open spec fn distinct(xs: Seq<u32>) -> bool {
    forall|i: int, j: int| 0 <= i < j < xs.len() ==> xs[i] != xs[j]
}

/// The product of `x - xs[i]` over the `i < n` other than `j`.
pub open spec fn prod_except(xs: Seq<u32>, x: u32, j: int, n: nat) -> u32
    decreases n,
{
    if n == 0 {
        1
    } else {
        let rest = prod_except(xs, x, j, (n - 1) as nat);
        if n - 1 == j {
            rest
        } else {
            gf_mul(rest, gf_add(x, xs[n - 1]))
        }
    }
}

/// The barycentric weight of the point `j`: the inverse of the product of
/// `xs[j] - xs[i]` over the other points.
pub open spec fn weight(xs: Seq<u32>, j: int) -> u32 {
    gf_inv(prod_except(xs, xs[j], j, xs.len()))
}

/// The Lagrange basis polynomial of the point `j` at `x`: one at `xs[j]` and
/// zero at the other points.
pub open spec fn basis(xs: Seq<u32>, j: int, x: u32) -> u32 {
    gf_mul(weight(xs, j), prod_except(xs, x, j, xs.len()))
}

/// The sum of `ys[j]` times the basis polynomial of `j` at `x`, over `j < n`.
pub open spec fn lagrange_sum(xs: Seq<u32>, ys: Seq<u32>, x: u32, n: nat) -> u32
    decreases n,
{
    if n == 0 {
        0
    } else {
        gf_add(
            lagrange_sum(xs, ys, x, (n - 1) as nat),
            gf_mul(ys[n - 1], basis(xs, n - 1, x)),
        )
    }
}

/// The value at `x` of the polynomial of lowest degree through the points
/// `(xs[j], ys[j])`.
pub open spec fn lagrange_eval(xs: Seq<u32>, ys: Seq<u32>, x: u32) -> u32 {
    lagrange_sum(xs, ys, x, xs.len())
}

/// The coefficients of the product of `x - xs[i]` over the `i < n` other than
/// `j`.
pub open spec fn prod_poly(xs: Seq<u32>, j: int, n: nat) -> Seq<u32>
    decreases n,
{
    if n == 0 {
        seq![1u32]
    } else {
        let rest = prod_poly(xs, j, (n - 1) as nat);
        if n - 1 == j {
            rest
        } else {
            poly_times_linear(rest, xs[n - 1])
        }
    }
}

/// The coefficients of the sum of the first `m` terms of the interpolating
/// polynomial.
pub open spec fn lagrange_poly(xs: Seq<u32>, ys: Seq<u32>, m: nat) -> Seq<u32>
    decreases m,
{
    if m == 0 {
        Seq::new(xs.len(), |i: int| 0u32)
    } else {
        poly_add(
            lagrange_poly(xs, ys, (m - 1) as nat),
            poly_scale(prod_poly(xs, m - 1, xs.len()), gf_mul(ys[m - 1], weight(xs, m - 1))),
        )
    }
}

proof fn lemma_prod_poly(xs: Seq<u32>, j: int, n: nat, x: u32)
    requires
        0 <= j,
    ensures
        prod_poly(xs, j, n).len() == (if j < n {
            n
        } else {
            n + 1
        }),
        horner(prod_poly(xs, j, n), x) == prod_except(xs, x, j, n),
    decreases n,
{
    if n == 0 {
        let one = seq![1u32];
        assert(one.skip(1) =~= Seq::<u32>::empty());
        assert(horner(one.skip(1), x) == 0);
        lemma_gf_mul_units(x);
        lemma_gf_add_laws(1, 0, 0);
    } else {
        lemma_prod_poly(xs, j, (n - 1) as nat, x);
        if n - 1 != j {
            let rest = prod_poly(xs, j, (n - 1) as nat);
            lemma_horner_times_linear(rest, xs[n - 1], x);
            lemma_gf_mul_commutes(gf_add(x, xs[n - 1]), horner(rest, x));
        }
    }
}

proof fn lemma_lagrange_poly(xs: Seq<u32>, ys: Seq<u32>, m: nat, x: u32)
    requires
        m <= xs.len(),
    ensures
        lagrange_poly(xs, ys, m).len() == xs.len(),
        horner(lagrange_poly(xs, ys, m), x) == lagrange_sum(xs, ys, x, m),
    decreases m,
{
    if m == 0 {
        lemma_horner_zero(lagrange_poly(xs, ys, 0), x);
    } else {
        let j = m - 1;
        let prev = lagrange_poly(xs, ys, j as nat);
        let pj = prod_poly(xs, j, xs.len());
        let c = gf_mul(ys[j], weight(xs, j));
        lemma_lagrange_poly(xs, ys, j as nat, x);
        lemma_prod_poly(xs, j, xs.len(), x);
        lemma_horner_add(prev, poly_scale(pj, c), x);
        lemma_horner_scale(pj, c, x);
        lemma_gf_mul_associates(ys[j], weight(xs, j), prod_except(xs, x, j, xs.len()));
    }
}

/// A product with a factor that is zero is zero.
pub proof fn lemma_prod_zero(xs: Seq<u32>, x: u32, j: int, n: nat, i: int)
    requires
        0 <= i < n,
        i != j,
        x == xs[i],
    ensures
        prod_except(xs, x, j, n) == 0,
    decreases n,
{
    if n - 1 == i {
        lemma_gf_add_laws(x, 0, 0);
        lemma_gf_mul_units(prod_except(xs, x, j, (n - 1) as nat));
    } else {
        lemma_prod_zero(xs, x, j, (n - 1) as nat, i);
        lemma_gf_mul_units(gf_add(x, xs[n - 1]));
    }
}

/// A product without a factor that is zero is not zero.
pub proof fn lemma_prod_nonzero(xs: Seq<u32>, x: u32, j: int, n: nat)
    requires
        forall|i: int| 0 <= i < n && i != j ==> x != xs[i],
    ensures
        prod_except(xs, x, j, n) != 0,
    decreases n,
{
    if n > 0 {
        lemma_prod_nonzero(xs, x, j, (n - 1) as nat);
        if n - 1 != j {
            lemma_gf_add_laws(x, xs[n - 1], 0);
            lemma_gf_mul_zero(prod_except(xs, x, j, (n - 1) as nat), gf_add(x, xs[n - 1]));
        }
    }
}

/// The product over all points is the product over all but `j`, times the
/// factor of `j`.
pub proof fn lemma_prod_split(xs: Seq<u32>, x: u32, j: int, n: nat)
    requires
        0 <= j < n,
    ensures
        prod_except(xs, x, -1, n) == gf_mul(prod_except(xs, x, j, n), gf_add(x, xs[j])),
    decreases n,
{
    let f = gf_add(x, xs[j]);
    if n - 1 == j {
        lemma_prod_same(xs, x, j, -1, (n - 1) as nat);
    } else {
        lemma_prod_split(xs, x, j, (n - 1) as nat);
        let a = prod_except(xs, x, j, (n - 1) as nat);
        let g = gf_add(x, xs[n - 1]);
        lemma_gf_mul_associates(a, f, g);
        lemma_gf_mul_associates(a, g, f);
        lemma_gf_mul_commutes(f, g);
    }
}

/// Leaving out a point beyond the first `n` leaves out nothing.
pub proof fn lemma_prod_same(xs: Seq<u32>, x: u32, j: int, k: int, n: nat)
    requires
        j < 0 || j >= n,
        k < 0 || k >= n,
    ensures
        prod_except(xs, x, j, n) == prod_except(xs, x, k, n),
    decreases n,
{
    if n > 0 {
        lemma_prod_same(xs, x, j, k, (n - 1) as nat);
    }
}

/// The basis polynomial of a point is one at that point and zero at the
/// others.
pub proof fn lemma_basis_at_point(xs: Seq<u32>, j: int, k: int)
    requires
        distinct(xs),
        0 <= j < xs.len(),
        0 <= k < xs.len(),
    ensures
        basis(xs, j, xs[k]) == (if j == k {
            1u32
        } else {
            0u32
        }),
{
    if j == k {
        lemma_prod_nonzero(xs, xs[j], j, xs.len());
        lemma_gf_inverse(prod_except(xs, xs[j], j, xs.len()));
    } else {
        lemma_prod_zero(xs, xs[k], j, xs.len(), k);
        lemma_gf_mul_units(weight(xs, j));
    }
}

/// The interpolating polynomial goes through its points.
pub proof fn lemma_lagrange_sum_at_point(xs: Seq<u32>, ys: Seq<u32>, k: int, m: nat)
    requires
        distinct(xs),
        0 <= k < xs.len(),
        m <= xs.len(),
    ensures
        lagrange_sum(xs, ys, xs[k], m) == (if k < m {
            ys[k]
        } else {
            0u32
        }),
    decreases m,
{
    if m > 0 {
        let j = m - 1;
        lemma_lagrange_sum_at_point(xs, ys, k, j as nat);
        lemma_basis_at_point(xs, j, k);
        lemma_gf_mul_units(ys[j]);
        lemma_gf_add_laws(ys[j], 0, 0);
        lemma_gf_add_laws(ys[k], 0, 0);
        lemma_gf_add_laws(0, 0, 0);
    }
}

/// Interpolation reproduces a polynomial: through as many points of a
/// polynomial as it has coefficients, at distinct `x`, goes that polynomial
/// only.
pub proof fn lemma_interpolation(xs: Seq<u32>, ys: Seq<u32>, p: Seq<u32>, x: u32)
    requires
        distinct(xs),
        xs.len() == ys.len(),
        xs.len() == p.len(),
        forall|j: int| 0 <= j < xs.len() ==> ys[j] == poly_eval(p, #[trigger] xs[j]),
    ensures
        lagrange_eval(xs, ys, x) == poly_eval(p, x),
{
    let l = lagrange_poly(xs, ys, xs.len());
    let d = poly_add(l, p);
    lemma_lagrange_poly(xs, ys, xs.len(), x);
    assert forall|k: int| 0 <= k < xs.len() implies horner(d, #[trigger] xs[k]) == 0 by {
        lemma_lagrange_poly(xs, ys, xs.len(), xs[k]);
        lemma_lagrange_sum_at_point(xs, ys, k, xs.len());
        lemma_horner_add(l, p, xs[k]);
        lemma_horner_is_eval(p, xs[k]);
        lemma_gf_add_laws(ys[k], ys[k], 0);
    }
    lemma_roots(d, xs);
    lemma_horner_zero(d, x);
    lemma_horner_add(l, p, x);
    lemma_horner_is_eval(p, x);
    lemma_gf_add_laws(horner(l, x), horner(p, x), 0);
}

/// The term of the point `j` in the barycentric form: its weight over
/// `x - xs[j]`.
pub open spec fn bary_term(xs: Seq<u32>, j: int, x: u32) -> u32 {
    gf_div(weight(xs, j), gf_add(x, xs[j]))
}

/// The numerator of the barycentric form: the sum of the first `n` terms,
/// each times its `ys[j]`.
pub open spec fn bary_num(xs: Seq<u32>, ys: Seq<u32>, x: u32, n: nat) -> u32
    decreases n,
{
    if n == 0 {
        0
    } else {
        gf_add(bary_num(xs, ys, x, (n - 1) as nat), gf_mul(bary_term(xs, n - 1, x), ys[n - 1]))
    }
}

/// The denominator of the barycentric form: the sum of the first `n` terms.
pub open spec fn bary_den(xs: Seq<u32>, x: u32, n: nat) -> u32
    decreases n,
{
    if n == 0 {
        0
    } else {
        gf_add(bary_den(xs, x, (n - 1) as nat), bary_term(xs, n - 1, x))
    }
}

/// `(a * f) * (b * g) = (a * b) * (f * g)`.
pub proof fn lemma_gf_mul_swap(a: u32, f: u32, b: u32, g: u32)
    ensures
        gf_mul(gf_mul(a, f), gf_mul(b, g)) == gf_mul(gf_mul(a, b), gf_mul(f, g)),
{
    lemma_gf_mul_associates(a, f, gf_mul(b, g));
    lemma_gf_mul_associates(f, b, g);
    lemma_gf_mul_commutes(f, b);
    lemma_gf_mul_associates(b, f, g);
    lemma_gf_mul_associates(a, b, gf_mul(f, g));
}

proof fn lemma_bary_term(xs: Seq<u32>, j: int, x: u32)
    requires
        0 <= j < xs.len(),
        x != xs[j],
    ensures
        gf_mul(prod_except(xs, x, -1, xs.len()), bary_term(xs, j, x)) == basis(xs, j, x),
{
    let f = gf_add(x, xs[j]);
    let nj = prod_except(xs, x, j, xs.len());
    let w = weight(xs, j);
    lemma_prod_split(xs, x, j, xs.len());
    lemma_gf_add_laws(x, xs[j], 0);
    lemma_gf_inverse(f);
    lemma_gf_mul_swap(nj, f, w, gf_inv(f));
    lemma_gf_mul_units(gf_mul(nj, w));
    lemma_gf_mul_commutes(nj, w);
}

proof fn lemma_bary_sums(xs: Seq<u32>, ys: Seq<u32>, x: u32, n: nat)
    requires
        n <= xs.len(),
        forall|j: int| 0 <= j < xs.len() ==> x != xs[j],
    ensures
        gf_mul(prod_except(xs, x, -1, xs.len()), bary_num(xs, ys, x, n)) == lagrange_sum(
            xs,
            ys,
            x,
            n,
        ),
    decreases n,
{
    let ell = prod_except(xs, x, -1, xs.len());
    if n == 0 {
        lemma_gf_mul_units(ell);
    } else {
        let j = n - 1;
        lemma_bary_sums(xs, ys, x, j as nat);
        lemma_bary_term(xs, j, x);
        let t = bary_term(xs, j, x);
        lemma_gf_mul_add(ell, bary_num(xs, ys, x, j as nat), gf_mul(t, ys[j]));
        lemma_gf_mul_associates(ell, t, ys[j]);
        lemma_gf_mul_commutes(basis(xs, j, x), ys[j]);
    }
}

/// The sequence of `n` ones.
pub open spec fn ones(n: nat) -> Seq<u32> {
    Seq::new(n, |i: int| 1u32)
}

proof fn lemma_bary_den_is_num(xs: Seq<u32>, x: u32, n: nat)
    requires
        n <= xs.len(),
    ensures
        bary_den(xs, x, n) == bary_num(xs, ones(xs.len()), x, n),
    decreases n,
{
    if n > 0 {
        lemma_bary_den_is_num(xs, x, (n - 1) as nat);
        lemma_gf_mul_units(bary_term(xs, n - 1, x));
    }
}

/// The polynomial through points that are all at height one is the constant
/// one.
proof fn lemma_interpolation_of_one(xs: Seq<u32>, x: u32)
    requires
        distinct(xs),
        xs.len() >= 1,
    ensures
        lagrange_eval(xs, ones(xs.len()), x) == 1,
{
    let p = Seq::new(xs.len(), |i: int| if i == 0 { 1u32 } else { 0u32 });
    assert forall|y: u32| poly_eval(p, y) == 1 by {
        lemma_horner_is_eval(p, y);
        lemma_horner_zero(p.skip(1), y);
        lemma_gf_mul_units(y);
        lemma_gf_add_laws(1, 0, 0);
    }
    lemma_interpolation(xs, ones(xs.len()), p, x);
}

/// The barycentric form gives the value of the interpolating polynomial
/// wherever `x` is none of the points, and its denominator is not zero there.
pub proof fn lemma_barycentric(xs: Seq<u32>, ys: Seq<u32>, x: u32)
    requires
        distinct(xs),
        xs.len() >= 1,
        xs.len() == ys.len(),
        forall|j: int| 0 <= j < xs.len() ==> x != xs[j],
    ensures
        bary_den(xs, x, xs.len()) != 0,
        gf_div(bary_num(xs, ys, x, xs.len()), bary_den(xs, x, xs.len())) == lagrange_eval(
            xs,
            ys,
            x,
        ),
{
    let n = xs.len();
    let ell = prod_except(xs, x, -1, n);
    let num = bary_num(xs, ys, x, n);
    let den = bary_den(xs, x, n);
    lemma_bary_sums(xs, ys, x, n);
    lemma_bary_sums(xs, ones(n), x, n);
    lemma_bary_den_is_num(xs, x, n);
    lemma_interpolation_of_one(xs, x);
    lemma_gf_mul_units(ell);
    lemma_gf_mul_commutes(ell, den);
    lemma_gf_inverse(den);
    lemma_gf_inverse_unique(den, ell, gf_inv(den));
    lemma_gf_mul_commutes(ell, num);
}

/// The product of `1 - xs[j] / xs[m]` over the `m < n` other than `j`.
pub open spec fn constant_prod(xs: Seq<u32>, j: int, n: nat) -> u32
    decreases n,
{
    if n == 0 {
        1
    } else {
        let rest = constant_prod(xs, j, (n - 1) as nat);
        if n - 1 == j {
            rest
        } else {
            gf_mul(rest, gf_add(1, gf_mul(xs[j], gf_inv(xs[n - 1]))))
        }
    }
}

/// The sum of `ys[j]` over the product for `j`, over `j < n`.
pub open spec fn constant_sum(xs: Seq<u32>, ys: Seq<u32>, n: nat) -> u32
    decreases n,
{
    if n == 0 {
        0
    } else {
        gf_add(
            constant_sum(xs, ys, (n - 1) as nat),
            gf_div(ys[n - 1], constant_prod(xs, n - 1, xs.len())),
        )
    }
}

proof fn lemma_constant_prod(xs: Seq<u32>, j: int, n: nat)
    requires
        0 <= j < xs.len(),
        n <= xs.len(),
        forall|i: int| 0 <= i < xs.len() ==> xs[i] != 0,
    ensures
        gf_mul(constant_prod(xs, j, n), prod_except(xs, 0, j, n)) == prod_except(xs, xs[j], j, n),
    decreases n,
{
    if n == 0 {
        lemma_gf_mul_units(1);
    } else {
        let m = n - 1;
        lemma_constant_prod(xs, j, m as nat);
        if m != j {
            let a = constant_prod(xs, j, m as nat);
            let b = prod_except(xs, 0, j, m as nat);
            let f = gf_add(1, gf_mul(xs[j], gf_inv(xs[m])));
            let g = gf_add(0, xs[m]);
            lemma_gf_mul_swap(a, f, b, g);
            lemma_gf_add_laws(xs[m], xs[j], 0);
            lemma_gf_mul_add(xs[m], 1, gf_mul(xs[j], gf_inv(xs[m])));
            lemma_gf_mul_units(xs[m]);
            lemma_gf_inverse(xs[m]);
            lemma_gf_mul_associates(xs[j], gf_inv(xs[m]), xs[m]);
            lemma_gf_mul_units(xs[j]);
        }
    }
}

proof fn lemma_constant_term(xs: Seq<u32>, j: int, y: u32)
    requires
        distinct(xs),
        0 <= j < xs.len(),
        forall|i: int| 0 <= i < xs.len() ==> xs[i] != 0,
    ensures
        constant_prod(xs, j, xs.len()) != 0,
        gf_div(y, constant_prod(xs, j, xs.len())) == gf_mul(y, basis(xs, j, 0)),
{
    let n = xs.len();
    let c = constant_prod(xs, j, n);
    let top = prod_except(xs, 0, j, n);
    let d = prod_except(xs, xs[j], j, n);
    lemma_constant_prod(xs, j, n);
    lemma_prod_nonzero(xs, xs[j], j, n);
    lemma_gf_mul_units(top);
    lemma_gf_inverse(d);
    lemma_gf_mul_associates(c, top, gf_inv(d));
    lemma_gf_inverse(c);
    lemma_gf_inverse_unique(c, gf_mul(top, gf_inv(d)), gf_inv(c));
    lemma_gf_mul_commutes(top, gf_inv(d));
}

/// The formula for the constant term gives the value at zero of the
/// interpolating polynomial.
pub proof fn lemma_constant_sum(xs: Seq<u32>, ys: Seq<u32>, n: nat)
    requires
        distinct(xs),
        n <= xs.len(),
        forall|i: int| 0 <= i < xs.len() ==> xs[i] != 0,
    ensures
        constant_sum(xs, ys, n) == lagrange_sum(xs, ys, 0, n),
    decreases n,
{
    if n > 0 {
        lemma_constant_sum(xs, ys, (n - 1) as nat);
        lemma_constant_term(xs, n - 1, ys[n - 1]);
    }
}

/// The x values of a sequence of points.
pub open spec fn point_xs(points: Seq<GfPoint>) -> Seq<u32> {
    points.map_values(|p: GfPoint| p.0.0)
}

/// The y values of a sequence of points.
pub open spec fn point_ys(points: Seq<GfPoint>) -> Seq<u32> {
    points.map_values(|p: GfPoint| p.1.0)
}

/// A barycentric-form representation of a Lagrange-interpolated polynomial:
/// the points it goes through and the weight of each.
#[derive(Debug)]
pub struct GfBarycentric {
    xs: Vec<GfElem>,
    ys: Vec<GfElem>,
    ws: Vec<GfElem>,
}

impl Clone for GfBarycentric {
    fn clone(&self) -> (b: GfBarycentric)
        ensures
            b.xs() == self.xs(),
            b.ys() == self.ys(),
            self.wf() ==> b.wf(),
    {
        let xs = self.xs.clone();
        let ys = self.ys.clone();
        let ws = self.ws.clone();
        assert(xs@ =~= self.xs@);
        assert(ys@ =~= self.ys@);
        assert(ws@ =~= self.ws@);
        GfBarycentric { xs, ys, ws }
    }
}

impl GfBarycentric {
    /// The x values of the points.
    pub closed spec fn xs(&self) -> Seq<u32> {
        elems(self.xs@)
    }

    /// The y values of the points.
    pub closed spec fn ys(&self) -> Seq<u32> {
        elems(self.ys@)
    }

    /// The points are as many as their weights, at least one, at distinct
    /// x, and each weight is the inverse of the product of the differences
    /// to the other x.
    pub closed spec fn wf(&self) -> bool {
        &&& 1 <= self.xs@.len() <= 0x1_0000_0000
        &&& self.ys@.len() == self.xs@.len()
        &&& self.ws@.len() == self.xs@.len()
        &&& distinct(elems(self.xs@))
        &&& forall|j: int|
            0 <= j < self.ws@.len() ==> (#[trigger] self.ws@[j]).0 == weight(elems(self.xs@), j)
    }

    /// What `wf` says of the points.
    pub proof fn lemma_wf(&self)
        requires
            self.wf(),
        ensures
            1 <= self.xs().len() <= 0x1_0000_0000,
            self.ys().len() == self.xs().len(),
            distinct(self.xs()),
    {
    }

    /// At one of its points the barycentric form has the y of that point.
    pub proof fn lemma_goes_through_points(&self, j: int)
        requires
            self.wf(),
            0 <= j < self.xs().len(),
        ensures
            self.value_at(self.xs()[j]) == self.ys()[j],
    {
        lemma_lagrange_sum_at_point(self.xs(), self.ys(), j, self.xs().len());
    }

    /// The barycentric form of points of a polynomial with as many
    /// coefficients as there are points has the value of the polynomial
    /// everywhere, and its constant term at zero.
    pub proof fn lemma_reproduces(&self, p: Seq<u32>, x: u32)
        requires
            self.wf(),
            p.len() == self.xs().len(),
            forall|j: int|
                0 <= j < self.xs().len() ==> self.ys()[j] == poly_eval(p, #[trigger] self.xs()[j]),
        ensures
            self.value_at(x) == poly_eval(p, x),
            self.value_at(0) == p[0],
    {
        lemma_interpolation(self.xs(), self.ys(), p, x);
        lemma_interpolation(self.xs(), self.ys(), p, 0);
        crate::shamir::polynomial::lemma_poly_eval_at_zero(p);
    }

    /// The barycentric form of the polynomial of degree `n` through the
    /// `n + 1` given points.
    #[verifier::rlimit(40)]
    pub fn recover(n: u32, points: &[GfPoint]) -> (res: Result<GfBarycentric, Error>)
        requires
            n < u32::MAX,
            distinct(point_xs(points@)),
        ensures
            points@.len() != n + 1 ==> res == Err::<GfBarycentric, Error>(
                Error::NumPointsMismatch { needed: (n + 1) as usize, num_points: points@.len() as usize },
            ),
            points@.len() == n + 1 ==> (res matches Ok(b) && b.wf() && b.xs() == point_xs(points@)
                && b.ys() == point_ys(points@)),
    {
        let k = points.len();
        let needed: usize = n as usize + 1;
        if k != needed {
            return Err(Error::NumPointsMismatch { needed, num_points: k });
        }
        let mut xs: Vec<GfElem> = Vec::new();
        let mut ys: Vec<GfElem> = Vec::new();
        for i in 0..k
            invariant
                k == points@.len(),
                xs@.len() == i,
                ys@.len() == i,
                forall|j: int| 0 <= j < i ==> xs@[j] == points@[j].0 && ys@[j] == points@[j].1,
        {
            xs.push(points[i].0);
            ys.push(points[i].1);
        }
        assert(elems(xs@) =~= point_xs(points@));
        assert(elems(ys@) =~= point_ys(points@));
        let mut ws: Vec<GfElem> = Vec::new();
        for j in 0..k
            invariant
                k == xs@.len(),
                distinct(elems(xs@)),
                ws@.len() == j,
                forall|i: int| 0 <= i < j ==> (#[trigger] ws@[i]).0 == weight(elems(xs@), i),
        {
            let xj = xs[j];
            let mut prod = GfElem(1);
            for i in 0..k
                invariant
                    k == xs@.len(),
                    0 <= j < k,
                    xj == xs@[j as int],
                    prod.0 == prod_except(elems(xs@), xj.0, j as int, i as nat),
            {
                if i != j {
                    prod = prod * (xj - xs[i]);
                }
            }
            proof {
                let vals = elems(xs@);
                assert forall|i: int| 0 <= i < k && i != j implies xj.0 != vals[i] by {
                    if i < j {
                        assert(vals[i] != vals[j as int]);
                    } else {
                        assert(vals[j as int] != vals[i]);
                    }
                }
                lemma_prod_nonzero(vals, xj.0, j as int, k as nat);
            }
            let w = prod.inverse();
            ws.push(w.unwrap());
        }
        Ok(GfBarycentric { xs, ys, ws })
    }
}

impl EvaluablePolynomial for GfBarycentric {
    open spec fn well_formed(&self) -> bool {
        self.wf()
    }

    open spec fn value_at(&self, x: u32) -> u32 {
        lagrange_eval(self.xs(), self.ys(), x)
    }

    open spec fn degree_bound(&self) -> nat {
        (self.xs().len() - 1) as nat
    }

    /// At one of the points, the y of that point. Elsewhere the second form
    /// of the barycentric interpolation formula: the sum of
    /// `w_j / (x - x_j) * y_j` over the sum of `w_j / (x - x_j)`.
    fn evaluate(&self, x: GfElem) -> (y: GfElem) {
        let k = self.xs.len();
        let ghost xs = elems(self.xs@);
        let ghost ys = elems(self.ys@);
        for j in 0..k
            invariant
                self.wf(),
                k == self.xs@.len(),
                xs == elems(self.xs@),
                ys == elems(self.ys@),
                forall|i: int| 0 <= i < j ==> x.0 != xs[i],
        {
            if self.xs[j].0 == x.0 {
                proof {
                    lemma_lagrange_sum_at_point(xs, ys, j as int, k as nat);
                }
                return self.ys[j];
            }
        }
        let mut numerator = GfElem(0);
        let mut denominator = GfElem(0);
        for j in 0..k
            invariant
                self.wf(),
                k == self.xs@.len(),
                xs == elems(self.xs@),
                ys == elems(self.ys@),
                forall|j: int| 0 <= j < xs.len() ==> x.0 != xs[j],
                numerator.0 == bary_num(xs, ys, x.0, j as nat),
                denominator.0 == bary_den(xs, x.0, j as nat),
        {
            proof {
                lemma_gf_add_laws(x.0, xs[j as int], 0);
            }
            let term = self.ws[j] / (x - self.xs[j]);
            numerator = numerator + term * self.ys[j];
            denominator = denominator + term;
        }
        proof {
            lemma_barycentric(xs, ys, x.0);
        }
        numerator / denominator
    }

    fn degree(&self) -> (d: u32) {
        (self.ws.len() - 1) as u32
    }

    fn constant(&self) -> (c: GfElem) {
        self.evaluate(GfElem(0))
    }
}

/// The constant term that is interpolated from points of a polynomial with
/// as many coefficients as there are points is the constant term of the
/// polynomial.
pub proof fn lemma_constant_of_polynomial(xs: Seq<u32>, ys: Seq<u32>, p: Seq<u32>)
    requires
        distinct(xs),
        xs.len() >= 1,
        xs.len() == ys.len(),
        xs.len() == p.len(),
        forall|j: int| 0 <= j < xs.len() ==> ys[j] == poly_eval(p, #[trigger] xs[j]),
    ensures
        lagrange_eval(xs, ys, 0) == p[0],
{
    lemma_interpolation(xs, ys, p, 0);
    crate::shamir::polynomial::lemma_poly_eval_at_zero(p);
}

/// Interpolate the constant term of a polynomial of degree `n` in
/// `GF(2^32)`, given a set of points along that polynomial.
#[verifier::rlimit(40)]
pub fn lagrange_constant(n: u32, points: &[GfPoint]) -> (res: Result<GfElem, Error>)
    requires
        n < u32::MAX,
        distinct(point_xs(points@)),
    ensures
        points@.len() != n + 1 ==> res == Err::<GfElem, Error>(
            Error::NumPointsMismatch { needed: (n + 1) as usize, num_points: points@.len() as usize },
        ),
        points@.len() == n + 1 && point_xs(points@).contains(0) ==> res == Err::<GfElem, Error>(
            Error::NonInvertiblePoint,
        ),
        points@.len() == n + 1 && !point_xs(points@).contains(0) ==> res == Ok::<GfElem, Error>(
            GfElem(lagrange_eval(point_xs(points@), point_ys(points@), 0)),
        ),
{
    let k = points.len();
    let needed: usize = n as usize + 1;
    if k != needed {
        return Err(Error::NumPointsMismatch { needed, num_points: k });
    }
    let ghost xs = point_xs(points@);
    let ghost ys = point_ys(points@);
    // Pre-invert all x values to avoid recalculating it n times.
    let mut xs_inv: Vec<GfElem> = Vec::new();
    for i in 0..k
        invariant
            k == points@.len(),
            k == n + 1,
            xs == point_xs(points@),
            xs_inv@.len() == i,
            forall|j: int| 0 <= j < i ==> xs[j] != 0,
            forall|j: int| 0 <= j < i ==> (#[trigger] xs_inv@[j]).0 == gf_inv(xs[j]),
    {
        proof {
            assert(xs[i as int] == points@[i as int].0.0);
        }
        match points[i].0.inverse() {
            Some(inv) => {
                xs_inv.push(inv);
            },
            None => {
                proof {
                    assert(xs[i as int] == 0);
                    assert(xs.contains(0));
                }
                return Err(Error::NonInvertiblePoint);
            },
        }
    }
    proof {
        assert(!xs.contains(0)) by {
            if xs.contains(0) {
                let i = choose|i: int| 0 <= i < xs.len() && xs[i] == 0;
                assert(xs[i] != 0);
            }
        }
    }
    let mut acc = GfElem(0);
    for j in 0..k
        invariant
            k == points@.len(),
            xs == point_xs(points@),
            ys == point_ys(points@),
            distinct(xs),
            xs_inv@.len() == k,
            forall|j: int| 0 <= j < k ==> xs[j] != 0,
            forall|j: int| 0 <= j < k ==> (#[trigger] xs_inv@[j]).0 == gf_inv(xs[j]),
            acc.0 == constant_sum(xs, ys, j as nat),
    {
        let xj = points[j].0;
        let mut prod = GfElem(1);
        proof {
            assert(xs[j as int] == points@[j as int].0.0);
            assert(ys[j as int] == points@[j as int].1.0);
        }
        for m in 0..k
            invariant
                k == points@.len(),
                xs == point_xs(points@),
                0 <= j < k,
                xj.0 == xs[j as int],
                xs_inv@.len() == k,
                forall|j: int| 0 <= j < k ==> (#[trigger] xs_inv@[j]).0 == gf_inv(xs[j]),
                prod.0 == constant_prod(xs, j as int, m as nat),
        {
            if m != j {
                prod = prod * (GfElem(1) - xj * xs_inv[m]);
            }
        }
        proof {
            lemma_constant_term(xs, j as int, ys[j as int]);
        }
        acc = acc + points[j].1 / prod;
    }
    proof {
        lemma_constant_sum(xs, ys, k as nat);
    }
    Ok(acc)
}

/// The combinations of `k` of the items, each in the order of the items,
/// and one after another in the order of the places that they take their
/// items from: first those with the first item, then those without it.
pub open spec fn combinations(items: Seq<u32>, k: nat) -> Seq<Seq<u32>>
    decreases items.len(),
{
    if k == 0 {
        seq![Seq::empty()]
    } else if items.len() < k {
        Seq::empty()
    } else {
        combinations(items.skip(1), (k - 1) as nat).map_values(|c: Seq<u32>| seq![items[0]] + c)
            + combinations(items.skip(1), k)
    }
}

/// What a sequence of vectors holds.
pub open spec fn lists(v: Seq<Vec<u32>>) -> Seq<Seq<u32>> {
    v.map_values(|c: Vec<u32>| c@)
}

/// The combinations of `k` of the items (`Itertools::combinations`), in the
/// order in which the crate hands them out.
#[verifier::external_body]
fn combinations_of(items: &[u32], k: usize) -> (res: Vec<Vec<u32>>)
    ensures
        lists(res@) == combinations(items@, k as nat),
{
    items.iter().copied().combinations(k).collect()
}

/// The product of the items.
pub open spec fn product(items: Seq<u32>) -> u32
    decreases items.len(),
{
    if items.len() == 0 {
        1
    } else {
        gf_mul(product(items.drop_last()), items.last())
    }
}

/// The sum of the products of the lists.
pub open spec fn sum_of_products(lists: Seq<Seq<u32>>) -> u32
    decreases lists.len(),
{
    if lists.len() == 0 {
        0
    } else {
        gf_add(sum_of_products(lists.drop_last()), product(lists.last()))
    }
}

/// The elementary symmetric polynomial of degree `i` of the items: the sum
/// of the products of all combinations of `i` of them.
pub open spec fn elementary(items: Seq<u32>, i: nat) -> u32 {
    sum_of_products(combinations(items, i))
}

/// The term of the point `j` in the interpolating polynomial, as
/// coefficients: `ys[j]` over the product of `xs[j] - xs[m]`, times the
/// product of `x - xs[m]`, over the other points `m`.
pub open spec fn lagrange_term(xs: Seq<u32>, ys: Seq<u32>, j: int) -> Seq<u32> {
    let k = xs.len();
    let scale = gf_div(ys[j], prod_except(xs, xs[j], j, k));
    Seq::new(k, |d: int| gf_mul(scale, elementary(xs.remove(j), (k - 1 - d) as nat)))
}

/// The sum of the terms of the first `m` points.
pub open spec fn recovered_poly(xs: Seq<u32>, ys: Seq<u32>, m: nat) -> Seq<u32>
    decreases m,
{
    if m == 0 {
        Seq::empty()
    } else {
        poly_add(recovered_poly(xs, ys, (m - 1) as nat), lagrange_term(xs, ys, m - 1))
    }
}

impl GfPolynomial {
    /// Interpolate a polynomial of degree `n` in `GF(2^32)`, given a set of
    /// points along that polynomial.
    ///
    /// This takes a number of steps that doubles with each point, and is of
    /// use only where the coefficients themselves are asked for.
    #[verifier::rlimit(40)]
    pub fn recover(n: u32, points: &[GfPoint]) -> (res: Result<GfPolynomial, Error>)
        requires
            n < u32::MAX,
            distinct(point_xs(points@)),
        ensures
            points@.len() != n + 1 ==> res == Err::<GfPolynomial, Error>(
                Error::NumPointsMismatch { needed: (n + 1) as usize, num_points: points@.len() as usize },
            ),
            points@.len() == n + 1 ==> (res matches Ok(p) && p.wf() && p@ == recovered_poly(
                point_xs(points@),
                point_ys(points@),
                points@.len(),
            )),
    {
        let k = points.len();
        let needed: usize = n as usize + 1;
        if k != needed {
            return Err(Error::NumPointsMismatch { needed, num_points: k });
        }
        let ghost xs = point_xs(points@);
        let ghost ys = point_ys(points@);
        let mut sum = GfPolynomial(Vec::new());
        for j in 0..k
            invariant
                k == points@.len(),
                1 <= k <= 0x1_0000_0000,
                xs == point_xs(points@),
                ys == point_ys(points@),
                distinct(xs),
                sum@ == recovered_poly(xs, ys, j as nat),
                j > 0 ==> sum@.len() == k,
        {
            let xj = points[j].0;
            proof {
                assert(xs[j as int] == points@[j as int].0.0);
                assert(ys[j as int] == points@[j as int].1.0);
            }
            // The other x values, and the product of the differences to them.
            let mut others: Vec<u32> = Vec::new();
            let mut divisor = GfElem(1);
            for m in 0..k
                invariant
                    k == points@.len(),
                    xs == point_xs(points@),
                    0 <= j < k,
                    xj.0 == xs[j as int],
                    divisor.0 == prod_except(xs, xj.0, j as int, m as nat),
                    others@ == (if m <= j {
                        xs.take(m as int)
                    } else {
                        xs.take(m as int).remove(j as int)
                    }),
            {
                proof {
                    assert(xs[m as int] == points@[m as int].0.0);
                    assert(xs.take(m + 1) =~= xs.take(m as int).push(xs[m as int]));
                    if m == j {
                        assert(xs.take(m + 1).remove(j as int) =~= xs.take(m as int));
                    } else if m > j {
                        assert(xs.take(m + 1).remove(j as int) =~= xs.take(m as int).remove(
                            j as int,
                        ).push(xs[m as int]));
                    }
                }
                if m != j {
                    divisor = divisor * (xj - points[m].0);
                    others.push(points[m].0.0);
                }
            }
            proof {
                assert(xs.take(k as int) =~= xs);
                assert forall|i: int| 0 <= i < k && i != j implies xj.0 != xs[i] by {
                    if i < j {
                        assert(xs[i] != xs[j as int]);
                    } else {
                        assert(xs[j as int] != xs[i]);
                    }
                }
                lemma_prod_nonzero(xs, xj.0, j as int, k as nat);
            }
            let scale = points[j].1 / divisor;
            // The coefficients, from the highest degree down.
            let mut falling: Vec<GfElem> = Vec::new();
            for i in 0..k
                invariant
                    k == points@.len(),
                    others@ == xs.remove(j as int),
                    falling@.len() == i,
                    forall|d: int|
                        0 <= d < i ==> (#[trigger] falling@[d]).0 == gf_mul(
                            scale.0,
                            elementary(others@, d as nat),
                        ),
            {
                let chosen = combinations_of(others.as_slice(), i);
                let count = chosen.len();
                let mut total = GfElem(0);
                for c in 0..count
                    invariant
                        count == chosen@.len(),
                        total.0 == sum_of_products(lists(chosen@).take(c as int)),
                {
                    let list = &chosen[c];
                    let len = list.len();
                    let mut prod = GfElem(1);
                    for t in 0..len
                        invariant
                            len == list@.len(),
                            prod.0 == product(list@.take(t as int)),
                    {
                        proof {
                            assert(list@.take(t + 1).drop_last() =~= list@.take(t as int));
                        }
                        prod = prod * GfElem(list[t]);
                    }
                    proof {
                        assert(list@.take(len as int) =~= list@);
                        assert(lists(chosen@).take(c + 1).drop_last() =~= lists(chosen@).take(
                            c as int,
                        ));
                        assert(lists(chosen@).take(c + 1).last() == list@);
                    }
                    total = total + prod;
                }
                proof {
                    assert(lists(chosen@).take(count as int) =~= lists(chosen@));
                }
                falling.push(scale * total);
            }
            // We store coefficients in increasing order of x powers.
            let mut coeffs: Vec<GfElem> = Vec::new();
            for d in 0..k
                invariant
                    k == points@.len(),
                    falling@.len() == k,
                    coeffs@.len() == d,
                    forall|i: int| 0 <= i < d ==> coeffs@[i] == falling@[k - 1 - i],
            {
                coeffs.push(falling[k - 1 - d]);
            }
            let term = GfPolynomial(coeffs);
            proof {
                assert(term@ =~= lagrange_term(xs, ys, j as int)) by {
                    assert forall|d: int| 0 <= d < k implies term@[d] == lagrange_term(
                        xs,
                        ys,
                        j as int,
                    )[d] by {
                        assert(term@[d] == coeffs@[d].0);
                        assert(coeffs@[d] == falling@[k - 1 - d]);
                    }
                }
            }
            sum = sum + term;
        }
        Ok(sum)
    }
}

/// The product of `x - a` over the items `a`.
pub open spec fn product_of_differences(items: Seq<u32>, x: u32) -> u32
    decreases items.len(),
{
    if items.len() == 0 {
        1
    } else {
        gf_mul(gf_add(x, items[0]), product_of_differences(items.skip(1), x))
    }
}

/// The coefficients of the product of `x - a` over the items `a`: the
/// elementary symmetric polynomials of the items, from the highest degree
/// down.
pub open spec fn symmetric_poly(items: Seq<u32>) -> Seq<u32> {
    Seq::new(items.len() + 1, |d: int| elementary(items, (items.len() - d) as nat))
}

proof fn lemma_product_prepend(a: u32, c: Seq<u32>)
    ensures
        product(seq![a] + c) == gf_mul(a, product(c)),
    decreases c.len(),
{
    let ac = seq![a] + c;
    if c.len() == 0 {
        assert(ac.drop_last() =~= Seq::<u32>::empty());
        assert(product(ac.drop_last()) == 1);
        assert(ac.last() == a);
        lemma_gf_mul_units(a);
    } else {
        assert(ac.drop_last() =~= seq![a] + c.drop_last());
        assert(ac.last() == c.last());
        lemma_product_prepend(a, c.drop_last());
        lemma_gf_mul_associates(a, product(c.drop_last()), c.last());
    }
}

proof fn lemma_sum_prepend(a: u32, lists: Seq<Seq<u32>>)
    ensures
        sum_of_products(lists.map_values(|c: Seq<u32>| seq![a] + c)) == gf_mul(
            a,
            sum_of_products(lists),
        ),
    decreases lists.len(),
{
    let f = |c: Seq<u32>| seq![a] + c;
    if lists.len() == 0 {
        lemma_gf_mul_units(a);
    } else {
        assert(lists.map_values(f).drop_last() =~= lists.drop_last().map_values(f));
        lemma_sum_prepend(a, lists.drop_last());
        lemma_product_prepend(a, lists.last());
        lemma_gf_mul_add(a, sum_of_products(lists.drop_last()), product(lists.last()));
    }
}

proof fn lemma_sum_concat(a: Seq<Seq<u32>>, b: Seq<Seq<u32>>)
    ensures
        sum_of_products(a + b) == gf_add(sum_of_products(a), sum_of_products(b)),
    decreases b.len(),
{
    if b.len() == 0 {
        assert(a + b =~= a);
        lemma_gf_add_laws(sum_of_products(a), 0, 0);
    } else {
        assert((a + b).drop_last() =~= a + b.drop_last());
        lemma_sum_concat(a, b.drop_last());
        lemma_gf_add_laws(
            sum_of_products(a),
            sum_of_products(b.drop_last()),
            product(b.last()),
        );
    }
}

/// The elementary symmetric polynomials of some items, by the first item
/// and those of the others.
proof fn lemma_elementary(items: Seq<u32>, i: nat)
    ensures
        i == 0 ==> elementary(items, i) == 1,
        i > items.len() ==> elementary(items, i) == 0,
        i >= 1 && items.len() >= 1 ==> elementary(items, i) == gf_add(
            gf_mul(items[0], elementary(items.skip(1), (i - 1) as nat)),
            elementary(items.skip(1), i),
        ),
    decreases items.len(),
{
    if i == 0 {
        let one = seq![Seq::<u32>::empty()];
        assert(one.drop_last() =~= Seq::<Seq<u32>>::empty());
        assert(sum_of_products(one.drop_last()) == 0);
        lemma_gf_add_laws(1, 0, 0);
    } else if items.len() >= 1 {
        let tail = items.skip(1);
        lemma_elementary(tail, (i - 1) as nat);
        lemma_elementary(tail, i);
        if items.len() >= i {
            let with = combinations(tail, (i - 1) as nat);
            lemma_sum_prepend(items[0], with);
            lemma_sum_concat(
                with.map_values(|c: Seq<u32>| seq![items[0]] + c),
                combinations(tail, i),
            );
        } else {
            lemma_gf_mul_units(items[0]);
            lemma_gf_add_laws(0, 0, 0);
        }
    }
}

/// The elementary symmetric polynomials are the coefficients of the
/// product of `x - a` over the items `a`.
proof fn lemma_symmetric_poly(items: Seq<u32>, x: u32)
    ensures
        horner(symmetric_poly(items), x) == product_of_differences(items, x),
    decreases items.len(),
{
    let p = symmetric_poly(items);
    if items.len() == 0 {
        lemma_elementary(items, 0);
        assert(p.skip(1) =~= Seq::<u32>::empty());
        assert(horner(p.skip(1), x) == 0);
        lemma_gf_mul_units(x);
        lemma_gf_add_laws(1, 0, 0);
    } else {
        let tail = items.skip(1);
        let q = symmetric_poly(tail);
        let n = items.len() as int;
        lemma_symmetric_poly(tail, x);
        assert(p =~= poly_times_linear(q, items[0])) by {
            assert forall|d: int| 0 <= d <= n implies p[d] == poly_times_linear(q, items[0])[d] by {
                lemma_elementary(items, (n - d) as nat);
                lemma_elementary(tail, (n - d) as nat);
                lemma_gf_mul_units(items[0]);
                let a = gf_mul(items[0], elementary(tail, (n - d - 1) as nat));
                lemma_gf_add_laws(a, elementary(tail, (n - d) as nat), 0);
                lemma_gf_add_laws(1, 0, 0);
            }
        }
        lemma_horner_times_linear(q, items[0], x);
    }
}

proof fn lemma_product_of_differences_push(items: Seq<u32>, a: u32, x: u32)
    ensures
        product_of_differences(items.push(a), x) == gf_mul(
            product_of_differences(items, x),
            gf_add(x, a),
        ),
    decreases items.len(),
{
    let pushed = items.push(a);
    if items.len() == 0 {
        assert(pushed.skip(1) =~= Seq::<u32>::empty());
        assert(product_of_differences(pushed.skip(1), x) == 1);
        lemma_gf_mul_units(gf_add(x, a));
    } else {
        assert(pushed.skip(1) =~= items.skip(1).push(a));
        lemma_product_of_differences_push(items.skip(1), a, x);
        lemma_gf_mul_associates(
            gf_add(x, items[0]),
            product_of_differences(items.skip(1), x),
            gf_add(x, a),
        );
    }
}

proof fn lemma_prod_except_is_product(xs: Seq<u32>, x: u32, j: int, n: nat)
    requires
        0 <= j,
        n <= xs.len(),
    ensures
        prod_except(xs, x, j, n) == product_of_differences(
            if j < n {
                xs.take(n as int).remove(j)
            } else {
                xs.take(n as int)
            },
            x,
        ),
    decreases n,
{
    if n == 0 {
        assert(xs.take(0) =~= Seq::<u32>::empty());
    } else {
        let m = (n - 1) as nat;
        lemma_prod_except_is_product(xs, x, j, m);
        assert(xs.take(n as int) =~= xs.take(m as int).push(xs[m as int]));
        if m == j {
            assert(xs.take(n as int).remove(j) =~= xs.take(m as int));
        } else if j < m {
            assert(xs.take(n as int).remove(j) =~= xs.take(m as int).remove(j).push(xs[m as int]));
            lemma_product_of_differences_push(xs.take(m as int).remove(j), xs[m as int], x);
        } else {
            lemma_product_of_differences_push(xs.take(m as int), xs[m as int], x);
        }
    }
}

proof fn lemma_lagrange_term(xs: Seq<u32>, ys: Seq<u32>, j: int, x: u32)
    requires
        0 <= j < xs.len(),
    ensures
        lagrange_term(xs, ys, j).len() == xs.len(),
        horner(lagrange_term(xs, ys, j), x) == gf_mul(ys[j], basis(xs, j, x)),
{
    let k = xs.len();
    let others = xs.remove(j);
    let d = prod_except(xs, xs[j], j, k);
    let scale = gf_div(ys[j], d);
    assert(lagrange_term(xs, ys, j) =~= poly_scale(symmetric_poly(others), scale));
    lemma_horner_scale(symmetric_poly(others), scale, x);
    lemma_symmetric_poly(others, x);
    lemma_prod_except_is_product(xs, x, j, k);
    assert(xs.take(k as int) =~= xs);
    lemma_gf_mul_associates(ys[j], gf_inv(d), prod_except(xs, x, j, k));
}

proof fn lemma_recovered_poly(xs: Seq<u32>, ys: Seq<u32>, m: nat, x: u32)
    requires
        m <= xs.len(),
    ensures
        m >= 1 ==> recovered_poly(xs, ys, m).len() == xs.len(),
        horner(recovered_poly(xs, ys, m), x) == lagrange_sum(xs, ys, x, m),
    decreases m,
{
    if m > 0 {
        let j = m - 1;
        lemma_recovered_poly(xs, ys, j as nat, x);
        lemma_lagrange_term(xs, ys, j, x);
        lemma_horner_add(recovered_poly(xs, ys, j as nat), lagrange_term(xs, ys, j), x);
    }
}

/// Full interpolation gives the coefficients back: the polynomial that is
/// recovered from as many points of a polynomial as it has coefficients,
/// at distinct `x`, is that polynomial.
pub proof fn lemma_recovers_coefficients(xs: Seq<u32>, ys: Seq<u32>, p: Seq<u32>)
    requires
        distinct(xs),
        xs.len() >= 1,
        xs.len() == ys.len(),
        xs.len() == p.len(),
        forall|j: int| 0 <= j < xs.len() ==> ys[j] == poly_eval(p, #[trigger] xs[j]),
    ensures
        recovered_poly(xs, ys, xs.len()) == p,
{
    let r = recovered_poly(xs, ys, xs.len());
    let d = poly_add(r, p);
    lemma_recovered_poly(xs, ys, xs.len(), 0);
    assert forall|k: int| 0 <= k < xs.len() implies horner(d, #[trigger] xs[k]) == 0 by {
        lemma_recovered_poly(xs, ys, xs.len(), xs[k]);
        lemma_lagrange_sum_at_point(xs, ys, k, xs.len());
        lemma_horner_add(r, p, xs[k]);
        lemma_horner_is_eval(p, xs[k]);
        lemma_gf_add_laws(ys[k], ys[k], 0);
    }
    lemma_roots(d, xs);
    assert forall|i: int| 0 <= i < r.len() implies r[i] == p[i] by {
        assert(d[i] == 0);
        lemma_gf_add_laws(r[i], p[i], 0);
    }
    assert(r =~= p);
}

} // verus!
