use paperback_core::shamir::gf::{Error, GfElem, GfPoint};
use paperback_core::shamir::lagrange::{lagrange_constant, GfBarycentric};
use paperback_core::shamir::polynomial::{EvaluablePolynomial, GfPolynomial};
use rand::{rngs::OsRng, RngCore};

fn random_poly(len: usize) -> GfPolynomial {
    GfPolynomial((0..len).map(|_| GfElem(OsRng.next_u32())).collect())
}

fn distinct_xs(n: usize) -> Vec<GfElem> {
    let mut xs: Vec<GfElem> = Vec::new();
    while xs.len() < n {
        let x = GfElem(OsRng.next_u32());
        if x != GfElem(0) && !xs.contains(&x) {
            xs.push(x);
        }
    }
    xs
}

// Inefficient, but "obviously correct" evaluation.
fn manual_poly(poly: &GfPolynomial, x: GfElem) -> GfElem {
    let mut sum = GfElem(0);
    for (n, &coeff) in poly.0.iter().enumerate() {
        sum = sum + coeff * x.pow(n);
    }
    sum
}

fn points_of(poly: &GfPolynomial, xs: &[GfElem]) -> Vec<GfPoint> {
    xs.iter().map(|&x| (x, poly.evaluate(x))).collect()
}

#[test]
fn polynomial_evaluate() {
    for len in 1..20 {
        let poly = random_poly(len);
        for _ in 0..5 {
            let x = GfElem(OsRng.next_u32());
            assert_eq!(poly.evaluate(x), manual_poly(&poly, x));
        }
    }
    let poly = GfPolynomial(vec![GfElem(1), GfElem(2), GfElem(3)]);
    // 1 + 2*2 + 3*4, in GF(2^32): 1 ^ 4 ^ 12
    assert_eq!(poly.evaluate(GfElem(2)), GfElem(1 ^ 4 ^ 12));
}

#[test]
fn polynomial_add_distributivity() {
    for (la, lb) in [(1, 1), (3, 5), (5, 3), (8, 8), (1, 12)] {
        let a = random_poly(la);
        let b = random_poly(lb);
        let x = GfElem(OsRng.next_u32());
        let ab = a.clone() + b.clone();
        assert_eq!(ab.0.len(), la.max(lb));
        assert_eq!(ab.evaluate(x), a.evaluate(x) + b.evaluate(x));
        let mut sum = a.clone();
        sum += b.clone();
        assert_eq!(sum, ab);
    }
}

#[test]
fn polynomial_constant() {
    for len in 1..10 {
        let poly = random_poly(len);
        assert_eq!(poly.evaluate(GfElem(0)), poly.constant());
        assert_eq!(poly.degree(), (len - 1) as u32);
    }
}

#[test]
fn polynomial_constant_mut() {
    let mut poly = random_poly(4);
    *poly.constant_mut() = GfElem(42);
    assert_eq!(poly.constant(), GfElem(42));
    assert_eq!(poly.0[0], GfElem(42));
}

#[test]
fn polynomial_new_rand_has_no_zero_coefficient() {
    let poly = GfPolynomial::new_rand(40);
    assert_eq!(poly.0.len(), 41);
    assert_eq!(poly.degree(), 40);
    assert!(poly.0.iter().all(|&c| c != GfElem(0)));
}

#[test]
fn polynomial_lagrange_constant() {
    for len in 1..30 {
        let poly = random_poly(len);
        let n = poly.degree();
        let xs = distinct_xs(len);
        let points = points_of(&poly, &xs);
        let constant = lagrange_constant(n, points.as_slice())
            .expect("should not get errors from lagrange_constant");
        assert_eq!(poly.constant(), constant);
    }
}

#[test]
fn polynomial_barycentric_recover() {
    for len in [1usize, 2, 3, 7, 20, 86] {
        let poly = random_poly(len);
        let n = poly.degree();
        let xs = distinct_xs(len);
        let points = points_of(&poly, &xs);
        let interpolated = GfBarycentric::recover(n, points.as_slice())
            .expect("should not get errors from barycentric recovery");
        assert_eq!(interpolated.degree(), n);
        for _ in 0..10 {
            let x = GfElem(OsRng.next_u32());
            if xs.contains(&x) {
                continue;
            }
            assert_eq!(interpolated.evaluate(x), poly.evaluate(x));
        }
        assert_eq!(interpolated.constant(), poly.constant());
    }
}

#[test]
fn constant_polynomial_has_one_value() {
    let points = vec![(GfElem(17), GfElem(99))];
    let interpolated = GfBarycentric::recover(0, points.as_slice()).unwrap();
    assert_eq!(interpolated.evaluate(GfElem(3)), GfElem(99));
    assert_eq!(interpolated.evaluate(GfElem(0)), GfElem(99));
    assert_eq!(lagrange_constant(0, points.as_slice()), Ok(GfElem(99)));
}

#[test]
fn wrong_number_of_points() {
    let points = vec![(GfElem(1), GfElem(2)), (GfElem(3), GfElem(4))];
    assert_eq!(
        lagrange_constant(2, points.as_slice()),
        Err(Error::NumPointsMismatch { needed: 3, num_points: 2 })
    );
    assert_eq!(
        lagrange_constant(0, points.as_slice()),
        Err(Error::NumPointsMismatch { needed: 1, num_points: 2 })
    );
    match GfBarycentric::recover(4, points.as_slice()) {
        Err(Error::NumPointsMismatch { needed: 5, num_points: 2 }) => {}
        other => panic!("unexpected {:?}", other),
    }
}

#[test]
fn zero_x_has_no_inverse() {
    let points = vec![(GfElem(0), GfElem(2)), (GfElem(3), GfElem(4))];
    assert_eq!(lagrange_constant(1, points.as_slice()), Err(Error::NonInvertiblePoint));
}

#[test]
fn polynomial_lagrange_recover() {
    for len in [1usize, 2, 3, 5, 9, 12] {
        let poly = random_poly(len);
        let n = poly.degree();
        let xs = distinct_xs(len);
        let points = points_of(&poly, &xs);
        let interpolated_poly =
            GfPolynomial::recover(n, points.as_slice()).expect("should not get errors from lagrange");
        assert_eq!(poly, interpolated_poly);
    }
    let points = vec![(GfElem(1), GfElem(2)), (GfElem(3), GfElem(4))];
    assert_eq!(
        GfPolynomial::recover(2, points.as_slice()),
        Err(Error::NumPointsMismatch { needed: 3, num_points: 2 })
    );
    // the line through (1, 2) and (3, 4) in GF(2^32) is 1 + 3 * x
    assert_eq!(
        GfPolynomial::recover(1, points.as_slice()),
        Ok(GfPolynomial(vec![GfElem(1), GfElem(3)]))
    );
}

#[test]
fn clones_are_equal() {
    let poly = random_poly(7);
    assert_eq!(poly.clone(), poly);
    let xs = distinct_xs(7);
    let form = GfBarycentric::recover(6, points_of(&poly, &xs).as_slice()).unwrap();
    assert_eq!(form.clone().evaluate(GfElem(0)), form.evaluate(GfElem(0)));
}

#[test]
fn barycentric_form_at_its_points() {
    for len in [1usize, 2, 5, 12] {
        let poly = random_poly(len);
        let xs = distinct_xs(len);
        let points = points_of(&poly, &xs);
        let form = GfBarycentric::recover(poly.degree(), points.as_slice()).unwrap();
        for &(x, y) in &points {
            assert_eq!(form.evaluate(x), y);
        }
    }
    // a point at zero is no hindrance
    let points = vec![(GfElem(0), GfElem(5)), (GfElem(1), GfElem(7))];
    let form = GfBarycentric::recover(1, points.as_slice()).unwrap();
    assert_eq!(form.evaluate(GfElem(0)), GfElem(5));
    assert_eq!(form.constant(), GfElem(5));
    assert_eq!(form.evaluate(GfElem(1)), GfElem(7));
    // the line is 5 + 2 * x
    assert_eq!(form.evaluate(GfElem(2)), GfElem(5 ^ 4));
}
