use paperback_core::shamir::gf::GfElem;
use rand::{rngs::OsRng, RngCore};

fn samples() -> Vec<GfElem> {
    let mut values = vec![
        GfElem(0),
        GfElem(1),
        GfElem(2),
        GfElem(3),
        GfElem(0x8000_0000),
        GfElem(0xffff_ffff),
        GfElem(0xdead_beef),
        GfElem(0x0040_0007),
    ];
    for _ in 0..24 {
        values.push(GfElem(OsRng.next_u32()));
    }
    values
}

#[test]
fn mul_small_values() {
    assert_eq!(GfElem::polynomial_mul(2, 3), 6);
    assert_eq!(GfElem::polynomial_mul(0x8000_0000, 2), 0x0040_0007);
    assert_eq!(GfElem::polynomial_mul(0xffff_ffff, 0xffff_ffff), 0xaad5_4ffe);
    assert_eq!(GfElem::polynomial_mul(0xdead_beef, 0x1234_5678), 0x9f14_ad51);
    assert_eq!((GfElem(5) * GfElem::one()).inner(), 5);
    assert_eq!((GfElem(5) * GfElem::zero()).inner(), 0);
}

#[test]
fn add_associativity() {
    for a in samples() {
        for b in samples() {
            assert_eq!(a + b, b + a);
        }
    }
}

#[test]
fn mul_associativity() {
    for a in samples() {
        for b in samples() {
            assert_eq!(a * b, b * a);
        }
    }
}

#[test]
fn add_commutativity() {
    let s = samples();
    for i in 0..s.len() {
        let (a, b, c) = (s[i], s[(i + 5) % s.len()], s[(i + 11) % s.len()]);
        assert_eq!((a + b) + c, a + (b + c));
    }
}

#[test]
fn mul_commutativity() {
    let s = samples();
    for i in 0..s.len() {
        let (a, b, c) = (s[i], s[(i + 5) % s.len()], s[(i + 11) % s.len()]);
        assert_eq!((a * b) * c, a * (b * c));
    }
}

#[test]
fn div_commutativity() {
    let s = samples();
    for i in 0..s.len() {
        let (a, b, c, d) =
            (s[i], s[(i + 3) % s.len()], s[(i + 7) % s.len()], s[(i + 13) % s.len()]);
        if b == GfElem(0) || d == GfElem(0) {
            continue;
        }
        assert_eq!((a / b) * (c / d), (a * c) / (b * d));
    }
}

#[test]
fn add_identity() {
    for a in samples() {
        assert_eq!(a + GfElem::zero(), a);
    }
}

#[test]
fn mul_identity() {
    for a in samples() {
        assert_eq!(a * GfElem::one(), a);
    }
}

#[test]
fn mul_zero_identity() {
    for a in samples() {
        assert_eq!(a * GfElem::zero(), GfElem::zero());
    }
}

#[test]
fn add_inverse() {
    for a in samples() {
        let a_inv = GfElem::zero() - a;
        assert_eq!(a + a_inv, GfElem::zero());
        assert_eq!(-a, a);
    }
}

#[test]
fn add_inverse_alt() {
    for a in samples() {
        assert_eq!(a - a, GfElem::zero());
    }
}

#[test]
fn mul_inverse() {
    for a in samples() {
        match (a, a.inverse()) {
            (GfElem(0), None) => {}
            (_, Some(a_inv)) => assert_eq!(a * a_inv, GfElem::one()),
            _ => panic!("no inverse of {:?}", a),
        }
    }
}

#[test]
fn div_inverse() {
    for a in samples() {
        match (a, a.inverse()) {
            (GfElem(0), None) => {}
            (_, Some(a_inv)) => assert_eq!(GfElem::one() / a, a_inv),
            _ => panic!("no inverse of {:?}", a),
        }
    }
}

#[test]
fn div_inverse_alt() {
    for a in samples() {
        if a != GfElem(0) {
            assert_eq!(a / a, GfElem::one());
        }
    }
}

#[test]
fn div_mul_invertibility() {
    for a in samples() {
        for b in samples() {
            if b != GfElem(0) {
                assert_eq!((a / b) * b, a);
            }
        }
    }
}

#[test]
fn distributivity() {
    let s = samples();
    for i in 0..s.len() {
        let (a, b, c) = (s[i], s[(i + 5) % s.len()], s[(i + 11) % s.len()]);
        assert_eq!(a * (b + c), (a * b) + (a * c));
    }
}

#[test]
fn fractions() {
    let s = samples();
    for i in 0..s.len() {
        let (a, b, c, d) =
            (s[i], s[(i + 3) % s.len()], s[(i + 7) % s.len()], s[(i + 13) % s.len()]);
        if b == GfElem(0) || d == GfElem(0) {
            continue;
        }
        assert_eq!((a / b) + (c / d), ((a * d) + (c * b)) / (b * d));
    }
}

#[test]
fn assigning_operators() {
    let mut a = GfElem(0x1234_5678);
    a += GfElem(0x0f0f_0f0f);
    assert_eq!(a, GfElem(0x1234_5678 ^ 0x0f0f_0f0f));
    a -= GfElem(0x0f0f_0f0f);
    assert_eq!(a, GfElem(0x1234_5678));
    a *= GfElem(2);
    assert_eq!(a, GfElem(0x2468_acf0));
    a /= GfElem(2);
    assert_eq!(a, GfElem(0x1234_5678));
}

#[test]
fn inverse_of_some_values() {
    assert_eq!(GfElem(1).inverse(), Some(GfElem(1)));
    assert!(GfElem(0).inverse().is_none());
    let two_inv = GfElem(2).inverse().unwrap();
    // x * (x^31 + x^21 + x + 1) = x^32 + x^22 + x^2 + x = 1
    assert_eq!(two_inv, GfElem(0x8020_0003));
}

#[test]
fn power_is_repeated_multiplication() {
    for a in samples() {
        assert_eq!(a.pow(0), GfElem::one());
        assert_eq!(a.pow(1), a);
        assert_eq!(a.pow(2), a * a);
        assert_eq!(a.pow(5), a * a * a * a * a);
        assert_eq!(a.pow(13), a.pow(8) * a.pow(5));
    }
    assert_eq!(GfElem(2).pow(32), GfElem(0x0040_0007));
}

#[test]
fn every_element_has_order_dividing_the_group() {
    for a in samples() {
        if a != GfElem(0) {
            let mut p = a;
            for _ in 0..32 {
                p = p * p;
            }
            assert_eq!(p, a);
        }
    }
}

#[test]
fn division_of_polynomials() {
    assert_eq!(GfElem::polynomial_div(0x0040_0007, 1, true), (0x0040_0007, 0));
    assert_eq!(GfElem::polynomial_div(7, 2, false), (3, 1));
    assert_eq!(GfElem::polynomial_div(5, 7, false), (1, 2));
    assert_eq!(GfElem::polynomial_div(5, 8, false), (0, 5));
    // x^32 + x^22 + x^2 + x + 1 = (x^31 + x^21 + x + 1) * x + 1
    assert_eq!(GfElem::polynomial_div(0x0040_0007, 2, true), (0x8020_0003, 1));
}

#[test]
fn bytes_round_trip() {
    let e = GfElem::from_bytes(&[0xef, 0xbe, 0xad, 0xde]);
    assert_eq!(e.inner(), 0xdead_beef);
    assert_eq!(e.to_bytes(), vec![0xef, 0xbe, 0xad, 0xde]);
    let (e, rest) = GfElem::from_bytes_partial(&[1, 2, 3, 4, 5, 6]);
    assert_eq!(e.inner(), 0x0403_0201);
    assert_eq!(rest, &[5, 6]);
    let (e, rest) = GfElem::from_bytes_partial(&[1, 2]);
    assert_eq!(e.inner(), 0x0201);
    assert!(rest.is_empty());
    assert_eq!(GfElem::from_bytes(&[]).inner(), 0);
    assert_eq!(GfElem::from_inner(7).inner(), 7);
}

#[test]
fn random_elements_differ() {
    let a = GfElem::new_rand();
    let b = GfElem::new_rand();
    let c = GfElem::new_rand();
    assert!(a != b || b != c);
}
