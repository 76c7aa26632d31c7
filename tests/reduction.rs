use period_sieve::eisenstein::{EisensteinInteger, PolynomialInQw, QwElement};
use period_sieve::rational::{PolynomialInQ, Rational};

#[test]
fn reduction_example() {
    let num = EisensteinInteger::new(-8, 5);
    let den = EisensteinInteger::new(6, 7);
    let nd = QwElement::new(num, den);

    assert_eq!(nd.reductions(7), (Some(2), Some(5)));

    println!("{:?}", num.gcd(&den));
}

#[test]
fn another_example() {
    let a = EisensteinInteger::new(2, 3);
    let b = EisensteinInteger::new(0, 1);
    println!("{:?}", a.division(&b));
    assert_eq!(a.division(&b), EisensteinInteger::new(1, -2));
}

#[test]
fn division_rounds_halves_away_from_zero() {
    let two = EisensteinInteger::new(2, 0);
    assert_eq!(EisensteinInteger::new(1, 0).division(&two), EisensteinInteger::new(1, 0));
    assert_eq!(EisensteinInteger::new(-1, 0).division(&two), EisensteinInteger::new(-1, 0));
    assert_eq!(EisensteinInteger::new(7, 0).division(&EisensteinInteger::new(3, 0)), EisensteinInteger::new(2, 0));
}

#[test]
fn eisenstein_ring_operations() {
    let x = EisensteinInteger::new(2, 3);
    let y = EisensteinInteger::new(1, 1);
    assert_eq!(x.product(y), EisensteinInteger::new(-1, 2));
    assert_eq!(x.norm_sq(), 7);
    assert_eq!(x.conjugate(), EisensteinInteger::new(-1, -3));
    assert_eq!(x.difference(&y), EisensteinInteger::new(1, 2));
    assert!(EisensteinInteger::zero().is_zero());
    assert!(!EisensteinInteger::one().is_zero());
}

#[test]
fn eisenstein_units() {
    for (a, b) in [(1, 0), (-1, 0), (0, 1), (0, -1), (1, 1), (-1, -1)] {
        assert!(EisensteinInteger::new(a, b).is_unit());
    }
    assert!(!EisensteinInteger::new(2, 0).is_unit());
    assert!(!EisensteinInteger::new(1, -1).is_unit());
    assert!(!EisensteinInteger::zero().is_unit());
}

#[test]
fn gcd_finds_common_factor() {
    let g = EisensteinInteger::new(2, 1);
    let x = g.product(EisensteinInteger::new(3, 0));
    let y = g.product(EisensteinInteger::new(1, 1));
    let d = x.gcd(&y);
    assert_eq!(d.norm_sq(), 3);
    let unit = EisensteinInteger::new(2, 3).gcd(&EisensteinInteger::new(0, 1));
    assert!(unit.is_unit());
}

#[test]
fn eisenstein_images_at_seven() {
    // w goes to 4 and to 2 modulo 7
    assert_eq!(EisensteinInteger::new(1, 1).reductions(7), (5, 3));
    assert_eq!(EisensteinInteger::new(1, 0).reductions(7), (1, 1));
}

#[test]
fn qw_reduction_with_one_bad_map() {
    // 3 + w maps to 0 when w goes to 4 modulo 7, and to 5 when w goes to 2
    let q = QwElement::new(EisensteinInteger::one(), EisensteinInteger::new(3, 1));
    assert_eq!(q.reductions(7), (None, Some(3)));
    let f = PolynomialInQw::from(vec![QwElement::one(), q]);
    let (r1, r2) = f.reductions(7);
    assert!(r1.is_none());
    let r2 = r2.unwrap();
    assert_eq!(r2.coeffs, vec![1, 3]);
    assert_eq!(r2.p_mod, Some(7));
}

#[test]
fn rational_reduce_values() {
    assert_eq!(Rational::new(3, 4).reduce(7), 6);
    assert_eq!(Rational::new(-1, 2).reduce(5), 2);
    assert_eq!(Rational::zero().reduce(3), 0);
    assert_eq!(Rational::one().reduce(3), 1);
}

#[test]
fn polynomial_in_q_reduction() {
    let f = PolynomialInQ::from(vec![Rational::one(), Rational::zero(), Rational::new(-29, 16)]);
    assert!(!f.has_good_reduction(2));
    assert!(f.has_good_reduction(3));
    let g = f.do_reduction(3);
    assert_eq!(g.coeffs, vec![1, 0, 1]);
    assert_eq!(g.p_mod, Some(3));
}

#[test]
fn gcd_is_the_euclidean_result() {
    // -8 + 5w == (6 + 7w)(1 + 2w), so the first remainder is already zero
    let num = EisensteinInteger::new(-8, 5);
    let den = EisensteinInteger::new(6, 7);
    assert_eq!(num.gcd(&den), den);
    assert_eq!(den.gcd(&num), den);
}

#[test]
fn eisenstein_reductions_are_ring_maps() {
    let x = EisensteinInteger::new(-8, 5);
    let y = EisensteinInteger::new(6, 7);
    for p in [7i64, 13, 19, 31] {
        let (x1, x2) = x.reductions(p);
        let (y1, y2) = y.reductions(p);
        let (m1, m2) = x.product(y).reductions(p);
        assert_eq!(m1, (x1 * y1) % p);
        assert_eq!(m2, (x2 * y2) % p);
        let (d1, d2) = x.difference(&y).reductions(p);
        assert_eq!(d1, (x1 - y1).rem_euclid(p));
        assert_eq!(d2, (x2 - y2).rem_euclid(p));
        assert_eq!(EisensteinInteger::one().reductions(p), (1, 1));
    }
}
