use num_integer::Integer;
use period_sieve::eisenstein::{EisensteinInteger, PolynomialInQw, QwElement};
use period_sieve::family::{
    z3_table_possible_periods, z3c_possible_periods_search, z4_table_possible_periods,
    z4c_possible_periods_search, FamilyTable,
};
use period_sieve::rational::{PolynomialInQ, Rational};
use period_sieve::sieve::{possible_periods_search, possible_periods_search_qw};
use std::collections::HashSet;

#[test]
fn test_functionality() {
    let mut output = "".to_string();
    (-100_000..=100_000i64).into_iter().for_each(|a| {
        for b in 1..=60i64 {
            let b = b * b;
            // Analytic bound (should be above or below gcd?)
            let flo: f32 = (a as f32) / (b as f32);
            if flo > -0.913942 {
                continue;
            }
            let g = a.gcd(&b);
            if g != 1 && g != -1 {
                continue;
            }
            let fc = PolynomialInQ::from(vec![Rational::one(), Rational::zero(), Rational::new(a, b)]);

            let res = possible_periods_search(fc, 2);

            if let Some(possibilities) = res {
                output += format!("Manually check {}/{}\n(for: {:?})\n", a, b, possibilities).as_ref();
            }
        }
    });

    let correct_output = r"Manually check -34861/3600
(for: {3})
Manually check -25621/3600
(for: {3})
Manually check -11081/1600
(for: {3})
Manually check -8149/3600
(for: {3})
Manually check -7841/1600
(for: {3})
Manually check -6469/3600
(for: {3})
Manually check -2689/576
(for: {3})
Manually check -1849/576
(for: {3})
Manually check -421/144
(for: {3})
Manually check -301/144
(for: {3})
Manually check -29/16
(for: {3})
";
    assert!(output == correct_output);
}

#[test]
fn z_squared_minus_29_16_keeps_period_three() {
    let fc = PolynomialInQ::from(vec![Rational::one(), Rational::zero(), Rational::new(-29, 16)]);
    let res = possible_periods_search(fc, 2);
    assert!(res.unwrap().contains(&3));
}

#[test]
fn z_fourth_family_keeps_period_two() {
    let table = FamilyTable::new(4);
    let res = z4c_possible_periods_search(&table, Rational::new(-5649488755, 639128961), 1);
    assert!(!res.is_none());
    assert!(res.unwrap().contains(&2));

    let res = z4c_possible_periods_search(&table, Rational::new(-5649488754, 639128961), 1);
    assert!(res.is_none());
}

#[test]
fn z_fourth_general_search_agrees_with_family() {
    let c = Rational::new(-5649488755, 639128961);
    let f = PolynomialInQ::from(vec![Rational::one(), Rational::zero(), Rational::zero(), Rational::zero(), c]);
    let general = possible_periods_search(f, 1).unwrap();
    assert!(general.contains(&2));
    let table = FamilyTable::new(4);
    assert_eq!(Some(general), z4c_possible_periods_search(&table, c, 1));

    let c = Rational::new(-5649488754, 639128961);
    let f = PolynomialInQ::from(vec![Rational::one(), Rational::zero(), Rational::zero(), Rational::zero(), c]);
    assert!(possible_periods_search(f, 1).is_none());
}

#[test]
fn no_usable_prime_gives_empty_answer() {
    let d1 = 2 * 3 * 5 * 7 * 11 * 13 * 17 * 19 * 23 * 29 * 31 * 37 * 41 * 43 * 47i64;
    let d2 = 53 * 59 * 61 * 67 * 71 * 73 * 79 * 83 * 89 * 97i64;
    let f = PolynomialInQ::from(vec![Rational::new(1, d1), Rational::new(1, d2)]);
    assert_eq!(possible_periods_search(f, 1), Some(HashSet::new()));
}

#[test]
fn identity_map_over_qw() {
    let z = PolynomialInQw::from(vec![QwElement::one(), QwElement::zero()]);
    assert!(possible_periods_search_qw(z, 1).is_none());
    let z = PolynomialInQw::from(vec![QwElement::one(), QwElement::zero()]);
    let expected: HashSet<usize> = [1].into_iter().collect();
    assert_eq!(possible_periods_search_qw(z, 0), Some(expected));
}

#[test]
fn z_cubed_family_over_qw() {
    let c = QwElement::new(EisensteinInteger::zero(), EisensteinInteger::one());
    // z^3 has the fixed points 0 (multiplier 0) and 1 (multiplier 3)
    let table = FamilyTable::new(3);
    let res = z3c_possible_periods_search(&table, c, 0);
    let set = res.unwrap();
    assert!(set.contains(&1));
    // the table-based sieve agrees with the general one over Q(w) up to 100
    let c = QwElement::new(EisensteinInteger::new(-7, 2), EisensteinInteger::new(1, 0));
    let f = PolynomialInQw::from(vec![QwElement::one(), QwElement::zero(), QwElement::zero(), c]);
    let general = possible_periods_search_qw(f, 1);
    let family = z3c_possible_periods_search(&table, c, 1);
    if let (Some(g), Some(h)) = (&general, &family) {
        assert!(g.is_subset(h));
    }
}

#[test]
fn family_tables() {
    let t3 = FamilyTable::new(3);
    let t4 = FamilyTable::new(4);
    let expected: HashSet<usize> = [1, 6].into_iter().collect();
    assert_eq!(z3_table_possible_periods(&t3, 7, 0), expected);
    let expected: HashSet<usize> = [1, 2].into_iter().collect();
    assert_eq!(z4_table_possible_periods(&t4, 5, 0), expected);
}
