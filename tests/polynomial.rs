use period_sieve::periods::{cycle_walk, fast_possible_periods};
use period_sieve::polynomial::Polynomial;
use std::collections::HashSet;

#[test]
fn eval_modular_and_plain() {
    let f = Polynomial::new(vec![1, 0, 1], Some(5));
    assert_eq!(f.eval(3), 0);
    assert_eq!(f.eval(-1), 2);
    let g = Polynomial::new(vec![1, 0, -2], None);
    assert_eq!(g.eval(3), 7);
    assert_eq!(g.eval(-3), 7);
}

#[test]
fn derivative_values() {
    let f = Polynomial::new(vec![1, 0, 0, 0, 4], Some(5));
    assert_eq!(f.derivative().coeffs, vec![4, 0, 0, 0]);
    let g = Polynomial::new(vec![3, 2, 1], None);
    let d = g.derivative();
    assert_eq!(d.coeffs, vec![6, 2]);
    assert_eq!(d.p_mod, None);
    let h = Polynomial::new(vec![4, 0, 0], Some(5));
    assert_eq!(h.derivative().coeffs, vec![3, 0]);
}

#[test]
fn orbit_and_multiplier() {
    let f = Polynomial::new(vec![1, 0, 1], Some(5));
    assert_eq!(f.n_orbit(0, 4), vec![0, 1, 2, 0]);
    let g = Polynomial::new(vec![1, 0, 0], Some(5));
    assert_eq!(g.multiplier(1, 1), 2);
    assert_eq!(g.multiplier(1, 0), 0);
    // z^2 + 1 mod 5 has the 3-cycle 0 -> 1 -> 2 -> 0, with derivative 2z
    assert_eq!(f.multiplier(3, 1), 0);
}

#[test]
fn periods_of_z_squared_mod_5() {
    let f = Polynomial::new(vec![1, 0, 0], Some(5));
    let expected: HashSet<usize> = [1, 4].into_iter().collect();
    assert_eq!(fast_possible_periods(f), expected);
}

#[test]
fn periods_at_three_get_the_extra_factor() {
    let f = Polynomial::new(vec![1, 0, 1], Some(3));
    let expected: HashSet<usize> = [1, 3].into_iter().collect();
    assert_eq!(fast_possible_periods(f), expected);
}

#[test]
fn walk_visits_every_residue_once() {
    let f = Polynomial::new(vec![1, 0, 0], Some(5));
    let (table, periods) = cycle_walk(&f);
    assert_eq!(table, vec![(0, 1), (1, 2), (4, 3), (4, 5), (1, 4)]);
    let mut seen: Vec<usize> = table.iter().map(|e| e.1).collect();
    seen.sort();
    assert_eq!(seen, vec![1, 2, 3, 4, 5]);
    assert_eq!(periods.len(), 2);
    for p in [7i64, 11, 97] {
        let g = Polynomial::new(vec![1, 0, 3, 1], Some(p));
        let (t, _) = cycle_walk(&g);
        let mut idx: Vec<usize> = t.iter().map(|e| e.1).collect();
        idx.sort();
        assert_eq!(idx, (1..=p as usize).collect::<Vec<_>>());
        for (x, e) in t.iter().enumerate() {
            assert_eq!(e.0 as i64, g.eval(x as i64));
        }
    }
}
