//! Rational numbers as numerator/denominator pairs, and polynomials over
//! the rationals reduced modulo a prime.
use crate::modular::{mod_inverse, usable_prime};
use crate::number_theory::{is_prime, lemma_cancel};
use crate::polynomial::{coeff_view, PolyModel, Polynomial};
use vstd::arithmetic::div_mod::*;
use vstd::arithmetic::mul::*;
use vstd::prelude::*;

verus! {

/// The residue modulo `p` of the fraction `numer / denom`: the `r` in
/// `[0, p)` with `r * denom == numer (mod p)`.
pub open spec fn residue_of(numer: int, denom: int, p: int) -> int {
    choose|r: int| 0 <= r < p && #[trigger] ((r * denom) % p) == numer % p
}

/// The residue of a fraction is the only solution in `[0, p)`.
pub proof fn lemma_residue_of(numer: int, denom: int, p: int, r: int)
    requires
        is_prime(p),
        denom % p != 0,
        0 <= r < p,
        (r * denom) % p == numer % p,
    ensures
        residue_of(numer, denom, p) == r,
{
    let r2 = residue_of(numer, denom, p);
    assert(0 <= r2 < p && (r2 * denom) % p == numer % p);
    lemma_mul_is_commutative(r * 1, denom);
    lemma_mul_is_commutative(r2, denom);
    lemma_mul_is_commutative(r, denom);
    lemma_cancel(denom, r, r2, p);
    lemma_small_mod(r as nat, p as nat);
    lemma_small_mod(r2 as nat, p as nat);
}

/// The residue in `[0, p)` of the fraction `numer / denom`.
pub fn residue_fraction(numer: i64, denom: i64, p: i64) -> (r: i64)
    requires
        usable_prime(p as int),
        denom as int % p as int != 0,
    ensures
        r == residue_of(numer as int, denom as int, p as int),
        0 <= r < p,
{
    let n = match numer.checked_rem_euclid(p) {
        Some(v) => v,
        None => 0,
    };
    let inv = mod_inverse(denom, p);
    proof {
        assert(n * inv < 0x4000_0000_0000_0000) by (nonlinear_arith)
            requires
                0 <= n < p,
                0 < inv < p,
                p <= 2147483647,
        ;
    }
    let r = (n * inv) % p;
    proof {
        // r * denom == n * (inv * denom) == n  (mod p)
        lemma_mul_mod_noop_left(n * inv, denom as int, p as int);
        lemma_mul_is_associative(n as int, inv as int, denom as int);
        lemma_mul_mod_noop_right(n as int, inv * denom, p as int);
        lemma_mul_mod_noop_right(n as int, 1, p as int);
        lemma_mod_twice(numer as int, p as int);
        lemma_mod_bound(n * inv, p as int);
        assert((r * denom) % p as int == ((n * inv) * denom) % p as int);
        assert((n * inv) * denom == n * (inv * denom));
        assert((n * (inv * denom)) % p as int == (n * ((inv * denom) % p as int)) % p as int);
        assert((inv * denom) % p as int == 1);
        assert(n * 1 == n);
        assert((n as int) % p as int == numer as int % p as int);
        lemma_residue_of(numer as int, denom as int, p as int, r as int);
    }
    r
}

/// A fraction `numer / denom` (not necessarily in lowest terms).
#[derive(PartialEq, Eq, Structural, Debug, Copy, Clone)]
pub struct Rational {
    pub numer: i64,
    pub denom: i64,
}

impl Rational {
    pub fn new(a: i64, b: i64) -> (r: Rational)
        ensures
            r.numer == a,
            r.denom == b,
    {
        Rational { numer: a, denom: b }
    }

    pub fn zero() -> (r: Rational)
        ensures
            r.numer == 0,
            r.denom == 1,
    {
        Rational { numer: 0, denom: 1 }
    }

    pub fn one() -> (r: Rational)
        ensures
            r.numer == 1,
            r.denom == 1,
    {
        Rational { numer: 1, denom: 1 }
    }

    /// The image of this fraction in `F_p`, for a prime `p` not dividing the
    /// denominator.
    pub fn reduce(&self, p: usize) -> (r: usize)
        requires
            usable_prime(p as int),
            self.denom as int % p as int != 0,
        ensures
            r == residue_of(self.numer as int, self.denom as int, p as int),
            r < p,
    {
        residue_fraction(self.numer, self.denom, p as i64) as usize
    }
}

/// Every denominator of `coeffs` is prime to `p`.
pub open spec fn good_reduction(coeffs: Seq<Rational>, p: int) -> bool {
    forall|i: int| 0 <= i < coeffs.len() ==> #[trigger] coeffs[i].denom as int % p != 0
}

/// The polynomial over `F_p` obtained by reducing each coefficient.
pub open spec fn reduction_q(coeffs: Seq<Rational>, p: int) -> PolyModel {
    PolyModel {
        cs: Seq::new(
            coeffs.len(),
            |i: int| residue_of(coeffs[i].numer as int, coeffs[i].denom as int, p),
        ),
        modulus: Some(p),
    }
}

/// A polynomial with rational coefficients, highest degree first.
pub struct PolynomialInQ {
    pub coeffs: Vec<Rational>,
}

impl PolynomialInQ {
    pub fn from(coeffs: Vec<Rational>) -> (r: PolynomialInQ)
        ensures
            r.coeffs@ == coeffs@,
    {
        PolynomialInQ { coeffs: coeffs }
    }

    /// Whether every coefficient's denominator is prime to `p`.
    pub fn has_good_reduction(&self, p: usize) -> (r: bool)
        requires
            0 < p <= i64::MAX,
        ensures
            r == good_reduction(self.coeffs@, p as int),
    {
        let pi = p as i64;
        for i in 0..self.coeffs.len()
            invariant
                pi == p,
                0 < p <= i64::MAX,
                forall|j: int| 0 <= j < i ==> #[trigger] self.coeffs@[j].denom as int % p as int != 0,
        {
            let d = match self.coeffs[i].denom.checked_rem_euclid(pi) {
                Some(v) => v,
                None => 0,
            };
            if d == 0 {
                return false;
            }
        }
        true
    }

    /// The reduction modulo `p`: each coefficient replaced by its residue.
    pub fn do_reduction(&self, p: usize) -> (r: Polynomial)
        requires
            usable_prime(p as int),
            good_reduction(self.coeffs@, p as int),
        ensures
            r.model() == reduction_q(self.coeffs@, p as int),
            r.p_mod == Some(p as i64),
            forall|i: int| 0 <= i < r.coeffs.len() ==> 0 <= #[trigger] r.coeffs@[i] < p,
    {
        let mut coeffs: Vec<i64> = Vec::new();
        let ghost target = reduction_q(self.coeffs@, p as int).cs;
        for i in 0..self.coeffs.len()
            invariant
                usable_prime(p as int),
                good_reduction(self.coeffs@, p as int),
                target == reduction_q(self.coeffs@, p as int).cs,
                coeffs.len() == i,
                forall|j: int| 0 <= j < i ==> #[trigger] coeffs@[j] == target[j] && 0 <= coeffs@[j] < p,
        {
            let c = self.coeffs[i];
            proof {
                assert(c.denom as int % p as int != 0);
            }
            coeffs.push(residue_fraction(c.numer, c.denom, p as i64));
        }
        let r = Polynomial::new(coeffs, Some(p as i64));
        proof {
            assert(coeff_view(r.coeffs@) =~= target);
        }
        r
    }
}

} // verus!
