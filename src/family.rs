//! The one-parameter families `z^d + c`: their candidate period sets at
//! every small prime and every residue of `c`, computed once into a
//! read-only table, and the sieves over `c` that read that table.
use crate::eisenstein::{
    omega_first,
    good_root, image, lemma_other_root, omega_root, qw_image, reduction_qw, same_residue,
    EisensteinInteger, QwElement,
};
use crate::modular::{has_qw_homomorphism, prime};
use crate::number_theory::is_prime;
use crate::periods::{cycle_walk, period_set};
use crate::polynomial::{coeff_view, PolyModel, Polynomial};
use crate::rational::{good_reduction, lemma_residue_of, reduction_q, residue_of, Rational};
use crate::sieve::{
    above_set, has_above, intersect, lemma_qw_at, lemma_sieve_q_shrinks, lemma_sieve_qw_shrinks,
    qw_at, search_q, search_qw, sieve_q, sieve_qw, usable_q, Q_LADDER_TOP,
};
use std::collections::HashSet;
use vstd::arithmetic::div_mod::lemma_small_mod;
use vstd::prelude::*;

verus! {

/// The largest prime tried by the sieves over the families.
pub const FAMILY_LADDER_TOP: usize = 100;

/// `z^d + c` over `F_p`.
pub open spec fn family_model(d: nat, p: int, c: int) -> PolyModel {
    PolyModel {
        cs: Seq::new(
            d + 1,
            |i: int|
                if i == 0 {
                    1
                } else if i == d {
                    c
                } else {
                    0
                },
        ),
        modulus: Some(p),
    }
}

/// The coefficients of `z^4 + c` over the rationals.
pub open spec fn z4_coeffs(c: Rational) -> Seq<Rational> {
    seq![
        Rational { numer: 1, denom: 1 },
        Rational { numer: 0, denom: 1 },
        Rational { numer: 0, denom: 1 },
        Rational { numer: 0, denom: 1 },
        c,
    ]
}

/// The coefficients of `z^3 + c` over Q(w).
pub open spec fn z3_coeffs(c: QwElement) -> Seq<QwElement> {
    let one = EisensteinInteger { a: 1, b: 0 };
    let zero = QwElement { numer: EisensteinInteger { a: 0, b: 0 }, denom: one };
    seq![QwElement { numer: one, denom: one }, zero, zero, c]
}

/// `v` lists, without repetition, the candidate periods of `z^d + c` modulo `p`.
pub open spec fn family_entry(d: nat, p: int, c: int, v: Seq<usize>) -> bool {
    v.no_duplicates() && v.to_set() == period_set(family_model(d, p, c))
}

/// A row of the table for the prime `p`: one entry for each residue.
pub open spec fn family_row(d: nat, p: int, row: Seq<Vec<usize>>) -> bool {
    row.len() == p && forall|c: int| 0 <= c < p ==> #[trigger] family_entry(d, p, c, row[c]@)
}

/// The candidate period sets of `z^d + c` at every prime `p` up to 100 and
/// every residue `c` modulo `p`.
pub struct FamilyTable {
    degree: usize,
    sets: Vec<Vec<Vec<usize>>>,
}

/// `z^d + c` as a polynomial modulo `p`.
fn family_poly(d: usize, p: usize, c: usize) -> (r: Polynomial)
    requires
        1 <= d <= 16,
        c < p <= FAMILY_LADDER_TOP,
    ensures
        r.model() == family_model(d as nat, p as int, c as int),
        r.p_mod == Some(p as i64),
{
    let mut v: Vec<i64> = Vec::new();
    v.push(1);
    for i in 1..d
        invariant
            v.len() == i,
            v@[0] == 1,
            forall|j: int| 1 <= j < i ==> #[trigger] v@[j] == 0,
    {
        v.push(0);
    }
    v.push(c as i64);
    let r = Polynomial::new(v, Some(p as i64));
    proof {
        assert(coeff_view(r.coeffs@) =~= family_model(d as nat, p as int, c as int).cs);
    }
    r
}

/// The values of a list, as a set.
fn list_to_set(v: &Vec<usize>) -> (r: HashSet<usize>)
    ensures
        r@ == v@.to_set(),
{
    let mut set: HashSet<usize> = HashSet::new();
    proof {
        assert(v@.take(0).to_set() =~= Set::empty());
    }
    for i in 0..v.len()
        invariant
            set@ == v@.take(i as int).to_set(),
    {
        proof {
            assert(v@.take(i + 1) =~= v@.take(i as int).push(v@[i as int]));
            v@.take(i as int).lemma_push_to_set_commute(v@[i as int]);
        }
        set.insert(v[i]);
    }
    proof {
        assert(v@.take(v.len() as int) =~= v@);
    }
    set
}

/// A copy of a list of lengths.
fn copy_list(v: &Vec<usize>) -> (r: Vec<usize>)
    ensures
        r@ == v@,
{
    let mut r: Vec<usize> = Vec::new();
    for i in 0..v.len()
        invariant
            r@ == v@.take(i as int),
    {
        r.push(v[i]);
        proof {
            assert(v@.take(i + 1) =~= v@.take(i as int).push(v@[i as int]));
        }
    }
    proof {
        assert(v@.take(v.len() as int) =~= v@);
    }
    r
}

impl FamilyTable {
    /// The degree `d` of the family.
    pub closed spec fn deg(&self) -> nat {
        self.degree as nat
    }

    /// Every entry for a prime `p` up to 100 and a residue `c` lists, without
    /// repetition, the candidate periods of `z^d + c` modulo `p`.
    pub closed spec fn wf(&self) -> bool {
        &&& self.sets.len() == FAMILY_LADDER_TOP + 1
        &&& forall|p: int|
            0 <= p <= FAMILY_LADDER_TOP && #[trigger] is_prime(p) ==> family_row(
                self.degree as nat,
                p,
                self.sets@[p]@,
            )
    }

    /// Computes every entry for `z^degree + c`.
    pub fn new(degree: usize) -> (r: FamilyTable)
        requires
            1 <= degree <= 16,
        ensures
            r.wf(),
            r.deg() == degree,
    {
        let mut sets: Vec<Vec<Vec<usize>>> = Vec::new();
        for p in 0..FAMILY_LADDER_TOP + 1
            invariant
                1 <= degree <= 16,
                sets.len() == p,
                forall|q: int| 0 <= q < p && #[trigger] is_prime(q) ==> family_row(degree as nat, q, sets@[q]@),
        {
            let mut row: Vec<Vec<usize>> = Vec::new();
            if prime(p) {
                for c in 0..p
                    invariant
                        1 <= degree <= 16,
                        p <= FAMILY_LADDER_TOP,
                        is_prime(p as int),
                        row.len() == c,
                        forall|c2: int| 0 <= c2 < c ==> #[trigger] family_entry(degree as nat, p as int, c2, row@[c2]@),
                {
                    let g = family_poly(degree, p, c);
                    proof {
                        assert(p * p <= 10000) by (nonlinear_arith)
                            requires
                                p <= 100,
                        ;
                    }
                    let (_, pers) = cycle_walk(&g);
                    row.push(pers);
                    proof {
                        assert(family_entry(degree as nat, p as int, c as int, row@[c as int]@));
                    }
                }
                proof {
                    assert(family_row(degree as nat, p as int, row@));
                }
            }
            sets.push(row);
            proof {
                assert forall|q: int| 0 <= q < p + 1 && #[trigger] is_prime(q) implies family_row(degree as nat, q, sets@[q]@) by {
                    if q < p {
                    }
                }
            }
        }
        FamilyTable { degree, sets }
    }

    /// The candidate periods of `z^degree + c` modulo `p`.
    pub fn get(&self, p: usize, c: usize) -> (r: &Vec<usize>)
        requires
            self.wf(),
            is_prime(p as int),
            p <= FAMILY_LADDER_TOP,
            c < p,
        ensures
            r@.no_duplicates(),
            r@.to_set() == period_set(family_model(self.deg(), p as int, c as int)),
    {
        proof {
            assert(family_row(self.degree as nat, p as int, self.sets@[p as int]@));
            assert(family_entry(self.degree as nat, p as int, c as int, self.sets@[p as int]@[c as int]@));
        }
        &self.sets[p][c]
    }
}

/// The candidate periods of `z^4 + c` over `F_p`, read from the table.
pub fn z4_table_possible_periods(table: &FamilyTable, p: usize, c: usize) -> (r: HashSet<usize>)
    requires
        table.wf(),
        table.deg() == 4,
        is_prime(p as int),
        p <= FAMILY_LADDER_TOP,
        c < p,
    ensures
        r@ == period_set(family_model(4, p as int, c as int)),
{
    list_to_set(table.get(p, c))
}

/// The candidate periods of `z^3 + c` over `F_p`, read from the table.
pub fn z3_table_possible_periods(table: &FamilyTable, p: usize, c: usize) -> (r: HashSet<usize>)
    requires
        table.wf(),
        table.deg() == 3,
        is_prime(p as int),
        p <= FAMILY_LADDER_TOP,
        c < p,
    ensures
        r@ == period_set(family_model(3, p as int, c as int)),
{
    list_to_set(table.get(p, c))
}

/// `z^4 + c` has good reduction at a prime exactly when the denominator of
/// `c` is prime to it, and then reduces to `z^4 + (c mod p)`.
proof fn lemma_z4_reduction(c: Rational, p: int)
    requires
        is_prime(p),
    ensures
        usable_q(z4_coeffs(c), p) <==> c.denom as int % p != 0,
        c.denom as int % p != 0 ==> reduction_q(z4_coeffs(c), p) == family_model(
            4,
            p,
            residue_of(c.numer as int, c.denom as int, p),
        ),
{
    let f = z4_coeffs(c);
    lemma_small_mod(1, p as nat);
    lemma_small_mod(0, p as nat);
    assert(f[0].denom == 1 && f[1].denom == 1 && f[2].denom == 1 && f[3].denom == 1 && f[4] == c);
    if c.denom as int % p != 0 {
        assert(good_reduction(f, p));
        lemma_residue_of(1, 1, p, 1);
        lemma_residue_of(0, 1, p, 0);
        assert(reduction_q(f, p).cs =~= family_model(4, p, residue_of(c.numer as int, c.denom as int, p)).cs);
    } else {
        assert(!(f[4].denom as int % p != 0));
    }
}

/// Under a map sending `w` to a root `w0`, `z^3 + c` reduces well exactly when
/// `c` does, and then to `z^3 + (image of c)`.
proof fn lemma_z3_reduction(c: QwElement, p: int, w0: int)
    requires
        is_prime(p),
        omega_root(w0, p),
    ensures
        good_root(z3_coeffs(c), p, w0) <==> qw_image(c, w0, p) is Some,
        qw_image(c, w0, p) is Some ==> reduction_qw(z3_coeffs(c), p, w0) == family_model(
            3,
            p,
            qw_image(c, w0, p)->0,
        ),
{
    let f = z3_coeffs(c);
    let one = EisensteinInteger { a: 1, b: 0 };
    let zero = EisensteinInteger { a: 0, b: 0 };
    lemma_small_mod(1, p as nat);
    lemma_small_mod(0, p as nat);
    assert(image(one, w0, p) == 1) by {
        assert(1 + w0 * 0 == 1);
    }
    assert(image(zero, w0, p) == 0) by {
        assert(0 + w0 * 0 == 0);
    }
    assert(f[0].denom == one && f[1].denom == one && f[2].denom == one && f[3] == c);
    assert(f[0].numer == one && f[1].numer == zero && f[2].numer == zero);
    if image(c.denom, w0, p) != 0 {
        assert(good_root(f, p, w0));
        lemma_residue_of(1, 1, p, 1);
        lemma_residue_of(0, 1, p, 0);
        assert(reduction_qw(f, p, w0).cs =~= family_model(3, p, qw_image(c, w0, p)->0).cs);
    } else {
        assert(!(image(f[3].denom, w0, p) != 0));
    }
}

/// The sieve over the rationals for `z^4 + c`, reading the candidate sets at
/// each prime from `table`.
pub fn z4c_possible_periods_search(table: &FamilyTable, c: Rational, goal: usize) -> (r: Option<HashSet<usize>>)
    requires
        table.wf(),
        table.deg() == 4,
    ensures
        match r {
            Some(s) => search_q(z4_coeffs(c), goal) == Some(s@),
            None => search_q(z4_coeffs(c), goal) is None,
        },
{
    let ghost f = z4_coeffs(c);
    let mut res: Vec<usize> = Vec::new();
    let mut first = true;
    proof {
        assert(!is_prime(0) && !is_prime(1));
        assert(sieve_q(f, 0) is None);
        assert(sieve_q(f, 1) is None);
        assert(sieve_q(f, 2) is None);
    }
    for p in 2..FAMILY_LADDER_TOP + 1
        invariant
            table.wf(),
            table.deg() == 4,
            f == z4_coeffs(c),
            first <==> sieve_q(f, p as int) is None,
            !first ==> res@.no_duplicates() && res@.to_set() == sieve_q(f, p as int)->0
                && exists|k: usize| #[trigger] res@.to_set().contains(k) && k > goal,
    {
        let good = prime(p) && match c.denom.checked_rem_euclid(p as i64) {
            Some(v) => v != 0,
            None => false,
        };
        proof {
            if is_prime(p as int) {
                lemma_z4_reduction(c, p as int);
            }
        }
        if good {
            let rc = c.reduce(p);
            let pers = table.get(p, rc);
            if first {
                res = copy_list(pers);
                first = false;
            } else {
                res = intersect(&res, pers);
            }
            if !has_above(&res, goal) {
                proof {
                    lemma_sieve_q_shrinks(f, p + 1, Q_LADDER_TOP + 1);
                    let s = sieve_q(f, Q_LADDER_TOP + 1)->0;
                    assert forall|k: usize| #[trigger] s.contains(k) implies k <= goal by {
                        assert(res@.to_set().contains(k));
                    }
                }
                return None;
            }
        }
    }
    if first {
        Some(HashSet::new())
    } else {
        Some(above_set(&res, goal))
    }
}

/// The candidate set at one prime for `z^3 + c`, from the images of `c`
/// under the two maps `Z[w] -> F_p`.
fn z3_periods_at(table: &FamilyTable, r1: Option<i64>, r2: Option<i64>, p: usize) -> (r: Option<Vec<usize>>)
    requires
        table.wf(),
        table.deg() == 3,
        is_prime(p as int),
        p <= FAMILY_LADDER_TOP,
        r1 is Some ==> 0 <= r1->0 < p,
        r2 is Some ==> 0 <= r2->0 < p,
    ensures
        r is Some <==> (r1 is Some || r2 is Some),
        r is Some ==> r->0@.no_duplicates() && forall|k: usize|
            r->0@.to_set().contains(k) <==> ((r1 is Some ==> period_set(
                family_model(3, p as int, r1->0 as int),
            ).contains(k)) && (r2 is Some ==> period_set(family_model(3, p as int, r2->0 as int)).contains(k))),
{
    match (r1, r2) {
        (None, None) => None,
        (Some(a), None) => Some(copy_list(table.get(p, a as usize))),
        (None, Some(b)) => Some(copy_list(table.get(p, b as usize))),
        (Some(a), Some(b)) => Some(intersect(table.get(p, a as usize), table.get(p, b as usize))),
    }
}

/// The sieve over Q(w), with the primes up to 100, for `z^3 + c`, reading the
/// candidate sets at each prime from `table`.
pub fn z3c_possible_periods_search(table: &FamilyTable, c: QwElement, goal: usize) -> (r: Option<HashSet<usize>>)
    requires
        table.wf(),
        table.deg() == 3,
    ensures
        match r {
            Some(s) => search_qw(z3_coeffs(c), goal, FAMILY_LADDER_TOP as int) == Some(s@),
            None => search_qw(z3_coeffs(c), goal, FAMILY_LADDER_TOP as int) is None,
        },
{
    let ghost f = z3_coeffs(c);
    let mut res: Vec<usize> = Vec::new();
    let mut first = true;
    proof {
        assert(!is_prime(0) && !is_prime(1));
        assert(sieve_qw(f, 0) is None);
        assert(sieve_qw(f, 1) is None);
        assert(sieve_qw(f, 2) is None);
    }
    for p in 2..FAMILY_LADDER_TOP + 1
        invariant
            table.wf(),
            table.deg() == 3,
            f == z3_coeffs(c),
            first <==> sieve_qw(f, p as int) is None,
            !first ==> res@.no_duplicates() && res@.to_set() == sieve_qw(f, p as int)->0
                && exists|k: usize| #[trigger] res@.to_set().contains(k) && k > goal,
    {
        if prime(p) && has_qw_homomorphism(p as i64) {
            let (r1, r2) = c.reductions(p as i64);
            let ghost w = omega_first(p as int);
            proof {
                lemma_qw_at(f, p as int, w);
                lemma_other_root(w, p as int);
                lemma_z3_reduction(c, p as int, w);
                lemma_z3_reduction(c, p as int, p - 1 - w);
            }
            let here = z3_periods_at(table, r1, r2, p);
            match here {
                None => {},
                Some(h) => {
                    proof {
                        assert(h@.to_set() =~= qw_at(f, p as int)->0);
                    }
                    if first {
                        res = h;
                        first = false;
                    } else {
                        res = intersect(&res, &h);
                    }
                    if !has_above(&res, goal) {
                        proof {
                            lemma_sieve_qw_shrinks(f, p + 1, FAMILY_LADDER_TOP + 1);
                            let s = sieve_qw(f, FAMILY_LADDER_TOP + 1)->0;
                            assert forall|k: usize| #[trigger] s.contains(k) implies k <= goal by {
                                assert(res@.to_set().contains(k));
                            }
                        }
                        return None;
                    }
                },
            }
        }
    }
    if first {
        Some(HashSet::new())
    } else {
        Some(above_set(&res, goal))
    }
}

} // verus!
