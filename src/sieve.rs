//! The multi-prime sieve: reduce the map modulo an ascending ladder of
//! primes, intersect the candidate periods found at each, and stop as soon
//! as no candidate above the goal survives.
use crate::eisenstein::{
    omega_first,
    good_root, is_reduction_qw, lemma_omega_roots, lemma_other_root, omega_root, reduction_qw,
    usable_qw_prime, PolynomialInQw, QwElement,
};
use crate::modular::{has_qw_homomorphism, prime};
use crate::number_theory::is_prime;
use crate::periods::{cycle_walk, period_set};
use crate::polynomial::Polynomial;
use crate::rational::{good_reduction, reduction_q, PolynomialInQ, Rational};
use std::collections::HashSet;
use vstd::prelude::*;

verus! {

/// The largest prime tried by the sieve over the rationals.
pub const Q_LADDER_TOP: usize = 100;

/// The elements of `s` above `goal`.
pub open spec fn above(s: Set<usize>, goal: usize) -> Set<usize> {
    s.filter(|k: usize| k > goal)
}

/// How a finished sieve reads: with no usable prime nothing was excluded and
/// the answer is the empty list; otherwise the survivors above `goal`, or
/// `None` ("not interesting") when there are none.
pub open spec fn search_outcome(sieved: Option<Set<usize>>, goal: usize) -> Option<Set<usize>> {
    match sieved {
        None => Some(Set::empty()),
        Some(s) => if exists|k: usize| #[trigger] s.contains(k) && k > goal {
            Some(above(s, goal))
        } else {
            None
        },
    }
}

/// `p` is a prime at which the rational polynomial has good reduction.
pub open spec fn usable_q(f: Seq<Rational>, p: int) -> bool {
    is_prime(p) && good_reduction(f, p)
}

/// The intersection of the candidate period sets of the reductions of `f` at
/// the usable primes below `b`; `None` when there is none.
pub open spec fn sieve_q(f: Seq<Rational>, b: int) -> Option<Set<usize>>
    decreases b,
{
    if b <= 0 {
        None
    } else {
        let prev = sieve_q(f, b - 1);
        if usable_q(f, b - 1) {
            let here = period_set(reduction_q(f, b - 1));
            match prev {
                None => Some(here),
                Some(s) => Some(s.intersect(here)),
            }
        } else {
            prev
        }
    }
}

/// What `possible_periods_search` returns for `f` and `goal`.
pub open spec fn search_q(f: Seq<Rational>, goal: usize) -> Option<Set<usize>> {
    search_outcome(sieve_q(f, Q_LADDER_TOP + 1), goal)
}

/// Once a prime was usable, sieving further primes only shrinks the set.
pub proof fn lemma_sieve_q_shrinks(f: Seq<Rational>, b1: int, b2: int)
    requires
        b1 <= b2,
        sieve_q(f, b1) is Some,
    ensures
        sieve_q(f, b2) is Some,
        sieve_q(f, b2)->0.subset_of(sieve_q(f, b1)->0),
    decreases b2 - b1,
{
    if b1 < b2 {
        lemma_sieve_q_shrinks(f, b1, b2 - 1);
    }
}

/// The sieved set lies within the candidate set of every usable prime below `b`.
pub proof fn lemma_sieve_q_within(f: Seq<Rational>, b: int, p: int)
    requires
        0 <= p < b,
        usable_q(f, p),
    ensures
        sieve_q(f, b) is Some,
        sieve_q(f, b)->0.subset_of(period_set(reduction_q(f, p))),
    decreases b,
{
    if p < b - 1 {
        lemma_sieve_q_within(f, b - 1, p);
    }
}

/// A present result of the sieve over the rationals lies within the
/// candidate periods of the reduction at every prime of good reduction that
/// the sieve examines.
pub proof fn lemma_search_q_within_every_prime(f: Seq<Rational>, goal: usize, p: int)
    requires
        search_q(f, goal) is Some,
        p <= Q_LADDER_TOP,
        usable_q(f, p),
    ensures
        search_q(f, goal)->0.subset_of(period_set(reduction_q(f, p))),
{
    lemma_sieve_q_within(f, Q_LADDER_TOP + 1, p);
}

/// Whether `v` holds `k`.
pub(crate) fn holds(v: &Vec<usize>, k: usize) -> (r: bool)
    ensures
        r == v@.contains(k),
{
    for i in 0..v.len()
        invariant
            forall|j: int| 0 <= j < i ==> #[trigger] v@[j] != k,
    {
        if v[i] == k {
            return true;
        }
    }
    false
}

proof fn lemma_take_push_to_set(v: Seq<usize>, i: int)
    requires
        0 <= i < v.len(),
    ensures
        v.take(i + 1).to_set() == v.take(i).to_set().insert(v[i]),
{
    assert(v.take(i + 1) =~= v.take(i).push(v[i]));
    v.take(i).lemma_push_to_set_commute(v[i]);
}

/// The elements of `a` that `b` also holds, in their order in `a`.
pub(crate) fn intersect(a: &Vec<usize>, b: &Vec<usize>) -> (r: Vec<usize>)
    requires
        a@.no_duplicates(),
    ensures
        r@.no_duplicates(),
        r@.to_set() == a@.to_set().intersect(b@.to_set()),
{
    let mut r: Vec<usize> = Vec::new();
    proof {
        assert(a@.take(0).to_set() =~= Set::empty());
        assert(r@.to_set() =~= a@.take(0).to_set().intersect(b@.to_set()));
    }
    for i in 0..a.len()
        invariant
            a@.no_duplicates(),
            r@.no_duplicates(),
            r@.to_set() == a@.take(i as int).to_set().intersect(b@.to_set()),
    {
        let x = a[i];
        proof {
            lemma_take_push_to_set(a@, i as int);
            assert(!a@.take(i as int).to_set().contains(x)) by {
                if a@.take(i as int).to_set().contains(x) {
                    let j = choose|j: int| 0 <= j < i && a@.take(i as int)[j] == x;
                    assert(a@[j] == a@[i as int]);
                }
            }
        }
        if holds(b, x) {
            proof {
                assert(!r@.to_set().contains(x));
                assert(forall|j: int| 0 <= j < r.len() ==> r@.to_set().contains(#[trigger] r@[j]));
                r@.lemma_push_to_set_commute(x);
            }
            r.push(x);
            proof {
                assert(r@.to_set() =~= a@.take(i + 1).to_set().intersect(b@.to_set()));
            }
        } else {
            proof {
                assert(r@.to_set() =~= a@.take(i + 1).to_set().intersect(b@.to_set()));
            }
        }
    }
    proof {
        assert(a@.take(a.len() as int) =~= a@);
    }
    r
}

/// Whether some element of `v` exceeds `goal`.
pub(crate) fn has_above(v: &Vec<usize>, goal: usize) -> (r: bool)
    ensures
        r == exists|k: usize| #[trigger] v@.to_set().contains(k) && k > goal,
{
    for i in 0..v.len()
        invariant
            forall|j: int| 0 <= j < i ==> #[trigger] v@[j] <= goal,
    {
        if v[i] > goal {
            proof {
                assert(v@.to_set().contains(v@[i as int]));
            }
            return true;
        }
    }
    false
}

/// The elements of `v` above `goal`, as a set.
pub(crate) fn above_set(v: &Vec<usize>, goal: usize) -> (r: HashSet<usize>)
    ensures
        r@ == above(v@.to_set(), goal),
{
    let mut r: HashSet<usize> = HashSet::new();
    proof {
        assert(above(v@.take(0).to_set(), goal) =~= Set::empty());
    }
    for i in 0..v.len()
        invariant
            r@ == above(v@.take(i as int).to_set(), goal),
    {
        proof {
            lemma_take_push_to_set(v@, i as int);
        }
        if v[i] > goal {
            r.insert(v[i]);
        }
        proof {
            assert(r@ =~= above(v@.take(i + 1).to_set(), goal));
        }
    }
    proof {
        assert(v@.take(v.len() as int) =~= v@);
    }
    r
}

/// The periods above `goal` that a periodic point of the rational polynomial
/// `f` may have, as left by the primes up to 100; `None` when none is left.
pub fn possible_periods_search(f: PolynomialInQ, goal: usize) -> (r: Option<HashSet<usize>>)
    ensures
        match r {
            Some(s) => search_q(f.coeffs@, goal) == Some(s@),
            None => search_q(f.coeffs@, goal) is None,
        },
{
    let mut res: Vec<usize> = Vec::new();
    let mut first = true;
    proof {
        assert(!is_prime(0) && !is_prime(1));
        assert(sieve_q(f.coeffs@, 0) is None);
        assert(sieve_q(f.coeffs@, 1) is None);
        assert(sieve_q(f.coeffs@, 2) is None);
    }
    for p in 2..Q_LADDER_TOP + 1
        invariant
            first <==> sieve_q(f.coeffs@, p as int) is None,
            !first ==> res@.no_duplicates() && res@.to_set() == sieve_q(f.coeffs@, p as int)->0
                && exists|k: usize| #[trigger] res@.to_set().contains(k) && k > goal,
    {
        if prime(p) && f.has_good_reduction(p) {
            let g = f.do_reduction(p);
            proof {
                assert(p * p <= 10000) by (nonlinear_arith)
                    requires
                        p <= 100,
                ;
            }
            let (_, pers) = cycle_walk(&g);
            if first {
                res = pers;
                first = false;
            } else {
                res = intersect(&res, &pers);
            }
            if !has_above(&res, goal) {
                proof {
                    lemma_sieve_q_shrinks(f.coeffs@, p + 1, Q_LADDER_TOP + 1);
                    let s = sieve_q(f.coeffs@, Q_LADDER_TOP + 1)->0;
                    assert forall|k: usize| #[trigger] s.contains(k) implies k <= goal by {
                        assert(res@.to_set().contains(k));
                    }
                }
                return None;
            }
        }
    }
    if first {
        Some(HashSet::new())
    } else {
        Some(above_set(&res, goal))
    }
}

/// The largest prime tried by the sieve over Q(w).
pub const QW_LADDER_TOP: usize = 300;

/// The candidate periods at a prime usable for Q(w): the lengths left by
/// every map `Z[w] -> F_p` under which all denominators survive; `None` when
/// no map does.
pub open spec fn qw_at(f: Seq<QwElement>, p: int) -> Option<Set<usize>> {
    if exists|w: int| #[trigger] omega_root(w, p) && good_root(f, p, w) {
        Some(
            Set::new(
                |k: usize|
                    forall|w: int|
                        #[trigger] omega_root(w, p) && good_root(f, p, w) ==> period_set(
                            reduction_qw(f, p, w),
                        ).contains(k),
            ),
        )
    } else {
        None
    }
}

/// The intersection of the candidate sets of `f` at the primes below `b`
/// usable for Q(w); `None` when there is none.
pub open spec fn sieve_qw(f: Seq<QwElement>, b: int) -> Option<Set<usize>>
    decreases b,
{
    if b <= 0 {
        None
    } else {
        let prev = sieve_qw(f, b - 1);
        if usable_qw_prime(b - 1) && qw_at(f, b - 1) is Some {
            let here = qw_at(f, b - 1)->0;
            match prev {
                None => Some(here),
                Some(s) => Some(s.intersect(here)),
            }
        } else {
            prev
        }
    }
}

/// What the sieve over Q(w) with primes up to `top` returns for `f` and `goal`.
pub open spec fn search_qw(f: Seq<QwElement>, goal: usize, top: int) -> Option<Set<usize>> {
    search_outcome(sieve_qw(f, top + 1), goal)
}

pub proof fn lemma_sieve_qw_shrinks(f: Seq<QwElement>, b1: int, b2: int)
    requires
        b1 <= b2,
        sieve_qw(f, b1) is Some,
    ensures
        sieve_qw(f, b2) is Some,
        sieve_qw(f, b2)->0.subset_of(sieve_qw(f, b1)->0),
    decreases b2 - b1,
{
    if b1 < b2 {
        lemma_sieve_qw_shrinks(f, b1, b2 - 1);
    }
}

pub proof fn lemma_sieve_qw_within(f: Seq<QwElement>, b: int, p: int, w: int)
    requires
        0 <= p < b,
        usable_qw_prime(p),
        omega_root(w, p),
        good_root(f, p, w),
    ensures
        sieve_qw(f, b) is Some,
        sieve_qw(f, b)->0.subset_of(period_set(reduction_qw(f, p, w))),
    decreases b,
{
    if p < b - 1 {
        lemma_sieve_qw_within(f, b - 1, p, w);
    }
}

/// A present result of the sieve over Q(w) lies within the candidate periods
/// of every good reduction at every prime that the sieve examines.
pub proof fn lemma_search_qw_within_every_reduction(
    f: Seq<QwElement>,
    goal: usize,
    top: int,
    p: int,
    w: int,
)
    requires
        search_qw(f, goal, top) is Some,
        p <= top,
        usable_qw_prime(p),
        omega_root(w, p),
        good_root(f, p, w),
    ensures
        search_qw(f, goal, top)->0.subset_of(period_set(reduction_qw(f, p, w))),
{
    lemma_sieve_qw_within(f, top + 1, p, w);
}

/// Reading `qw_at` from the two reductions computed at a root `w`.
pub proof fn lemma_qw_at(f: Seq<QwElement>, p: int, w: int)
    requires
        usable_qw_prime(p),
        omega_root(w, p),
    ensures
        omega_root(p - 1 - w, p),
        qw_at(f, p) is Some <==> (good_root(f, p, w) || good_root(f, p, p - 1 - w)),
        qw_at(f, p) is Some ==> forall|k: usize|
            qw_at(f, p)->0.contains(k) <==> ((good_root(f, p, w) ==> period_set(
                reduction_qw(f, p, w),
            ).contains(k)) && (good_root(f, p, p - 1 - w) ==> period_set(
                reduction_qw(f, p, p - 1 - w),
            ).contains(k))),
{
    lemma_other_root(w, p);
    let w2 = p - 1 - w;
    assert forall|v: int| #[trigger] omega_root(v, p) implies v == w || v == w2 by {
        lemma_omega_roots(w, v, p);
    }
    if good_root(f, p, w) {
        assert(omega_root(w, p) && good_root(f, p, w));
    }
    if good_root(f, p, w2) {
        assert(omega_root(w2, p) && good_root(f, p, w2));
    }
}

/// The candidate set at one prime from its two optional reductions.
pub(crate) fn periods_at(r1: Option<Polynomial>, r2: Option<Polynomial>, p: i64) -> (r: Option<Vec<usize>>)
    requires
        2 <= p <= QW_LADDER_TOP,
        usable_qw_prime(p as int),
        r1 is Some ==> r1->0.p_mod == Some(p),
        r2 is Some ==> r2->0.p_mod == Some(p),
    ensures
        r is Some <==> (r1 is Some || r2 is Some),
        r is Some ==> r->0@.no_duplicates() && forall|k: usize|
            r->0@.to_set().contains(k) <==> ((r1 is Some ==> period_set(r1->0.model()).contains(k))
                && (r2 is Some ==> period_set(r2->0.model()).contains(k))),
{
    proof {
        assert(p * p <= 90000) by (nonlinear_arith)
            requires
                2 <= p <= 300,
        ;
    }
    match (r1, r2) {
        (None, None) => None,
        (Some(g), None) => Some(cycle_walk(&g).1),
        (None, Some(g)) => Some(cycle_walk(&g).1),
        (Some(g1), Some(g2)) => {
            let (_, a) = cycle_walk(&g1);
            let (_, b) = cycle_walk(&g2);
            Some(intersect(&a, &b))
        },
    }
}

/// The sieve over Q(w) with the primes up to `top`.
fn search_qw_up_to(f: &PolynomialInQw, goal: usize, top: usize) -> (r: Option<HashSet<usize>>)
    requires
        2 <= top <= QW_LADDER_TOP,
    ensures
        match r {
            Some(s) => search_qw(f.coeffs@, goal, top as int) == Some(s@),
            None => search_qw(f.coeffs@, goal, top as int) is None,
        },
{
    let mut res: Vec<usize> = Vec::new();
    let mut first = true;
    proof {
        assert(!is_prime(0) && !is_prime(1));
        assert(sieve_qw(f.coeffs@, 0) is None);
        assert(sieve_qw(f.coeffs@, 1) is None);
        assert(sieve_qw(f.coeffs@, 2) is None);
    }
    for p in 2..top + 1
        invariant
            top <= QW_LADDER_TOP,
            first <==> sieve_qw(f.coeffs@, p as int) is None,
            !first ==> res@.no_duplicates() && res@.to_set() == sieve_qw(f.coeffs@, p as int)->0
                && exists|k: usize| #[trigger] res@.to_set().contains(k) && k > goal,
    {
        if prime(p) && has_qw_homomorphism(p as i64) {
            let (r1, r2) = f.reductions(p as i64);
            let ghost w = omega_first(p as int);
            proof {
                lemma_qw_at(f.coeffs@, p as int, w);
            }
            let here = periods_at(r1, r2, p as i64);
            match here {
                None => {},
                Some(h) => {
                    proof {
                        assert(h@.to_set() =~= qw_at(f.coeffs@, p as int)->0);
                    }
                    if first {
                        res = h;
                        first = false;
                    } else {
                        res = intersect(&res, &h);
                    }
                    if !has_above(&res, goal) {
                        proof {
                            lemma_sieve_qw_shrinks(f.coeffs@, p + 1, top + 1);
                            let s = sieve_qw(f.coeffs@, top + 1)->0;
                            assert forall|k: usize| #[trigger] s.contains(k) implies k <= goal by {
                                assert(res@.to_set().contains(k));
                            }
                        }
                        return None;
                    }
                },
            }
        }
    }
    if first {
        Some(HashSet::new())
    } else {
        Some(above_set(&res, goal))
    }
}

/// The periods above `goal` that a periodic point of the polynomial `f`
/// over Q(w) may have, as left by the primes up to 300; `None` when none is
/// left.
pub fn possible_periods_search_qw(f: PolynomialInQw, goal: usize) -> (r: Option<HashSet<usize>>)
    ensures
        match r {
            Some(s) => search_qw(f.coeffs@, goal, QW_LADDER_TOP as int) == Some(s@),
            None => search_qw(f.coeffs@, goal, QW_LADDER_TOP as int) is None,
        },
{
    search_qw_up_to(&f, goal, QW_LADDER_TOP)
}

} // verus!
