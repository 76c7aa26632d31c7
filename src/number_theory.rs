//! Elementary number theory modulo a prime: powers, inverses, and the
//! multiplicative order of a unit together with Lagrange's theorem for it.
use vstd::arithmetic::div_mod::*;
use vstd::arithmetic::mul::*;
use vstd::prelude::*;
use vstd::set_lib::*;

verus! {

/// `p` is a prime number.
pub open spec fn is_prime(p: int) -> bool {
    &&& p >= 2
    &&& forall|d: int| 2 <= d < p ==> #[trigger] (p % d) != 0
}

/// `b` raised to the natural power `e`.
pub open spec fn power(b: int, e: nat) -> int
    decreases e,
{
    if e == 0 {
        1
    } else {
        b * power(b, (e - 1) as nat)
    }
}

/// `r` is the multiplicative order of `a` modulo `p`: the least `r > 0`
/// with `a^r == 1 (mod p)`.
pub open spec fn is_order(a: int, p: int, r: int) -> bool {
    &&& r >= 1
    &&& power(a, r as nat) % p == 1
    &&& forall|k: int| 1 <= k < r ==> #[trigger] (power(a, k as nat) % p) != 1
}

/// The multiplicative order of `a` modulo `p` (meaningful when `a` is a unit).
pub open spec fn order(a: int, p: int) -> int {
    choose|r: int| is_order(a, p, r)
}

/// `n` has a square root modulo `p`.
pub open spec fn has_square_root(n: int, p: int) -> bool {
    exists|x: int| 0 <= x < p && #[trigger] ((x * x) % p) == n % p
}

pub proof fn lemma_power_1(b: int)
    ensures
        power(b, 1) == b,
{
    assert(power(b, 0) == 1);
    assert(power(b, 1) == b * power(b, 0));
}

pub proof fn lemma_power_2(b: int)
    ensures
        power(b, 2) == b * b,
{
    lemma_power_1(b);
    assert(power(b, 2) == b * power(b, 1));
}

pub proof fn lemma_power_adds(b: int, e1: nat, e2: nat)
    ensures
        power(b, e1 + e2) == power(b, e1) * power(b, e2),
    decreases e1,
{
    if e1 > 0 {
        lemma_power_adds(b, (e1 - 1) as nat, e2);
        assert(power(b, e1 + e2) == b * power(b, (e1 + e2 - 1) as nat));
        assert((e1 + e2 - 1) as nat == (e1 - 1) as nat + e2);
        lemma_mul_is_associative(b, power(b, (e1 - 1) as nat), power(b, e2));
    }
}

pub proof fn lemma_power_multiplies(b: int, e1: nat, e2: nat)
    ensures
        power(b, e1 * e2) == power(power(b, e1), e2),
    decreases e2,
{
    if e2 > 0 {
        let e3 = (e2 - 1) as nat;
        lemma_power_multiplies(b, e1, e3);
        assert(e1 * e2 == e1 + e1 * e3) by (nonlinear_arith)
            requires
                e3 == e2 - 1,
        ;
        lemma_power_adds(b, e1, e1 * e3);
        assert(power(power(b, e1), e2) == power(b, e1) * power(power(b, e1), e3));
        assert(power(b, e1 * e2) == power(b, e1 + e1 * e3));
    } else {
        assert(e1 * e2 == 0) by (nonlinear_arith)
            requires
                e2 == 0,
        ;
    }
}

/// Reducing the base modulo `m` does not change the power modulo `m`.
pub proof fn lemma_power_mod(b: int, e: nat, m: int)
    requires
        m > 0,
    ensures
        power(b % m, e) % m == power(b, e) % m,
    decreases e,
{
    if e > 0 {
        let e1 = (e - 1) as nat;
        lemma_power_mod(b, e1, m);
        lemma_mul_mod_noop(b % m, power(b % m, e1), m);
        lemma_mul_mod_noop(b, power(b, e1), m);
        lemma_mod_twice(b, m);
    }
}

/// The power of a number congruent to one is congruent to one.
pub proof fn lemma_power_of_one(c: int, e: nat, m: int)
    requires
        m > 1,
        c % m == 1,
    ensures
        power(c, e) % m == 1,
    decreases e,
{
    lemma_power_mod(c, e, m);
    lemma_power_one(e);
    lemma_small_mod(1, m as nat);
}

proof fn lemma_power_one(e: nat)
    ensures
        power(1, e) == 1,
    decreases e,
{
    if e > 0 {
        lemma_power_one((e - 1) as nat);
    }
}

/// `(x * y) % p` followed by a multiplication by `z` agrees with `x * (y * z)`.
pub proof fn lemma_mul_mod_assoc(x: int, y: int, z: int, p: int)
    requires
        p > 0,
    ensures
        (((x * y) % p) * z) % p == (x * (y * z)) % p,
{
    lemma_mul_mod_noop_left(x * y, z, p);
    lemma_mul_is_associative(x, y, z);
}

proof fn lemma_mod_shift(q: int, b: int, r: int, d: int)
    requires
        d > 0,
        b % d == 0,
    ensures
        (q * b + r) % d == r % d,
{
    lemma_fundamental_div_mod(b, d);
    let k = b / d;
    assert(q * b == d * (k * q)) by (nonlinear_arith)
        requires
            b == d * k,
    ;
    lemma_mod_multiples_vanish(k * q, r, d);
}

proof fn lemma_lin_comb_zero(u: int, v: int, q: int, p: int)
    requires
        p > 0,
        u % p == 0,
        v % p == 0,
    ensures
        (u - q * v) % p == 0,
{
    lemma_mod_shift(-q, v, u, p);
    lemma_mod_self_0(p);
    assert(-q * v + u == u - q * v) by (nonlinear_arith);
}

/// `(a, b)` has the same positive common divisors as `(p, x)`.
pub open spec fn same_divisors(a: int, b: int, p: int, x: int) -> bool {
    forall|d: int| d > 0 ==> ((#[trigger] (a % d) == 0 && b % d == 0) <==> (p % d == 0 && x % d == 0))
}

/// One step of Euclid's algorithm keeps the common divisors.
pub proof fn lemma_divisors_step(a: int, b: int, p: int, x: int)
    requires
        b > 0,
        same_divisors(a, b, p, x),
    ensures
        same_divisors(b, a % b, p, x),
        a == (a / b) * b + a % b,
{
    let q = a / b;
    let r = a % b;
    lemma_fundamental_div_mod(a, b);
    assert(a == q * b + r) by (nonlinear_arith)
        requires
            a == b * q + r,
    ;
    assert forall|d: int| d > 0 implies ((#[trigger] (b % d) == 0 && r % d == 0) <==> (p % d
        == 0 && x % d == 0)) by {
        if b % d == 0 {
            lemma_mod_shift(q, b, r, d);
        }
        let ad = a % d;
        assert((ad == 0 && b % d == 0) <==> (p % d == 0 && x % d == 0));
    }
}

/// When Euclid's algorithm stops on a prime and a non-multiple, the last
/// remainder is one, and its coefficient is an inverse.
pub proof fn lemma_divisors_done(a: int, s: int, p: int, x: int)
    requires
        is_prime(p),
        0 < x < p,
        a > 0,
        same_divisors(a, 0, p, x),
        (a - s * x) % p == 0,
    ensures
        a == 1,
        (s * x) % p == 1,
{
    lemma_mod_self_0(a);
    assert(0int % a == 0);
    assert(a % a == 0 && 0int % a == 0);
    assert(p % a == 0 && x % a == 0);
    if a > p {
        lemma_small_mod(p as nat, a as nat);
    }
    if a == p {
        lemma_small_mod(x as nat, p as nat);
    }
    assert(a == 1);
    lemma_fundamental_div_mod(1 - s * x, p);
    let k = (1 - s * x) / p;
    assert(s * x == p * (-k) + 1) by (nonlinear_arith)
        requires
            1 - s * x == p * k + 0,
    ;
    lemma_mod_multiples_vanish(-k, 1, p);
    lemma_small_mod(1, p as nat);
}

/// Keeping `a == s * x` and `b == t * x` modulo `p` through one step.
pub proof fn lemma_coefficients_step(a: int, b: int, s: int, t: int, q: int, p: int, x: int)
    requires
        p > 0,
        (a - s * x) % p == 0,
        (b - t * x) % p == 0,
    ensures
        ((a - q * b) - (s - q * t) * x) % p == 0,
{
    lemma_lin_comb_zero(a - s * x, b - t * x, q, p);
    assert((a - q * b) - (s - q * t) * x == (a - s * x) - q * (b - t * x)) by (nonlinear_arith);
}

proof fn lemma_euclid_descent(p: int, x: int, a: int, b: int, s: int, t: int)
    requires
        is_prime(p),
        0 < x < p,
        a > 0,
        b >= 0,
        (a - s * x) % p == 0,
        (b - t * x) % p == 0,
        same_divisors(a, b, p, x),
    ensures
        exists|u: int| #[trigger] ((u * x) % p) == 1,
    decreases b,
{
    if b == 0 {
        lemma_divisors_done(a, s, p, x);
    } else {
        let q = a / b;
        lemma_divisors_step(a, b, p, x);
        lemma_coefficients_step(a, b, s, t, q, p, x);
        lemma_euclid_descent(p, x, b, a % b, t, s - q * t);
    }
}

/// A residue not divisible by the prime `p` has an inverse modulo `p`.
pub proof fn lemma_inverse_exists(x: int, p: int)
    requires
        is_prime(p),
        x % p != 0,
    ensures
        exists|u: int| #[trigger] ((u * x) % p) == 1,
{
    let x0 = x % p;
    assert(same_divisors(p, x0, p, x0));
    assert((p - 0 * x0) % p == 0) by {
        lemma_mod_self_0(p);
    }
    lemma_small_mod(0, p as nat);
    assert((x0 - 1 * x0) % p == 0);
    lemma_euclid_descent(p, x0, p, x0, 0, 1);
    let u = choose|u: int| #[trigger] ((u * x0) % p) == 1;
    lemma_mul_mod_noop_right(u, x, p);
    assert((u * x) % p == 1);
}

/// Euclid's lemma: a prime dividing a product divides one of the factors.
pub proof fn lemma_product_nonzero(x: int, y: int, p: int)
    requires
        is_prime(p),
        x % p != 0,
        y % p != 0,
    ensures
        (x * y) % p != 0,
{
    lemma_inverse_exists(x, p);
    let u = choose|u: int| #[trigger] ((u * x) % p) == 1;
    if (x * y) % p == 0 {
        lemma_mul_mod_noop_right(u, x * y, p);
        lemma_mul_mod_assoc(u, x, y, p);
        lemma_mul_is_associative(u, x, y);
        // ((u x) % p * y) % p == (u (x y)) % p == (u * ((x y) % p)) % p == 0
        assert((u * (x * y)) % p == 0);
        assert((1 * y) % p == 0);
    }
}

/// A unit can be cancelled from both sides of a congruence.
pub proof fn lemma_cancel(x: int, u: int, v: int, p: int)
    requires
        is_prime(p),
        x % p != 0,
        (x * u) % p == (x * v) % p,
    ensures
        u % p == v % p,
{
    lemma_mod_equivalence(x * u, x * v, p);
    assert(x * u - x * v == x * (u - v)) by (nonlinear_arith);
    if (u - v) % p != 0 {
        lemma_product_nonzero(x, u - v, p);
    }
    lemma_mod_equivalence(u, v, p);
}

/// A power of a unit is a unit.
pub proof fn lemma_power_nonzero(a: int, k: nat, p: int)
    requires
        is_prime(p),
        a % p != 0,
    ensures
        power(a, k) % p != 0,
    decreases k,
{
    if k == 0 {
        lemma_small_mod(1, p as nat);
    } else {
        lemma_power_nonzero(a, (k - 1) as nat, p);
        lemma_product_nonzero(a, power(a, (k - 1) as nat), p);
    }
}

/// Two powers of a unit that agree modulo `p` differ by a power congruent to one.
proof fn lemma_power_collision(a: int, i: nat, j: nat, p: int)
    requires
        is_prime(p),
        a % p != 0,
        i < j,
        power(a, i) % p == power(a, j) % p,
    ensures
        power(a, (j - i) as nat) % p == 1,
{
    let d = (j - i) as nat;
    lemma_power_adds(a, i, d);
    assert(i + d == j);
    lemma_power_nonzero(a, i, p);
    assert((power(a, i) * power(a, d)) % p == (power(a, i) * 1) % p);
    lemma_cancel(power(a, i), power(a, d), 1, p);
    lemma_small_mod(1, p as nat);
}

/// Some power `a^k` with `1 <= k < p` is congruent to one (pigeonhole).
proof fn lemma_some_power_is_one(a: int, p: int)
    requires
        is_prime(p),
        a % p != 0,
    ensures
        exists|k: int| 1 <= k < p && #[trigger] (power(a, k as nat) % p) == 1,
{
    if !(exists|k: int| 1 <= k < p && #[trigger] (power(a, k as nat) % p) == 1) {
        let f = |i: int| power(a, i as nat) % p;
        let xs = set_int_range(0, p);
        let ys = xs.map(f);
        assert forall|i: int, j: int|
            xs.contains(i) && xs.contains(j) && #[trigger] f(i) == #[trigger] f(j) implies i
            == j by {
            if i < j {
                lemma_power_collision(a, i as nat, j as nat, p);
                assert(power(a, (j - i) as nat) % p == 1);
            } else if j < i {
                lemma_power_collision(a, j as nat, i as nat, p);
                assert(power(a, (i - j) as nat) % p == 1);
            }
        }
        lemma_int_range(0, p);
        lemma_map_size(xs, ys, f);
        assert forall|y: int| ys.contains(y) implies set_int_range(1, p).contains(y) by {
            let i = choose|i: int| xs.contains(i) && f(i) == y;
            lemma_power_nonzero(a, i as nat, p);
        }
        lemma_int_range(1, p);
        lemma_len_subset(ys, set_int_range(1, p));
    }
}

proof fn lemma_least_power_one(a: int, p: int, k: int)
    requires
        k >= 1,
        power(a, k as nat) % p == 1,
    ensures
        exists|r: int| 1 <= r <= k && is_order(a, p, r),
    decreases k,
{
    if forall|j: int| 1 <= j < k ==> #[trigger] (power(a, j as nat) % p) != 1 {
        assert(is_order(a, p, k));
    } else {
        let j = choose|j: int| 1 <= j < k && #[trigger] (power(a, j as nat) % p) == 1;
        lemma_least_power_one(a, p, j);
    }
}

/// The order of a unit modulo a prime exists and is unique.
pub proof fn lemma_order_exists(a: int, p: int)
    requires
        is_prime(p),
        a % p != 0,
    ensures
        is_order(a, p, order(a, p)),
        1 <= order(a, p) < p,
        forall|r: int| is_order(a, p, r) ==> r == order(a, p),
{
    lemma_some_power_is_one(a, p);
    let k = choose|k: int| 1 <= k < p && #[trigger] (power(a, k as nat) % p) == 1;
    lemma_least_power_one(a, p, k);
    let r = order(a, p);
    assert forall|r2: int| is_order(a, p, r2) implies r2 == r by {
        if r2 < r {
            assert(power(a, r2 as nat) % p != 1);
        }
        if r < r2 {
            assert(power(a, r as nat) % p != 1);
        }
    }
}

/// The orbit `{x a^i mod p : 0 <= i < r}` of `x` under multiplication by `a`.
spec fn orbit(a: int, p: int, r: int, x: int) -> Set<int> {
    set_int_range(0, r).map(|i: int| (x * power(a, i as nat)) % p)
}

/// `s` is a set of units modulo `p` closed under multiplication by `a`.
spec fn closed_units(a: int, p: int, s: Set<int>) -> bool {
    &&& forall|y: int| #[trigger] s.contains(y) ==> 1 <= y < p
    &&& forall|y: int| #[trigger] s.contains(y) ==> s.contains((y * a) % p)
}

proof fn lemma_orbit_inside(a: int, p: int, s: Set<int>, x: int, i: nat)
    requires
        p > 0,
        closed_units(a, p, s),
        s.contains(x),
    ensures
        s.contains((x * power(a, i)) % p),
    decreases i,
{
    if i == 0 {
        lemma_small_mod(x as nat, p as nat);
    } else {
        let i1 = (i - 1) as nat;
        lemma_orbit_inside(a, p, s, x, i1);
        let y = (x * power(a, i1)) % p;
        assert(s.contains((y * a) % p));
        lemma_mul_mod_assoc(x, power(a, i1), a, p);
        lemma_power_adds(a, i1, 1);
        assert(power(a, 1) == a) by {
                assert(power(a, 0) == 1);
            }
        assert(i1 + 1 == i);
        lemma_mul_is_commutative(power(a, i1), a);
    }
}

/// Every orbit of a unit under multiplication by `a` has exactly `order(a)` elements.
proof fn lemma_orbit_size(a: int, p: int, r: int, x: int)
    requires
        is_prime(p),
        a % p != 0,
        is_order(a, p, r),
        1 <= x < p,
    ensures
        orbit(a, p, r, x).finite(),
        orbit(a, p, r, x).len() == r,
{
    let f = |i: int| (x * power(a, i as nat)) % p;
    let xs = set_int_range(0, r);
    lemma_small_mod(x as nat, p as nat);
    assert forall|i: int, j: int|
        xs.contains(i) && xs.contains(j) && #[trigger] f(i) == #[trigger] f(j) implies i
        == j by {
        if i != j {
            lemma_cancel(x, power(a, i as nat), power(a, j as nat), p);
            if i < j {
                lemma_power_collision(a, i as nat, j as nat, p);
                assert(power(a, (j - i) as nat) % p == 1);
            } else {
                lemma_power_collision(a, j as nat, i as nat, p);
                assert(power(a, (i - j) as nat) % p == 1);
            }
        }
    }
    lemma_int_range(0, r);
    lemma_map_size(xs, orbit(a, p, r, x), f);
}

/// Removing an orbit from a closed set of units leaves a closed set.
proof fn lemma_remove_orbit_closed(a: int, p: int, r: int, s: Set<int>, x: int)
    requires
        is_prime(p),
        a % p != 0,
        is_order(a, p, r),
        closed_units(a, p, s),
        s.contains(x),
    ensures
        closed_units(a, p, s.difference(orbit(a, p, r, x))),
{
    let o = orbit(a, p, r, x);
    let s2 = s.difference(o);
    assert forall|y: int| #[trigger] s2.contains(y) implies s2.contains((y * a) % p) by {
        let z = (y * a) % p;
        assert(s.contains(z));
        if o.contains(z) {
            let i = choose|i: int| #[trigger] set_int_range(0, r).contains(i) && (x * power(a, i as nat)) % p == z;
            let r1 = (r - 1) as nat;
            // y == y a^r == (y a) a^(r-1) == x a^(i + r - 1)  (mod p)
            lemma_small_mod(y as nat, p as nat);
            lemma_mul_mod_noop_right(y, power(a, r as nat), p);
            lemma_power_adds(a, 1, r1);
            assert(power(a, 1) == a) by {
                assert(power(a, 0) == 1);
            }
            assert(1 + r1 == r);
            lemma_mul_is_associative(y, a, power(a, r1));
            lemma_mul_mod_noop_left(y * a, power(a, r1), p);
            lemma_mul_mod_assoc(x, power(a, i as nat), power(a, r1), p);
            lemma_power_adds(a, i as nat, r1);
            assert(y == (x * power(a, (i + r1) as nat)) % p);
            if i == 0 {
                assert(o.contains((x * power(a, r1)) % p)) by {
                    assert(set_int_range(0, r).contains(r1 as int));
                }
            } else {
                let i1 = (i - 1) as nat;
                lemma_power_adds(a, i1, r as nat);
                assert(i1 + r == i + r1);
                lemma_mul_mod_noop_right(x * power(a, i1), power(a, r as nat), p);
                lemma_mul_is_associative(x, power(a, i1), power(a, r as nat));
                assert(o.contains((x * power(a, i1)) % p)) by {
                    assert(set_int_range(0, r).contains(i1 as int));
                }
            }
        }
    }
}

/// The size of a finite set of units closed under multiplication by `a` is
/// a multiple of the order of `a`.
proof fn lemma_closed_size(a: int, p: int, r: int, s: Set<int>)
    requires
        is_prime(p),
        a % p != 0,
        is_order(a, p, r),
        closed_units(a, p, s),
        s.finite(),
    ensures
        (s.len() as int) % r == 0,
    decreases s.len(),
{
    if s.len() == 0 {
        lemma_mod_self_0(r);
        assert(0int % r == 0);
    } else {
        let x = s.choose();
        vstd::set::axiom_set_choose_len(s);
        let o = orbit(a, p, r, x);
        lemma_orbit_size(a, p, r, x);
        assert forall|y: int| #[trigger] o.contains(y) implies s.contains(y) by {
            let i = choose|i: int| #[trigger] set_int_range(0, r).contains(i) && (x * power(a, i as nat)) % p == y;
            lemma_orbit_inside(a, p, s, x, i as nat);
        }
        lemma_remove_orbit_closed(a, p, r, s, x);
        let s2 = s.difference(o);
        lemma_set_difference_len(s, o);
        assert(s.intersect(o) =~= o);
        lemma_closed_size(a, p, r, s2);
        lemma_mod_multiples_vanish(1, s2.len() as int, r);
        assert(r * 1 + s2.len() == s.len());
    }
}

/// Lagrange's theorem for the cyclic group generated by a unit: the order of
/// `a` modulo a prime `p` divides `p - 1`.
pub proof fn lemma_order_divides(a: int, p: int)
    requires
        is_prime(p),
        a % p != 0,
    ensures
        (p - 1) % order(a, p) == 0,
{
    lemma_order_exists(a, p);
    let r = order(a, p);
    let u = set_int_range(1, p);
    assert forall|y: int| #[trigger] u.contains(y) implies u.contains((y * a) % p) by {
        lemma_small_mod(y as nat, p as nat);
        lemma_product_nonzero(y, a, p);
    }
    lemma_int_range(1, p);
    lemma_closed_size(a, p, r, u);
}

/// Fermat's little theorem.
pub proof fn lemma_fermat(a: int, p: int)
    requires
        is_prime(p),
        a % p != 0,
    ensures
        power(a, (p - 1) as nat) % p == 1,
{
    lemma_order_divides(a, p);
    lemma_order_exists(a, p);
    let r = order(a, p);
    lemma_fundamental_div_mod(p - 1, r);
    let k = (p - 1) / r;
    assert(r * k == p - 1);
    assert(k >= 0) by (nonlinear_arith)
        requires
            r * k == p - 1,
            r >= 1,
            p >= 2,
    ;
    lemma_power_multiplies(a, r as nat, k as nat);
    assert((r as nat) * (k as nat) == (p - 1) as nat);
    lemma_power_of_one(power(a, r as nat), k as nat, p);
}

} // verus!
