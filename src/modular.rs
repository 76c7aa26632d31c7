//! Exact arithmetic modulo a prime: inverses, powers, multiplicative orders
//! and square roots.
use crate::number_theory::{
    has_square_root, is_order, is_prime, lemma_fermat, lemma_power_2, lemma_power_adds,
    lemma_power_multiplies, lemma_coefficients_step, lemma_divisors_done, lemma_divisors_step,
    lemma_order_divides, lemma_order_exists, lemma_power_1, lemma_power_mod, order, power, same_divisors,
};
use vstd::arithmetic::div_mod::*;
use vstd::arithmetic::mul::*;
use vstd::prelude::*;

verus! {

/// The largest modulus handled here: residues below it multiply without
/// overflowing an `i64`, and sums of two such products still fit.
pub const MODULUS_MAX: i64 = 2147483647;

/// `p` is a prime small enough for the arithmetic of this module.
pub open spec fn usable_prime(p: int) -> bool {
    is_prime(p) && p <= MODULUS_MAX
}

pub open spec fn abs(v: int) -> int {
    if v < 0 {
        -v
    } else {
        v
    }
}

/// The residue of `a` in `[0, p)`.
fn residue(a: i64, p: i64) -> (r: i64)
    requires
        p > 0,
    ensures
        r == a as int % p as int,
        0 <= r < p,
{
    match a.checked_rem_euclid(p) {
        Some(r) => r,
        None => 0,
    }
}

/// `a^b mod p`, by repeated multiplication that reduces after each step.
/// A negative exponent is read as zero.
pub fn mod_power(a: i64, b: i64, p: i64) -> (r: i64)
    requires
        0 < p <= MODULUS_MAX,
    ensures
        0 <= r < p,
        b >= 0 ==> r == power(a as int, b as nat) % p as int,
        b < 0 ==> r == 1int % p as int,
{
    let base = residue(a, p);
    let mut res: i64 = 1 % p;
    let mut i: i64 = 0;
    proof {
        lemma_power_mod(a as int, 0, p as int);
    }
    while i < b
        invariant
            0 < p <= MODULUS_MAX,
            base == a as int % p as int,
            0 <= base < p,
            0 <= i,
            b >= 0 ==> i <= b,
            b < 0 ==> i == 0,
            0 <= res < p,
            res == power(a as int, i as nat) % p as int,
        decreases b - i,
    {
        proof {
            lemma_mul_mod_noop(power(a as int, i as nat), a as int, p as int);
            lemma_mod_twice(power(a as int, i as nat), p as int);
            lemma_mod_twice(a as int, p as int);
            lemma_mul_is_commutative(power(a as int, i as nat), a as int);
            assert(power(a as int, (i + 1) as nat) == a * power(a as int, i as nat));
            assert(res * base < 0x4000_0000_0000_0000) by (nonlinear_arith)
                requires
                    0 <= res < p,
                    0 <= base < p,
                    p <= 2147483647,
            ;
        }
        res = (res * base) % p;
        i = i + 1;
    }
    res
}

/// The inverse of `num` modulo the prime `prime`, by the extended Euclidean
/// algorithm.
pub fn mod_inverse(num: i64, prime: i64) -> (r: i64)
    requires
        usable_prime(prime as int),
        num as int % prime as int != 0,
    ensures
        0 < r < prime,
        (r as int * num as int) % prime as int == 1,
{
    let n = residue(num, prime);
    let mut a: i64 = prime;
    let mut b: i64 = n;
    let mut x: i64 = 1;
    let mut y: i64 = 0;
    proof {
        lemma_mod_self_0(prime as int);
        lemma_small_mod(0, prime as nat);
        assert(same_divisors(prime as int, n as int, prime as int, n as int));
        assert(abs(1) == 1 && abs(0) == 0);
        assert(abs(1) * prime + abs(0) * n == prime) by (nonlinear_arith)
            requires
                abs(1) == 1 && abs(0) == 0,
        ;
    }
    while b != 0
        invariant
            usable_prime(prime as int),
            0 < n < prime,
            a > 0,
            b >= 0,
            (a - y * n) % prime as int == 0,
            (b - x * n) % prime as int == 0,
            same_divisors(a as int, b as int, prime as int, n as int),
            abs(x as int) * a + abs(y as int) * b == prime,
            x * y <= 0,
            abs(y as int) <= prime,
        decreases b,
    {
        let t = b;
        let q = a / t;
        proof {
            lemma_divisors_step(a as int, b as int, prime as int, n as int);
            lemma_coefficients_step(a as int, b as int, y as int, x as int, q as int, prime as int, n as int);
            assert(0 <= q * t <= a) by (nonlinear_arith)
                requires
                    a == q * t + a % t,
                    0 <= a % t < t,
                    t > 0,
                    a > 0,
            ;
            assert(abs(x as int) <= prime) by (nonlinear_arith)
                requires
                    abs(x as int) * a + abs(y as int) * b == prime,
                    a >= 1,
                    b >= 0,
                    abs(y as int) >= 0,
            ;
            assert(abs(q * x as int) <= prime && abs(y - q * x) == abs(y as int) + q * abs(x as int)) by (nonlinear_arith)
                requires
                    abs(x as int) * a + abs(y as int) * b == prime,
                    0 <= q * t <= a,
                    t == b,
                    t > 0,
                    q >= 0,
                    x * y <= 0,
            ;
            assert(abs(y - q * x) * t + abs(x as int) * (a - q * t) == prime) by (nonlinear_arith)
                requires
                    abs(x as int) * a + abs(y as int) * b == prime,
                    abs(y - q * x) == abs(y as int) + q * abs(x as int),
                    t == b,
            ;
            assert((y - q * x) * x <= 0) by (nonlinear_arith)
                requires
                    x * y <= 0,
                    q >= 0,
            ;
        }
        b = a - q * t;
        a = t;
        let t = x;
        x = y - q * t;
        y = t;
    }
    proof {
        lemma_divisors_done(a as int, y as int, prime as int, n as int);
        if y == 0 {
            lemma_small_mod(0, prime as nat);
        } else if y == prime {
            lemma_mod_multiples_basic(n as int, prime as int);
            lemma_mul_is_commutative(n as int, prime as int);
        } else if y == -prime {
            lemma_mod_multiples_basic(-n, prime as int);
            assert(y * n == (-n) * prime) by (nonlinear_arith)
                requires
                    y == -prime,
            ;
        }
        lemma_mul_mod_noop_right(y as int, num as int, prime as int);
        lemma_mod_twice(num as int, prime as int);
        lemma_mul_mod_noop_right(y as int, n as int, prime as int);
    }
    if y < 0 {
        proof {
            lemma_mul_mod_noop_left(y + prime, num as int, prime as int);
            lemma_mul_mod_noop_left(y as int, num as int, prime as int);
            lemma_mod_add_multiples_vanish(y as int, prime as int);
        }
        y + prime
    } else {
        y
    }
}

/// The multiplicative order of `a` modulo the prime `p`: the least `r > 0`
/// with `a^r == 1 (mod p)`, found by stepping through the powers of `a`.
pub fn multiplicative_order(a: i64, p: i64) -> (r: u32)
    requires
        usable_prime(p as int),
        a as int % p as int != 0,
    ensures
        r == order(a as int, p as int),
        is_order(a as int, p as int, r as int),
        (p - 1) % (r as int) == 0,
{
    let a0 = residue(a, p);
    proof {
        lemma_order_exists(a as int, p as int);
        lemma_power_mod(a as int, 1, p as int);
        lemma_power_1(a as int);
        lemma_power_1(a0 as int);
        lemma_small_mod(a0 as nat, p as nat);
    }
    let ghost ord = order(a as int, p as int);
    let mut res: u32 = 1;
    let mut curr: i64 = a0;
    while curr != 1
        invariant
            usable_prime(p as int),
            a0 == a as int % p as int,
            0 < a0 < p,
            is_order(a as int, p as int, ord),
            1 <= ord < p,
            1 <= res <= ord,
            0 <= curr < p,
            curr == power(a as int, res as nat) % p as int,
            forall|k: int| 1 <= k < res ==> #[trigger] (power(a as int, k as nat) % p as int) != 1,
        decreases ord - res,
    {
        proof {
            lemma_mul_mod_noop(power(a as int, res as nat), a as int, p as int);
            lemma_mod_twice(power(a as int, res as nat), p as int);
            lemma_mul_is_commutative(power(a as int, res as nat), a as int);
            assert(power(a as int, (res + 1) as nat) == a * power(a as int, res as nat));
            assert(curr * a0 < 0x4000_0000_0000_0000) by (nonlinear_arith)
                requires
                    0 <= curr < p,
                    0 <= a0 < p,
                    p <= 2147483647,
            ;
        }
        curr = curr * a0 % p;
        res = res + 1;
    }
    proof {
        lemma_order_exists(a as int, p as int);
        assert(is_order(a as int, p as int, res as int));
        lemma_order_divides(a as int, p as int);
    }
    res
}

/// Whether `n` is prime, by trial division up to its square root.
pub fn small_prime(n: usize) -> (r: bool)
    ensures
        r == is_prime(n as int),
{
    if n < 2 {
        return false;
    }
    let mut x: usize = 2;
    while x <= n / x
        invariant
            n >= 2,
            2 <= x <= n,
            forall|k: int| 2 <= k < x ==> #[trigger] (n as int % k) != 0,
        decreases n - x,
    {
        if n % x == 0 {
            proof {
                assert(x < n) by (nonlinear_arith)
                    requires
                        x <= n / x,
                        x >= 2,
                        n >= 2,
                ;
            }
            return false;
        }
        proof {
            assert(x + 1 <= n) by (nonlinear_arith)
                requires
                    x <= n / x,
                    x >= 2,
            ;
        }
        x = x + 1;
    }
    proof {
        assert forall|d: int| 2 <= d < n implies #[trigger] (n as int % d) != 0 by {
            if n as int % d == 0 && d >= x {
                lemma_fundamental_div_mod(n as int, d);
                let e = n as int / d;
                assert(n == d * e);
                lemma_fundamental_div_mod(n as int, x as int);
                assert(2 <= e < x && n as int % e == 0) by (nonlinear_arith)
                    requires
                        n == d * e,
                        d >= x,
                        x > n as int / x as int,
                        n == x * (n as int / x as int) + n as int % x as int,
                        0 <= (n as int % x as int) < x,
                        2 <= d < n,
                        x >= 2,
                {
                    lemma_mod_multiples_basic(d, e);
                    lemma_mul_is_commutative(d, e);
                }
            }
        }
    }
    true
}

/// Whether `n` is prime.
pub fn prime(n: usize) -> (r: bool)
    ensures
        r == is_prime(n as int),
{
    small_prime(n)
}

/// `floor(log2(x))` for `x >= 1`.
pub open spec fn floor_log2(x: int) -> nat
    decreases x,
{
    if x < 2 {
        0
    } else {
        1 + floor_log2(x / 2)
    }
}

/// The product of `x.0 + x.1*sqrt(w)` and `y.0 + y.1*sqrt(w)` in `F_p[sqrt(w)]`.
pub open spec fn cmul(x: (int, int), y: (int, int), w: int, p: int) -> (int, int) {
    ((x.0 * y.0 + x.1 * y.1 * w) % p, (x.0 * y.1 + x.1 * y.0) % p)
}

/// Bit `k` of `e` is clear (bits from 63 on are read as set).
pub open spec fn ladder_bit_clear(e: i64, k: u32) -> bool {
    k < 63 && (e & (1i64 << k)) == 0
}

/// The Montgomery ladder for `(x1, x2) = (x^j, x^(j+1))` over bits `k-1 .. 0`
/// of `e`; the first component of the pair at the end.
pub open spec fn cipolla_ladder(x1: (int, int), x2: (int, int), e: i64, k: u32, w: int, p: int) -> (int, int)
    decreases k,
{
    if k == 0 {
        x1
    } else {
        let j = (k - 1) as u32;
        if ladder_bit_clear(e, j) {
            cipolla_ladder(cmul(x1, x1, w, p), cmul(x2, x1, w, p), e, j, w, p)
        } else {
            cipolla_ladder(cmul(x1, x2, w, p), cmul(x2, x2, w, p), e, j, w, p)
        }
    }
}

/// `a^2 - n` is a non-residue by Euler's test.
pub open spec fn cipolla_test(n: int, p: int, a: int) -> bool {
    power((a * a - n) % p, ((p - 1) / 2) as nat) % p == p - 1
}

/// The first `a >= i` below `p` with `a^2 - n` a non-residue, or 0 if none.
pub open spec fn cipolla_a(n: int, p: int, i: int) -> int
    decreases p - i,
{
    if i >= p {
        0
    } else if cipolla_test(n, p, i) {
        i
    } else {
        cipolla_a(n, p, i + 1)
    }
}

/// Cipolla's candidate root of `n`: the first coordinate of
/// `(a + sqrt(a^2 - n))^((p+1)/2)`, computed by the ladder.
pub open spec fn cipolla_candidate(n: int, p: int) -> int {
    let a = cipolla_a(n, p, 1);
    let w = (a * a - n) % p;
    let e = ((p + 1) / 2) as i64;
    let x1 = (a, 1int);
    cipolla_ladder(x1, cmul(x1, x1, w, p), e, floor_log2(e as int) as u32, w, p).0
}

/// The least square root of `n` modulo `p` from `x` on.
pub open spec fn least_root(n: int, p: int, x: int) -> Option<int>
    decreases p - x,
{
    if x >= p {
        None
    } else if (x * x) % p == n {
        Some(x)
    } else {
        least_root(n, p, x + 1)
    }
}

/// The root that `cipolla` lists first: `n` itself for 0 and 1; the closed
/// form `n^((p+1)/4)` when `p == 3 (mod 4)`; otherwise Cipolla's candidate,
/// checked, with the least root in its place should the check fail.
pub open spec fn cipolla_first(n: int, p: int) -> int {
    let m = n % p;
    if m == 0 || m == 1 {
        m
    } else if p % 4 == 3 {
        power(m, ((p + 1) / 4) as nat) % p
    } else {
        let c = cipolla_candidate(m, p);
        if (c * c) % p == m {
            c
        } else {
            least_root(m, p, 0)->0
        }
    }
}

/// `floor(log2(x))` for a positive `x`.
pub fn log_2(x: i64) -> (r: u32)
    requires
        x > 0,
    ensures
        power(2, r as nat) <= x < power(2, (r + 1) as nat),
        r == floor_log2(x as int),
{
    let mut v: i64 = x;
    let mut r: u32 = 0;
    while v > 1
        invariant
            1 <= v <= x,
            r < 64,
            power(2, r as nat) > 0,
            v == x as int / power(2, r as nat),
            power(2, r as nat) <= x,
            floor_log2(x as int) == r + floor_log2(v as int),
        decreases v,
    {
        proof {
            lemma_div_denominator(x as int, power(2, r as nat), 2);
            assert(power(2, (r + 1) as nat) == 2 * power(2, r as nat));
            lemma_mul_is_commutative(2, power(2, r as nat));
            lemma_fundamental_div_mod(x as int, power(2, r as nat));
            assert(power(2, (r + 1) as nat) <= x) by (nonlinear_arith)
                requires
                    v == x as int / power(2, r as nat),
                    v >= 2,
                    power(2, r as nat) > 0,
                    x as int == power(2, r as nat) * (x as int / power(2, r as nat)) + x as int % power(2, r as nat),
                    x as int % power(2, r as nat) >= 0,
                    power(2, (r + 1) as nat) == 2 * power(2, r as nat),
            ;
            if r >= 63 {
                lemma_power_two_bound(r as nat);
            }
        }
        v = v / 2;
        r = r + 1;
    }
    proof {
        lemma_fundamental_div_mod(x as int, power(2, r as nat));
        assert(power(2, (r + 1) as nat) == 2 * power(2, r as nat));
        assert(x < power(2, (r + 1) as nat)) by (nonlinear_arith)
            requires
                v == x as int / power(2, r as nat),
                v == 1,
                power(2, r as nat) > 0,
                x as int == power(2, r as nat) * (x as int / power(2, r as nat)) + x as int % power(2, r as nat),
                (x as int % power(2, r as nat)) < power(2, r as nat),
                power(2, (r + 1) as nat) == 2 * power(2, r as nat),
        ;
    }
    r
}

/// Product of `a + b*sqrt(w)` and `c + d*sqrt(w)` in `F_p[sqrt(w)]`, each
/// coordinate reduced into `[0, p)`.
fn cipolla_mult(ab: (i64, i64), cd: (i64, i64), w: i64, p: i64) -> (r: (i64, i64))
    requires
        0 < p <= MODULUS_MAX,
        0 <= ab.0 < p,
        0 <= ab.1 < p,
        0 <= cd.0 < p,
        0 <= cd.1 < p,
        0 <= w < p,
    ensures
        r.0 == (ab.0 * cd.0 + ab.1 * cd.1 * w) % p as int,
        r.1 == (ab.0 * cd.1 + ab.1 * cd.0) % p as int,
        (r.0 as int, r.1 as int) == cmul((ab.0 as int, ab.1 as int), (cd.0 as int, cd.1 as int), w as int, p as int),
        0 <= r.0 < p,
        0 <= r.1 < p,
{
    let (a, b) = ab;
    let (c, d) = cd;
    proof {
        assert(a * c < 0x4000_0000_0000_0000 && b * d < 0x4000_0000_0000_0000 && a * d
            < 0x4000_0000_0000_0000 && b * c < 0x4000_0000_0000_0000) by (nonlinear_arith)
            requires
                0 <= a < p,
                0 <= b < p,
                0 <= c < p,
                0 <= d < p,
                p <= 2147483647,
        ;
    }
    let bd = (b * d) % p;
    proof {
        assert(bd * w < 0x4000_0000_0000_0000) by (nonlinear_arith)
            requires
                0 <= bd < p,
                0 <= w < p,
                p <= 2147483647,
        ;
        lemma_mul_mod_noop_left(b * d, w as int, p as int);
        lemma_add_mod_noop(a * c, (b * d) * w, p as int);
        lemma_add_mod_noop(a * c, bd * w, p as int);
        lemma_mod_twice(bd * w, p as int);
        lemma_mod_twice(a * c, p as int);
        lemma_mod_bound(a * c, p as int);
        lemma_mod_bound(bd * w, p as int);
    }
    let first = ((a * c) % p + (bd * w) % p) % p;
    let second = (a * d + b * c) % p;
    (first, second)
}

/// A square root of `n` modulo `p`, by trying every residue in turn.
fn square_root_search(n: i64, p: i64) -> (r: Option<i64>)
    requires
        0 < p <= MODULUS_MAX,
        0 <= n < p,
    ensures
        r is Some ==> 0 <= r->0 < p && (r->0 * r->0) % p as int == n,
        r is None ==> !has_square_root(n as int, p as int),
        r is Some <==> least_root(n as int, p as int, 0) is Some,
        r is Some ==> r->0 == least_root(n as int, p as int, 0)->0,
{
    let mut x: i64 = 0;
    while x < p
        invariant
            0 < p <= MODULUS_MAX,
            0 <= n < p,
            0 <= x <= p,
            least_root(n as int, p as int, 0) == least_root(n as int, p as int, x as int),
            forall|y: int| 0 <= y < x ==> #[trigger] ((y * y) % p as int) != n,
        decreases p - x,
    {
        proof {
            assert(x * x < 0x4000_0000_0000_0000) by (nonlinear_arith)
                requires
                    0 <= x < p,
                    p <= 2147483647,
            ;
        }
        if (x * x) % p == n {
            return Some(x);
        }
        x = x + 1;
    }
    proof {
        lemma_small_mod(n as nat, p as nat);
    }
    None
}

/// An odd prime is odd.
proof fn lemma_odd_prime(p: int)
    requires
        is_prime(p),
        p != 2,
    ensures
        p % 2 == 1,
        p >= 3,
{
    assert(p % 2 != 0);
    lemma_mod_bound(p, 2);
}

/// Euler's criterion, the easy half: a nonzero square `n` modulo an odd prime
/// satisfies `n^((p-1)/2) == 1 (mod p)`.
proof fn lemma_square_euler(n: int, p: int, x: int)
    requires
        is_prime(p),
        p != 2,
        0 < n < p,
        0 <= x < p,
        (x * x) % p == n,
    ensures
        power(n, ((p - 1) / 2) as nat) % p == 1,
{
    lemma_odd_prime(p);
    let e = ((p - 1) / 2) as nat;
    assert(2 * e == p - 1);
    if x == 0 {
        lemma_small_mod(0, p as nat);
    }
    lemma_small_mod(x as nat, p as nat);
    lemma_power_mod(x * x, e, p);
    lemma_power_2(x);
    lemma_power_multiplies(x, 2, e);
    assert(2 * e == (p - 1) as nat);
    lemma_fermat(x, p);
}

/// The square roots of `n` modulo the prime `p`, as a root and its negation,
/// or `None` when `n` has no square root. Uses the closed form
/// `n^((p+1)/4)` when `p == 3 (mod 4)` and Cipolla's algorithm otherwise.
pub fn cipolla(n: i64, p: i64) -> (r: Option<(i64, i64)>)
    requires
        usable_prime(p as int),
    ensures
        r is Some <==> has_square_root(n as int, p as int),
        r is Some ==> {
            let (x, y) = r->0;
            &&& 0 <= x < p
            &&& (x * x) % p as int == n as int % p as int
            &&& y == (p - x) % p as int
            &&& x == cipolla_first(n as int, p as int)
        },
{
    let nr = residue(n, p);
    proof {
        assert(has_square_root(n as int, p as int) == has_square_root(nr as int, p as int)) by {
            lemma_mod_twice(n as int, p as int);
        }
    }
    proof {
        lemma_mod_twice(nr as int, p as int);
        lemma_mod_self_0(p as int);
        lemma_small_mod(0, p as nat);
        lemma_small_mod(1, p as nat);
    }
    if nr == 0 || nr == 1 {
        proof {
            assert(nr * nr == nr) by (nonlinear_arith)
                requires
                    nr == 0 || nr == 1,
            ;
            assert((nr * nr) % p as int == nr);
        }
        return Some((nr, (p - nr) % p));
    }
    proof {
        lemma_odd_prime(p as int);
    }
    let phi = p - 1;
    let euler = mod_power(nr, phi / 2, p);
    if euler != 1 {
        proof {
            if has_square_root(nr as int, p as int) {
                let x = choose|x: int| 0 <= x < p && #[trigger] ((x * x) % p as int) == nr as int % p as int;
                lemma_small_mod(nr as nat, p as nat);
                lemma_square_euler(nr as int, p as int, x);
            }
        }
        return None;
    }
    if p % 4 == 3 {
        let e = (p + 1) / 4;
        let ans = mod_power(nr, e, p);
        proof {
            let pe = power(nr as int, e as nat);
            let h = ((p - 1) / 2) as nat;
            assert(h == (phi / 2) as nat);
            assert(euler == power(nr as int, h) % p as int);
            lemma_mul_mod_noop(pe, pe, p as int);
            assert((ans * ans) % p as int == (pe * pe) % p as int);
            lemma_power_adds(nr as int, e as nat, e as nat);
            assert(e as nat + e as nat == h + 1);
            lemma_power_adds(nr as int, h, 1);
            lemma_power_1(nr as int);
            assert(pe * pe == power(nr as int, h) * nr);
            lemma_mul_mod_noop_left(power(nr as int, h), nr as int, p as int);
            lemma_small_mod(nr as nat, p as nat);
            assert(euler == 1);
            assert((power(nr as int, h) * nr) % p as int == (1int * nr) % p as int);
            assert((ans * ans) % p as int == nr);
        }
        return Some((ans, (p - ans) % p));
    }
    let mut aa: i64 = 0;
    let mut i: i64 = 1;
    while i < p
        invariant
            usable_prime(p as int),
            2 <= nr < p,
            phi == p - 1,
            1 <= i <= p,
            0 <= aa < p,
            aa == 0 ==> cipolla_a(nr as int, p as int, 1) == cipolla_a(nr as int, p as int, i as int),
            aa != 0 ==> aa == cipolla_a(nr as int, p as int, 1) && i == p,
        decreases p - i,
    {
        proof {
            assert(i * i < 0x4000_0000_0000_0000) by (nonlinear_arith)
                requires
                    0 <= i < p,
                    p <= 2147483647,
            ;
        }
        let temp = mod_power(residue(i * i - nr, p), phi / 2, p);
        proof {
            lemma_mod_twice(i * i - nr, p as int);
        }
        if temp == phi {
            proof {
                assert(cipolla_test(nr as int, p as int, i as int));
                assert(cipolla_a(nr as int, p as int, i as int) == i);
            }
            aa = i;
            i = p;
        } else {
            i = i + 1;
        }
    }
    proof {
        assert(aa == cipolla_a(nr as int, p as int, 1));
        assert(aa * aa < 0x4000_0000_0000_0000) by (nonlinear_arith)
            requires
                0 <= aa < p,
                p <= 2147483647,
        ;
    }
    let w = residue(aa * aa - nr, p);
    let exponent = (p + 1) / 2;
    let mut x1: (i64, i64) = (aa, 1);
    let mut x2 = cipolla_mult(x1, x1, w, p);
    let l = log_2(exponent);
    let ghost target = cipolla_ladder(
        (aa as int, 1int),
        (x2.0 as int, x2.1 as int),
        exponent,
        l,
        w as int,
        p as int,
    );
    let mut k: u32 = l;
    while k > 0
        invariant
            0 < p <= MODULUS_MAX,
            0 <= w < p,
            0 <= x1.0 < p,
            0 <= x1.1 < p,
            0 <= x2.0 < p,
            0 <= x2.1 < p,
            cipolla_ladder((x1.0 as int, x1.1 as int), (x2.0 as int, x2.1 as int), exponent, k, w as int, p as int)
                == target,
        decreases k,
    {
        k = k - 1;
        if k < 63 && (exponent & (1i64 << k)) == 0 {
            x2 = cipolla_mult(x2, x1, w, p);
            x1 = cipolla_mult(x1, x1, w, p);
        } else {
            x1 = cipolla_mult(x1, x2, w, p);
            x2 = cipolla_mult(x2, x2, w, p);
        }
    }
    proof {
        assert(x1.0 == cipolla_candidate(nr as int, p as int));
    }
    let root = x1.0;
    proof {
        assert(root * root < 0x4000_0000_0000_0000) by (nonlinear_arith)
            requires
                0 <= root < p,
                p <= 2147483647,
        ;
    }
    if (root * root) % p == nr {
        Some((root, (p - root) % p))
    } else {
        match square_root_search(nr, p) {
            Some(x) => Some((x, (p - x) % p)),
            None => None,
        }
    }
}

/// Whether the ring of Eisenstein integers `Z[w]` (`w^2 + w + 1 == 0`) maps
/// onto `F_p`: for an odd prime this holds exactly when `-3` is a square
/// modulo `p`. For `p == 2` it fails, since `x^2 + x + 1` has no root in `F_2`.
pub fn has_qw_homomorphism(p: i64) -> (r: bool)
    requires
        usable_prime(p as int),
    ensures
        r == (p != 2 && has_square_root(-3, p as int)),
{
    if p == 2 {
        return false;
    }
    proof {
        lemma_mod_add_multiples_vanish(-3, p as int);
    }
    cipolla(p - 3, p).is_some()
}

proof fn lemma_power_two_bound(k: nat)
    requires
        k >= 63,
    ensures
        power(2, k) > i64::MAX,
    decreases k,
{
    if k == 63 {
        reveal_with_fuel(power, 64);
        assert(power(2, 63) == 0x8000_0000_0000_0000);
    } else {
        lemma_power_two_bound((k - 1) as nat);
    }
}

} // verus!
