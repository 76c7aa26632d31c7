//! Eisenstein integers `a + b*w` (`w^2 + w + 1 == 0`), elements of Q(w) as
//! fractions of them, and their images in `F_p` under the two ring maps
//! that send `w` to a root of `x^2 + x + 1` modulo `p`.
use crate::modular::{cipolla, cipolla_first, mod_inverse, usable_prime, MODULUS_MAX};
use crate::number_theory::{has_square_root, is_prime, lemma_cancel, lemma_product_nonzero};
use crate::polynomial::{coeff_view, PolyModel, Polynomial};
use crate::rational::{lemma_residue_of, residue_fraction, residue_of};
use vstd::arithmetic::div_mod::*;
use vstd::arithmetic::mul::*;
use vstd::prelude::*;

verus! {

/// The bound on coordinates under which products of Eisenstein integers are
/// computed without overflow.
pub const COORD_MAX: i64 = 1073741824;

/// `w` is a root of `x^2 + x + 1` in `F_p`: an image of the cube root of unity.
pub open spec fn omega_root(w: int, p: int) -> bool {
    0 <= w < p && (w * w + w + 1) % p == 0
}

/// A prime at which Q(w) maps onto `F_p`.
pub open spec fn usable_qw_prime(p: int) -> bool {
    usable_prime(p) && p != 2 && has_square_root(-3, p)
}

/// The norm `a^2 - ab + b^2` of `a + b*w`.
pub open spec fn norm(a: int, b: int) -> int {
    a * a - a * b + b * b
}

/// An Eisenstein integer `a + b*w`.
#[derive(Debug, Copy, Clone, PartialEq, Eq, Structural)]
pub struct EisensteinInteger {
    pub a: i64,
    pub b: i64,
}

/// The image of `e` in `F_p` when `w` is sent to `w0`.
pub open spec fn image(e: EisensteinInteger, w0: int, p: int) -> int {
    (e.a + w0 * e.b) % p
}

/// Both coordinates lie within `COORD_MAX`.
pub open spec fn small_coords(e: EisensteinInteger) -> bool {
    -COORD_MAX <= e.a <= COORD_MAX && -COORD_MAX <= e.b <= COORD_MAX
}

proof fn lemma_omega_from_sqrt(s: int, w: int, p: int)
    requires
        is_prime(p),
        p != 2,
        (s * s) % p == (p - 3) % p,
        (2 * w) % p == (s - 1) % p,
    ensures
        (w * w + w + 1) % p == 0,
{
    let t = 2 * w + 1;
    lemma_add_mod_noop(2 * w, 1, p);
    lemma_add_mod_noop(s - 1, 1, p);
    assert(t % p == s % p);
    lemma_mul_mod_noop(t, t, p);
    lemma_mul_mod_noop(s, s, p);
    assert((t * t) % p == (p - 3) % p);
    assert(4 * (w * w + w + 1) == t * t + 3) by (nonlinear_arith)
        requires
            t == 2 * w + 1,
    ;
    lemma_add_mod_noop(t * t, 3, p);
    lemma_add_mod_noop(p - 3, 3, p);
    lemma_mod_self_0(p);
    lemma_small_mod(0, p as nat);
    assert((4 * (w * w + w + 1)) % p == (4 * 0int) % p);
    assert(4int % p != 0) by {
        if p > 4 {
            lemma_small_mod(4, p as nat);
        } else {
            assert(p % 2 != 0);
            assert(p == 3);
        }
    }
    lemma_cancel(4, w * w + w + 1, 0, p);
}

/// `x^2 + x + 1` has at most the two roots `w` and `p - 1 - w` in `F_p`.
pub proof fn lemma_omega_roots(w: int, v: int, p: int)
    requires
        is_prime(p),
        omega_root(w, p),
        omega_root(v, p),
    ensures
        v == w || v == p - 1 - w,
{
    assert((v - w) * (v + w + 1) == (v * v + v + 1) - (w * w + w + 1)) by (nonlinear_arith);
    lemma_sub_mod_noop(v * v + v + 1, w * w + w + 1, p);
    lemma_small_mod(0, p as nat);
    if (v - w) % p != 0 && (v + w + 1) % p != 0 {
        lemma_product_nonzero(v - w, v + w + 1, p);
    }
    assert(((v * v + v + 1) - (w * w + w + 1)) % p == 0);
    if (v - w) % p == 0 {
        lemma_fundamental_div_mod(v - w, p);
        assert((v - w) / p == 0) by (nonlinear_arith)
            requires
                v - w == p * ((v - w) / p) + 0,
                -p < v - w < p,
        ;
        assert(v - w == 0);
    } else {
        assert((v + w + 1) % p == 0);
        lemma_fundamental_div_mod(v + w + 1, p);
        assert((v + w + 1) / p == 1) by (nonlinear_arith)
            requires
                v + w + 1 == p * ((v + w + 1) / p) + 0,
                0 < v + w + 1 < 2 * p,
        ;
        assert(v + w + 1 == p);
    }
}

/// With `w`, the other root `p - 1 - w` of `x^2 + x + 1` is a root too.
pub proof fn lemma_other_root(w: int, p: int)
    requires
        p > 0,
        omega_root(w, p),
    ensures
        omega_root(p - 1 - w, p),
{
    let v = p - 1 - w;
    assert(v * v + v + 1 == p * (p - 1 - 2 * w) + (w * w + w + 1)) by (nonlinear_arith)
        requires
            v == p - 1 - w,
    ;
    lemma_mod_multiples_vanish(p - 1 - 2 * w, w * w + w + 1, p);
}

/// The first image of `w` in `F_p`: `(s - 1) / 2`, where `s` is the square
/// root of `-3` that `cipolla` lists first.
pub open spec fn omega_first(p: int) -> int {
    (((cipolla_first(p - 3, p) + p - 1) % p) * residue_of(1, 2, p)) % p
}

/// The two images of `w` in `F_p`: a root of `x^2 + x + 1`, found from a
/// square root of `-3` by Cipolla's algorithm, and the other root.
fn omega_images(p: i64) -> (r: (i64, i64))
    requires
        usable_qw_prime(p as int),
    ensures
        r.0 == omega_first(p as int),
        omega_root(r.0 as int, p as int),
        r.1 == p - 1 - r.0,
        omega_root(r.1 as int, p as int),
{
    proof {
        lemma_mod_add_multiples_vanish(-3, p as int);
    }
    let (s1, _) = cipolla(p - 3, p).unwrap();
    proof {
        lemma_small_mod(2, p as nat);
    }
    let d2 = mod_inverse(2, p);
    let m = (s1 + p - 1) % p;
    proof {
        assert(m * d2 < 0x4000_0000_0000_0000) by (nonlinear_arith)
            requires
                0 <= m < p,
                0 < d2 < p,
                p <= 2147483647,
        ;
    }
    let w1 = (m * d2) % p;
    proof {
        // 2 * w1 == m * (d2 * 2) == m == s1 - 1  (mod p)
        lemma_mul_mod_noop_right(2, m * d2, p as int);
        assert(2 * (m * d2) == m * (d2 * 2)) by (nonlinear_arith);
        lemma_mul_mod_noop_right(m as int, d2 * 2, p as int);
        assert((d2 * 2) % p as int == 1);
        lemma_mod_add_multiples_vanish(s1 - 1, p as int);
        lemma_mod_twice(s1 + p - 1, p as int);
        lemma_omega_from_sqrt(s1 as int, w1 as int, p as int);
        lemma_mod_bound(m * d2, p as int);
        lemma_other_root(w1 as int, p as int);
        lemma_small_mod(1, p as nat);
        lemma_mul_is_commutative(d2 as int, 2);
        lemma_residue_of(1, 2, p as int, d2 as int);
        assert(w1 == omega_first(p as int));
    }
    (w1, p - 1 - w1)
}

/// The nearest integer to `n / d` (`d > 0`), halves rounded away from zero.
pub open spec fn round_div(n: int, d: int) -> int {
    if n >= 0 {
        if 2 * (n % d) >= d {
            n / d + 1
        } else {
            n / d
        }
    } else {
        -(if 2 * ((-n) % d) >= d {
            (-n) / d + 1
        } else {
            (-n) / d
        })
    }
}

/// Relies on num-rational's `Ratio::new(n, d).round().to_integer()`: the
/// fraction is reduced, then rounded to the nearest integer with halves
/// rounded away from zero, which depends on the value `n / d` alone.
#[verifier::external_body]
fn round_ratio(n: i64, d: i64) -> (r: i64)
    requires
        d > 0,
        n > i64::MIN,
    ensures
        r == round_div(n as int, d as int),
{
    num_rational::Ratio::new(n, d).round().to_integer()
}

/// Rounding leaves a remainder of at most half the divisor.
proof fn lemma_round_div(n: int, d: int)
    requires
        d > 0,
    ensures
        -d <= 2 * (n - round_div(n, d) * d) <= d,
{
    let m = if n >= 0 { n } else { -n };
    lemma_fundamental_div_mod(m, d);
    lemma_mod_bound(m, d);
    let q = m / d;
    let r = m % d;
    assert(m == d * q + r);
    if 2 * r >= d {
        assert(m - (q + 1) * d == r - d) by (nonlinear_arith)
            requires
                m == d * q + r,
        ;
    } else {
        assert(m - q * d == r) by (nonlinear_arith)
            requires
                m == d * q + r,
        ;
    }
    if n < 0 {
        assert(n - round_div(n, d) * d == -(m - round_div(m, d) * d)) by (nonlinear_arith)
            requires
                n == -m,
                round_div(n, d) == -round_div(m, d),
        ;
    }
}

/// The largest norm accepted by the Euclidean algorithm: coordinates of such
/// numbers lie within `COORD_MAX`.
pub const NORM_MAX: i64 = 0x0400_0000_0000_0000;

/// Multiplication of Eisenstein integers given by coordinates.
pub open spec fn emul(x: (int, int), y: (int, int)) -> (int, int) {
    (x.0 * y.0 - x.1 * y.1, x.0 * y.1 + x.1 * y.0 - x.1 * y.1)
}

/// The coordinates of `e`.
pub open spec fn coords(e: EisensteinInteger) -> (int, int) {
    (e.a as int, e.b as int)
}

/// `d` divides `x` in `Z[w]`.
pub open spec fn divides(d: (int, int), x: (int, int)) -> bool {
    exists|q: (int, int)| #[trigger] emul(d, q) == x
}

proof fn lemma_norm_bounds_coords(a: int, b: int)
    requires
        norm(a, b) <= NORM_MAX,
    ensures
        -COORD_MAX <= a <= COORD_MAX,
        -COORD_MAX <= b <= COORD_MAX,
{
    assert(3 * (a * a) <= 4 * norm(a, b) && 3 * (b * b) <= 4 * norm(a, b)) by (nonlinear_arith);
    assert(-COORD_MAX <= a <= COORD_MAX) by (nonlinear_arith)
        requires
            3 * (a * a) <= 4 * NORM_MAX,
    ;
    assert(-COORD_MAX <= b <= COORD_MAX) by (nonlinear_arith)
        requires
            3 * (b * b) <= 4 * NORM_MAX,
    ;
}

proof fn lemma_norm_positive(a: int, b: int)
    ensures
        norm(a, b) >= 0,
        norm(a, b) == 0 ==> a == 0 && b == 0,
{
    assert(4 * norm(a, b) == (2 * a - b) * (2 * a - b) + 3 * (b * b)) by (nonlinear_arith);
    assert(norm(a, b) >= 0) by (nonlinear_arith)
        requires
            4 * norm(a, b) == (2 * a - b) * (2 * a - b) + 3 * (b * b),
    ;
    if norm(a, b) == 0 {
        assert(b == 0) by (nonlinear_arith)
            requires
                0 == (2 * a - b) * (2 * a - b) + 3 * (b * b),
        ;
        assert(a == 0) by (nonlinear_arith)
            requires
                0 == (2 * a - b) * (2 * a - b) + 3 * (b * b),
                b == 0,
        ;
    }
}

proof fn lemma_emul_assoc(x: (int, int), y: (int, int), z: (int, int))
    ensures
        emul(emul(x, y), z) == emul(x, emul(y, z)),
{
    let (x0, x1, y0, y1, z0, z1) = (x.0, x.1, y.0, y.1, z.0, z.1);
    lemma_mul_is_distributive_sub_other_way(z0, x0 * y0, x1 * y1);
    lemma_mul_is_distributive_sub_other_way(z1, x0 * y0, x1 * y1);
    lemma_mul_is_distributive_add_other_way(z0, x0 * y1, x1 * y0);
    lemma_mul_is_distributive_add_other_way(z1, x0 * y1, x1 * y0);
    lemma_mul_is_distributive_sub_other_way(z0, x0 * y1 + x1 * y0, x1 * y1);
    lemma_mul_is_distributive_sub_other_way(z1, x0 * y1 + x1 * y0, x1 * y1);
    lemma_mul_is_distributive_sub(x0, y0 * z0, y1 * z1);
    lemma_mul_is_distributive_sub(x1, y0 * z0, y1 * z1);
    lemma_mul_is_distributive_add(x0, y0 * z1, y1 * z0);
    lemma_mul_is_distributive_add(x1, y0 * z1, y1 * z0);
    lemma_mul_is_distributive_sub(x0, y0 * z1 + y1 * z0, y1 * z1);
    lemma_mul_is_distributive_sub(x1, y0 * z1 + y1 * z0, y1 * z1);
    lemma_mul_is_associative(x0, y0, z0);
    lemma_mul_is_associative(x0, y0, z1);
    lemma_mul_is_associative(x0, y1, z0);
    lemma_mul_is_associative(x0, y1, z1);
    lemma_mul_is_associative(x1, y0, z0);
    lemma_mul_is_associative(x1, y0, z1);
    lemma_mul_is_associative(x1, y1, z0);
    lemma_mul_is_associative(x1, y1, z1);
}

proof fn lemma_emul_comm(x: (int, int), y: (int, int))
    ensures
        emul(x, y) == emul(y, x),
{
    let (x0, x1, y0, y1) = (x.0, x.1, y.0, y.1);
    assert(x0 * y0 - x1 * y1 == y0 * x0 - y1 * x1) by (nonlinear_arith);
    assert(x0 * y1 + x1 * y0 - x1 * y1 == y0 * x1 + y1 * x0 - y1 * x1) by (nonlinear_arith);
}

proof fn lemma_emul_add(x: (int, int), y: (int, int), z: (int, int))
    ensures
        emul(x, (y.0 + z.0, y.1 + z.1)) == (emul(x, y).0 + emul(x, z).0, emul(x, y).1 + emul(x, z).1),
        emul(x, (y.0 - z.0, y.1 - z.1)) == (emul(x, y).0 - emul(x, z).0, emul(x, y).1 - emul(x, z).1),
{
    let (x0, x1, y0, y1, z0, z1) = (x.0, x.1, y.0, y.1, z.0, z.1);
    assert(x0 * (y0 + z0) - x1 * (y1 + z1) == (x0 * y0 - x1 * y1) + (x0 * z0 - x1 * z1)) by (nonlinear_arith);
    assert(x0 * (y1 + z1) + x1 * (y0 + z0) - x1 * (y1 + z1) == (x0 * y1 + x1 * y0 - x1 * y1) + (x0
        * z1 + x1 * z0 - x1 * z1)) by (nonlinear_arith);
    assert(x0 * (y0 - z0) - x1 * (y1 - z1) == (x0 * y0 - x1 * y1) - (x0 * z0 - x1 * z1)) by (nonlinear_arith);
    assert(x0 * (y1 - z1) + x1 * (y0 - z0) - x1 * (y1 - z1) == (x0 * y1 + x1 * y0 - x1 * y1) - (x0
        * z1 + x1 * z0 - x1 * z1)) by (nonlinear_arith);
}

proof fn lemma_norm_mul(x: (int, int), y: (int, int))
    ensures
        norm(emul(x, y).0, emul(x, y).1) == norm(x.0, x.1) * norm(y.0, y.1),
{
    // the norm is the product with the conjugate (a - b, -b)
    let cx = (x.0 - x.1, -x.1);
    let cy = (y.0 - y.1, -y.1);
    let xy = emul(x, y);
    let cxy = (xy.0 - xy.1, -xy.1);
    lemma_norm_as_product(x);
    lemma_norm_as_product(y);
    lemma_norm_as_product(xy);
    // conj(x y) == conj(x) conj(y)
    lemma_conj_mul(x, y);
    // (x y)(conj x conj y) == (x conj x)(y conj y)
    lemma_emul_assoc(x, y, emul(cx, cy));
    lemma_emul_assoc(y, cx, cy);
    lemma_emul_comm(y, cx);
    lemma_emul_assoc(cx, y, cy);
    lemma_emul_assoc(x, cx, emul(y, cy));
    lemma_emul_assoc(xy, cx, cy);
    lemma_emul_assoc(x, y, cx);
    assert(emul(xy, cxy) == emul(emul(x, cx), emul(y, cy)));
    let nx = norm(x.0, x.1);
    let ny = norm(y.0, y.1);
    assert(emul((nx, 0int), (ny, 0int)) == (nx * ny, 0int)) by {
        assert(nx * ny - 0 * 0 == nx * ny);
        assert(nx * 0 + 0 * ny - 0 * 0 == 0);
    }
}

/// `x` times its conjugate is its norm.
proof fn lemma_norm_as_product(x: (int, int))
    ensures
        emul(x, (x.0 - x.1, -x.1)) == (norm(x.0, x.1), 0int),
{
    let (a, b) = (x.0, x.1);
    assert(a * (a - b) - b * (-b) == a * a - a * b + b * b) by (nonlinear_arith);
    assert(a * (-b) + b * (a - b) - b * (-b) == 0) by (nonlinear_arith);
}

/// Conjugation is multiplicative.
proof fn lemma_conj_mul(x: (int, int), y: (int, int))
    ensures
        ({
            let xy = emul(x, y);
            (xy.0 - xy.1, -xy.1) == emul((x.0 - x.1, -x.1), (y.0 - y.1, -y.1))
        }),
{
    let (a, b, c, d) = (x.0, x.1, y.0, y.1);
    assert((a * c - b * d) - (a * d + b * c - b * d) == (a - b) * (c - d) - (-b) * (-d)) by (nonlinear_arith);
    assert(-(a * d + b * c - b * d) == (a - b) * (-d) + (-b) * (c - d) - (-b) * (-d)) by (nonlinear_arith);
}

/// The remainder of a division with rounded quotient has smaller norm than
/// the divisor.
proof fn lemma_remainder_norm(a: int, b: int, c: int, d: int, qa: int, qb: int)
    requires
        norm(c, d) > 0,
        -norm(c, d) <= 2 * ((a * c - a * d + b * d) - qa * norm(c, d)) <= norm(c, d),
        -norm(c, d) <= 2 * ((b * c - a * d) - qb * norm(c, d)) <= norm(c, d),
    ensures
        norm(a - emul((c, d), (qa, qb)).0, b - emul((c, d), (qa, qb)).1) < norm(c, d),
{
    let n = norm(c, d);
    let y = (c, d);
    let cj = (c - d, -d);
    let pq = emul(y, (qa, qb));
    let rem = (a - pq.0, b - pq.1);
    let ex = (a * c - a * d + b * d) - qa * n;
    let ey = (b * c - a * d) - qb * n;
    // the divisor times its conjugate is its norm
    assert(c * (c - d) - d * (-d) == c * c - c * d + d * d) by (nonlinear_arith);
    assert(c * (-d) + d * (c - d) - d * (-d) == 0) by (nonlinear_arith);
    assert(emul(y, cj) == (n, 0int));
    lemma_emul_comm(pq, cj);
    lemma_emul_comm(y, (qa, qb));
    lemma_emul_assoc(cj, (qa, qb), y);
    lemma_emul_comm(cj, emul((qa, qb), y));
    lemma_emul_assoc((qa, qb), y, cj);
    assert(qa * n - qb * 0 == qa * n && qa * 0 + qb * n - qb * 0 == qb * n) by (nonlinear_arith);
    assert(emul((qa, qb), (n, 0int)) == (qa * n, qb * n));
    assert(emul(pq, cj) == (qa * n, qb * n));
    lemma_emul_comm(rem, cj);
    lemma_emul_add(cj, (a, b), pq);
    lemma_emul_comm(cj, (a, b));
    lemma_emul_comm(cj, pq);
    assert(a * (c - d) - b * (-d) == a * c - a * d + b * d) by (nonlinear_arith);
    assert(a * (-d) + b * (c - d) - b * (-d) == b * c - a * d) by (nonlinear_arith);
    assert(emul((a, b), cj) == (a * c - a * d + b * d, b * c - a * d));
    assert(emul(rem, cj) == (ex, ey));
    lemma_norm_mul(rem, cj);
    assert((c - d) * (c - d) - (c - d) * (-d) + (-d) * (-d) == c * c - c * d + d * d) by (nonlinear_arith);
    assert(norm(cj.0, cj.1) == n);
    assert(4 * norm(ex, ey) <= 3 * (n * n)) by (nonlinear_arith)
        requires
            -n <= 2 * ex <= n,
            -n <= 2 * ey <= n,
    ;
    lemma_norm_positive(rem.0, rem.1);
    assert(norm(rem.0, rem.1) < n) by (nonlinear_arith)
        requires
            4 * (norm(rem.0, rem.1) * n) <= 3 * (n * n),
            n > 0,
            norm(rem.0, rem.1) >= 0,
    ;
}

/// `x == r + y * q`: common divisors of `(x, y)` and of `(y, r)` agree.
proof fn lemma_divisors_shift(x: (int, int), y: (int, int), r: (int, int), q: (int, int), g: (int, int))
    requires
        x.0 == r.0 + emul(y, q).0,
        x.1 == r.1 + emul(y, q).1,
    ensures
        divides(g, y) && divides(g, r) ==> divides(g, x),
        divides(g, x) && divides(g, y) ==> divides(g, r),
{
    if divides(g, y) && divides(g, r) {
        let u = choose|u: (int, int)| #[trigger] emul(g, u) == y;
        let v = choose|v: (int, int)| #[trigger] emul(g, v) == r;
        let uq = emul(u, q);
        lemma_emul_assoc(g, u, q);
        lemma_emul_add(g, v, uq);
        assert(emul(g, (v.0 + uq.0, v.1 + uq.1)) == x);
    }
    if divides(g, x) && divides(g, y) {
        let s = choose|s: (int, int)| #[trigger] emul(g, s) == x;
        let u = choose|u: (int, int)| #[trigger] emul(g, u) == y;
        let uq = emul(u, q);
        lemma_emul_assoc(g, u, q);
        lemma_emul_add(g, s, uq);
        assert(emul(g, (s.0 - uq.0, s.1 - uq.1)) == r);
    }
}

/// The rounded quotient of `x` by a nonzero `y`, as `division` computes it.
pub open spec fn rounded_quotient(x: (int, int), y: (int, int)) -> (int, int) {
    let n = norm(y.0, y.1);
    (
        round_div(x.0 * y.0 - x.0 * y.1 + x.1 * y.1, n),
        round_div(x.1 * y.0 - x.0 * y.1, n),
    )
}

/// The remainder `x - y * q` of the rounded division.
pub open spec fn rounded_remainder(x: (int, int), y: (int, int)) -> (int, int) {
    let q = rounded_quotient(x, y);
    (x.0 - emul(y, q).0, x.1 - emul(y, q).1)
}

/// The result of the Euclidean algorithm with rounded quotients on `x` and
/// `y`: order the pair by norm, then replace `(x, y)` by `(y, x - y*q)` until
/// the remainder is zero, and answer the last divisor.
pub open spec fn euclid_gcd(x: (int, int), y: (int, int)) -> (int, int)
    decreases norm(y.0, y.1), (if norm(x.0, x.1) < norm(y.0, y.1) {
        1int
    } else {
        0int
    }) via euclid_gcd_decreases
{
    if norm(y.0, y.1) <= 0 {
        x
    } else if norm(x.0, x.1) < norm(y.0, y.1) {
        euclid_gcd(y, x)
    } else {
        let r = rounded_remainder(x, y);
        if r == (0int, 0int) {
            y
        } else {
            euclid_gcd(y, r)
        }
    }
}

#[via_fn]
proof fn euclid_gcd_decreases(x: (int, int), y: (int, int)) {
    lemma_norm_positive(x.0, x.1);
    lemma_norm_positive(y.0, y.1);
    if norm(y.0, y.1) > 0 && !(norm(x.0, x.1) < norm(y.0, y.1)) {
        let n = norm(y.0, y.1);
        let q = rounded_quotient(x, y);
        lemma_round_div(x.0 * y.0 - x.0 * y.1 + x.1 * y.1, n);
        lemma_round_div(x.1 * y.0 - x.0 * y.1, n);
        lemma_remainder_norm(x.0, x.1, y.0, y.1, q.0, q.1);
        let r = rounded_remainder(x, y);
        lemma_norm_positive(r.0, r.1);
    }
}

impl EisensteinInteger {
    pub fn new(a: i64, b: i64) -> (r: EisensteinInteger)
        ensures
            r.a == a,
            r.b == b,
    {
        EisensteinInteger { a, b }
    }

    pub fn one() -> (r: EisensteinInteger)
        ensures
            r.a == 1,
            r.b == 0,
    {
        EisensteinInteger { a: 1, b: 0 }
    }

    pub fn zero() -> (r: EisensteinInteger)
        ensures
            r.a == 0,
            r.b == 0,
    {
        EisensteinInteger { a: 0, b: 0 }
    }

    /// Whether this is a unit of `Z[w]`, that is, has norm one: one of
    /// `1, -1, w, -w, w^2 = -1 - w, -w^2 = 1 + w`.
    pub fn is_unit(&self) -> (r: bool)
        ensures
            r == (norm(self.a as int, self.b as int) == 1),
    {
        let a = self.a;
        let b = self.b;
        proof {
            let n = norm(a as int, b as int);
            assert(4 * n == (2 * a - b) * (2 * a - b) + 3 * (b * b)) by (nonlinear_arith)
                requires
                    n == a * a - a * b + b * b,
            ;
            if n == 1 {
                assert(b * b <= 1) by (nonlinear_arith)
                    requires
                        4 == (2 * a - b) * (2 * a - b) + 3 * (b * b),
                ;
                assert(-1 <= b <= 1) by (nonlinear_arith)
                    requires
                        b * b <= 1,
                ;
                if b == 0 {
                    assert(a * a == 1) by (nonlinear_arith)
                        requires
                            n == a * a - a * b + b * b,
                            n == 1,
                            b == 0,
                    ;
                    assert(a == 1 || a == -1) by (nonlinear_arith)
                        requires
                            a * a == 1,
                    ;
                } else if b == 1 {
                    assert(a * a - a == 0) by (nonlinear_arith)
                        requires
                            n == a * a - a * b + b * b,
                            n == 1,
                            b == 1,
                    ;
                    assert(a == 0 || a == 1) by (nonlinear_arith)
                        requires
                            a * a - a == 0,
                    ;
                } else {
                    assert(a * a + a == 0) by (nonlinear_arith)
                        requires
                            n == a * a - a * b + b * b,
                            n == 1,
                            b == -1,
                    ;
                    assert(a == 0 || a == -1) by (nonlinear_arith)
                        requires
                            a * a + a == 0,
                    ;
                }
            }
        }
        proof {
            assert(norm(1, 0) == 1 && norm(-1, 0) == 1 && norm(0, 1) == 1 && norm(1, 1) == 1);
            assert(norm(0, -1) == 1 && norm(-1, -1) == 1);
        }
        if b == 0 {
            a == 1 || a == -1
        } else if b == 1 {
            a == 0 || a == 1
        } else if b == -1 {
            a == 0 || a == -1
        } else {
            false
        }
    }

    pub fn is_zero(&self) -> (r: bool)
        ensures
            r == (self.a == 0 && self.b == 0),
    {
        self.a == 0 && self.b == 0
    }

    /// The product, using `w^2 == -1 - w`.
    pub fn product(&self, other: EisensteinInteger) -> (r: EisensteinInteger)
        requires
            small_coords(*self),
            small_coords(other),
        ensures
            r.a == self.a * other.a - self.b * other.b,
            r.b == self.a * other.b + self.b * other.a - self.b * other.b,
    {
        proof {
            lemma_small_products(self.a as int, self.b as int, other.a as int, other.b as int);
        }
        EisensteinInteger {
            a: self.a * other.a - self.b * other.b,
            b: self.a * other.b + self.b * other.a - self.b * other.b,
        }
    }

    /// The complex conjugate `a + b*w^2 == (a - b) - b*w`.
    pub fn conjugate(&self) -> (r: EisensteinInteger)
        requires
            small_coords(*self),
        ensures
            r.a == self.a - self.b,
            r.b == -self.b,
    {
        EisensteinInteger { a: self.a - self.b, b: -self.b }
    }

    /// The norm `|a + b*w|^2 == a^2 - ab + b^2`.
    pub fn norm_sq(&self) -> (r: i64)
        requires
            small_coords(*self),
        ensures
            r == norm(self.a as int, self.b as int),
    {
        proof {
            lemma_small_products(self.a as int, self.b as int, self.a as int, self.b as int);
        }
        self.a * self.a - self.a * self.b + self.b * self.b
    }

    pub fn difference(&self, other: &EisensteinInteger) -> (r: EisensteinInteger)
        requires
            small_coords(*self),
            small_coords(*other),
        ensures
            r.a == self.a - other.a,
            r.b == self.b - other.b,
    {
        EisensteinInteger { a: self.a - other.a, b: self.b - other.b }
    }

    /// The quotient rounded to the nearest Eisenstein integer: divide in the
    /// complex numbers, `self * conj(other) / |other|^2`, and round each
    /// coordinate to the nearest integer.
    pub fn division(&self, other: &EisensteinInteger) -> (r: EisensteinInteger)
        requires
            small_coords(*self),
            small_coords(*other),
            !(other.a == 0 && other.b == 0),
        ensures
            r.a == round_div(
                self.a * other.a - self.a * other.b + self.b * other.b,
                norm(other.a as int, other.b as int),
            ),
            r.b == round_div(self.b * other.a - self.a * other.b, norm(other.a as int, other.b as int)),
    {
        let (a, b, c, d) = (self.a, self.b, other.a, other.b);
        proof {
            lemma_small_products(a as int, b as int, c as int, d as int);
            lemma_small_products(c as int, d as int, c as int, d as int);
            lemma_norm_positive(c as int, d as int);
        }
        let normsq = c * c - c * d + d * d;
        let x = a * c - a * d + b * d;
        let y = b * c - a * d;
        EisensteinInteger { a: round_ratio(x, normsq), b: round_ratio(y, normsq) }
    }

    /// A greatest common divisor by the Euclidean algorithm with rounded
    /// quotients: it divides both numbers, and every common divisor divides it.
    pub fn gcd(&self, other: &EisensteinInteger) -> (r: EisensteinInteger)
        requires
            norm(self.a as int, self.b as int) <= NORM_MAX,
            norm(other.a as int, other.b as int) <= NORM_MAX,
            !(self.a == 0 && self.b == 0),
            !(other.a == 0 && other.b == 0),
        ensures
            divides(coords(r), coords(*self)),
            divides(coords(r), coords(*other)),
            forall|g: (int, int)|
                divides(g, coords(*self)) && #[trigger] divides(g, coords(*other)) ==> divides(
                    g,
                    coords(r),
                ),
            norm(r.a as int, r.b as int) <= NORM_MAX,
            !(r.a == 0 && r.b == 0),
            coords(r) == euclid_gcd(coords(*self), coords(*other)),
        decreases norm(other.a as int, other.b as int), (if norm(self.a as int, self.b as int) < norm(
            other.a as int,
            other.b as int,
        ) {
            1int
        } else {
            0int
        }),
    {
        proof {
            lemma_norm_bounds_coords(self.a as int, self.b as int);
            lemma_norm_bounds_coords(other.a as int, other.b as int);
            lemma_norm_positive(self.a as int, self.b as int);
            lemma_norm_positive(other.a as int, other.b as int);
        }
        if self.norm_sq() < other.norm_sq() {
            return other.gcd(self);
        }
        proof {
            assert(norm(other.a as int, other.b as int) > 0);
        }
        let q = self.division(other);
        let (a, b, c, d) = (self.a as i128, self.b as i128, other.a as i128, other.b as i128);
        let (qa, qb) = (q.a as i128, q.b as i128);
        proof {
            let n = norm(c as int, d as int);
            lemma_round_div(a * c - a * d + b * d, n);
            lemma_round_div(b * c - a * d, n);
            lemma_remainder_norm(a as int, b as int, c as int, d as int, qa as int, qb as int);
            lemma_small_products(a as int, b as int, c as int, d as int);
            assert(-0x1_0000_0000_0000_0000 <= qa <= 0x1_0000_0000_0000_0000);
            assert(-0x1_0000_0000_0000_0000 <= qb <= 0x1_0000_0000_0000_0000);
            assert(-0x1_0000_0000_0000_0000_0000_0000 <= c * qa <= 0x1_0000_0000_0000_0000_0000_0000) by (nonlinear_arith)
                requires
                    -0x4000_0000 <= c <= 0x4000_0000,
                    -0x1_0000_0000_0000_0000 <= qa <= 0x1_0000_0000_0000_0000,
            ;
            assert(-0x1_0000_0000_0000_0000_0000_0000 <= d * qb <= 0x1_0000_0000_0000_0000_0000_0000) by (nonlinear_arith)
                requires
                    -0x4000_0000 <= d <= 0x4000_0000,
                    -0x1_0000_0000_0000_0000 <= qb <= 0x1_0000_0000_0000_0000,
            ;
            assert(-0x1_0000_0000_0000_0000_0000_0000 <= c * qb <= 0x1_0000_0000_0000_0000_0000_0000) by (nonlinear_arith)
                requires
                    -0x4000_0000 <= c <= 0x4000_0000,
                    -0x1_0000_0000_0000_0000 <= qb <= 0x1_0000_0000_0000_0000,
            ;
            assert(-0x1_0000_0000_0000_0000_0000_0000 <= d * qa <= 0x1_0000_0000_0000_0000_0000_0000) by (nonlinear_arith)
                requires
                    -0x4000_0000 <= d <= 0x4000_0000,
                    -0x1_0000_0000_0000_0000 <= qa <= 0x1_0000_0000_0000_0000,
            ;
        }
        let ra = a - (c * qa - d * qb);
        let rb = b - (c * qb + d * qa - d * qb);
        proof {
            lemma_norm_bounds_coords(ra as int, rb as int);
        }
        let remainder = EisensteinInteger { a: ra as i64, b: rb as i64 };
        proof {
            let x = coords(*self);
            let y = coords(*other);
            let rr = coords(remainder);
            assert(emul(y, coords(q)) == (c * qa - d * qb, c * qb + d * qa - d * qb));
            assert(x.0 == rr.0 + emul(y, coords(q)).0 && x.1 == rr.1 + emul(y, coords(q)).1);
            assert forall|g: (int, int)| true implies (divides(g, y) && divides(g, rr) ==> divides(g, x))
                && (divides(g, x) && divides(g, y) ==> divides(g, rr)) by {
                lemma_divisors_shift(x, y, rr, coords(q), g);
            }
            assert(emul(y, (1int, 0int)) == y);
            assert(divides(y, y));
        }
        if remainder.is_zero() {
            proof {
                let x = coords(*self);
                let y = coords(*other);
                assert(emul(y, coords(q)) == x);
                assert(coords(q) == rounded_quotient(x, y));
                assert(rounded_remainder(x, y) == (0int, 0int));
            }
            *other
        } else {
            proof {
                assert(remainder.a == ra && remainder.b == rb);
                assert(emul((c as int, d as int), (qa as int, qb as int)) == (c * qa - d * qb, c * qb + d * qa - d * qb));
                assert(norm(remainder.a as int, remainder.b as int) < norm(other.a as int, other.b as int));
                lemma_norm_positive(remainder.a as int, remainder.b as int);
                assert(coords(q) == rounded_quotient(coords(*self), coords(*other)));
                assert(coords(remainder) == rounded_remainder(coords(*self), coords(*other)));
            }
            other.gcd(&remainder)
        }
    }

    /// The image in `F_p` when `w` is sent to `w0`.
    pub fn image_at(&self, w0: i64, p: i64) -> (r: i64)
        requires
            0 < p <= MODULUS_MAX,
            0 <= w0 < p,
        ensures
            r == image(*self, w0 as int, p as int),
            0 <= r < p,
    {
        let a = match self.a.checked_rem_euclid(p) {
            Some(v) => v,
            None => 0,
        };
        let b = match self.b.checked_rem_euclid(p) {
            Some(v) => v,
            None => 0,
        };
        proof {
            assert(w0 * b < 0x4000_0000_0000_0000) by (nonlinear_arith)
                requires
                    0 <= w0 < p,
                    0 <= b < p,
                    p <= 2147483647,
            ;
            lemma_mul_mod_noop_right(w0 as int, self.b as int, p as int);
            lemma_add_mod_noop(self.a as int, w0 * self.b, p as int);
            lemma_mod_twice(w0 * b, p as int);
            lemma_mod_bound(w0 * b, p as int);
        }
        (a + (w0 * b) % p) % p
    }

    /// The images in `F_p` under the two maps `Z[w] -> F_p`; the second map
    /// sends `w` to the other root of `x^2 + x + 1`.
    pub fn reductions(&self, p: i64) -> (r: (i64, i64))
        requires
            usable_qw_prime(p as int),
        ensures
            omega_root(omega_first(p as int), p as int),
            r.0 == image(*self, omega_first(p as int), p as int),
            r.1 == image(*self, p - 1 - omega_first(p as int), p as int),
    {
        let (w1, w2) = omega_images(p);
        let r = (self.image_at(w1, p), self.image_at(w2, p));
        proof {
            assert(omega_root(w1 as int, p as int));
        }
        r
    }
}

proof fn lemma_small_products(a: int, b: int, c: int, d: int)
    requires
        -COORD_MAX <= a <= COORD_MAX,
        -COORD_MAX <= b <= COORD_MAX,
        -COORD_MAX <= c <= COORD_MAX,
        -COORD_MAX <= d <= COORD_MAX,
    ensures
        -0x1000_0000_0000_0000 <= a * c <= 0x1000_0000_0000_0000,
        -0x1000_0000_0000_0000 <= b * d <= 0x1000_0000_0000_0000,
        -0x1000_0000_0000_0000 <= a * d <= 0x1000_0000_0000_0000,
        -0x1000_0000_0000_0000 <= b * c <= 0x1000_0000_0000_0000,
        -0x1000_0000_0000_0000 <= a * b <= 0x1000_0000_0000_0000,
        -0x1000_0000_0000_0000 <= a * a <= 0x1000_0000_0000_0000,
        -0x1000_0000_0000_0000 <= b * b <= 0x1000_0000_0000_0000,
{
    assert(-0x1000_0000_0000_0000 <= a * c <= 0x1000_0000_0000_0000) by (nonlinear_arith)
        requires
            -0x4000_0000 <= a <= 0x4000_0000,
            -0x4000_0000 <= c <= 0x4000_0000,
    ;
    assert(-0x1000_0000_0000_0000 <= b * d <= 0x1000_0000_0000_0000) by (nonlinear_arith)
        requires
            -0x4000_0000 <= b <= 0x4000_0000,
            -0x4000_0000 <= d <= 0x4000_0000,
    ;
    assert(-0x1000_0000_0000_0000 <= a * d <= 0x1000_0000_0000_0000) by (nonlinear_arith)
        requires
            -0x4000_0000 <= a <= 0x4000_0000,
            -0x4000_0000 <= d <= 0x4000_0000,
    ;
    assert(-0x1000_0000_0000_0000 <= b * c <= 0x1000_0000_0000_0000) by (nonlinear_arith)
        requires
            -0x4000_0000 <= b <= 0x4000_0000,
            -0x4000_0000 <= c <= 0x4000_0000,
    ;
    assert(-0x1000_0000_0000_0000 <= a * b <= 0x1000_0000_0000_0000) by (nonlinear_arith)
        requires
            -0x4000_0000 <= a <= 0x4000_0000,
            -0x4000_0000 <= b <= 0x4000_0000,
    ;
    assert(-0x1000_0000_0000_0000 <= a * a <= 0x1000_0000_0000_0000) by (nonlinear_arith)
        requires
            -0x4000_0000 <= a <= 0x4000_0000,
    ;
    assert(-0x1000_0000_0000_0000 <= b * b <= 0x1000_0000_0000_0000) by (nonlinear_arith)
        requires
            -0x4000_0000 <= b <= 0x4000_0000,
    ;
}

/// An element of Q(w) as a fraction of Eisenstein integers.
#[derive(Debug, Copy, Clone, PartialEq, Eq, Structural)]
pub struct QwElement {
    pub numer: EisensteinInteger,
    pub denom: EisensteinInteger,
}

/// The image of `q` in `F_p` when `w` is sent to `w0`: `None` when the
/// denominator maps to zero.
pub open spec fn qw_image(q: QwElement, w0: int, p: int) -> Option<int> {
    if image(q.denom, w0, p) == 0 {
        None
    } else {
        Some(residue_of(image(q.numer, w0, p), image(q.denom, w0, p), p))
    }
}

/// An optional residue agrees with an optional integer.
pub open spec fn same_residue(o: Option<i64>, v: Option<int>) -> bool {
    match (o, v) {
        (Some(x), Some(y)) => x as int == y,
        (None, None) => true,
        _ => false,
    }
}

impl QwElement {
    pub fn new(numer: EisensteinInteger, denom: EisensteinInteger) -> (r: QwElement)
        ensures
            r.numer == numer,
            r.denom == denom,
    {
        QwElement { numer, denom }
    }

    pub fn one() -> (r: QwElement)
        ensures
            r.numer.a == 1 && r.numer.b == 0,
            r.denom.a == 1 && r.denom.b == 0,
    {
        QwElement::new(EisensteinInteger::one(), EisensteinInteger::one())
    }

    pub fn zero() -> (r: QwElement)
        ensures
            r.numer.a == 0 && r.numer.b == 0,
            r.denom.a == 1 && r.denom.b == 0,
    {
        QwElement::new(EisensteinInteger::zero(), EisensteinInteger::one())
    }

    /// The image in `F_p` when `w` is sent to `w0`.
    pub fn image_at(&self, w0: i64, p: i64) -> (r: Option<i64>)
        requires
            usable_prime(p as int),
            0 <= w0 < p,
        ensures
            same_residue(r, qw_image(*self, w0 as int, p as int)),
            r is Some ==> 0 <= r->0 < p,
    {
        let a = self.numer.image_at(w0, p);
        let b = self.denom.image_at(w0, p);
        if b == 0 {
            None
        } else {
            proof {
                lemma_small_mod(b as nat, p as nat);
            }
            Some(residue_fraction(a, b, p))
        }
    }

    /// The images in `F_p` under the two maps `Z[w] -> F_p`, each `None`
    /// where the denominator maps to zero (bad reduction for that map).
    pub fn reductions(&self, p: i64) -> (r: (Option<i64>, Option<i64>))
        requires
            usable_qw_prime(p as int),
        ensures
            omega_root(omega_first(p as int), p as int),
            same_residue(r.0, qw_image(*self, omega_first(p as int), p as int)),
            same_residue(r.1, qw_image(*self, p - 1 - omega_first(p as int), p as int)),
            r.0 is Some ==> 0 <= r.0->0 < p,
            r.1 is Some ==> 0 <= r.1->0 < p,
    {
        let (w1, w2) = omega_images(p);
        let r = (self.image_at(w1, p), self.image_at(w2, p));
        proof {
            assert(omega_root(w1 as int, p as int));
        }
        r
    }
}

/// Every denominator of `f` has a nonzero image when `w` is sent to `w0`.
pub open spec fn good_root(f: Seq<QwElement>, p: int, w0: int) -> bool {
    forall|i: int| 0 <= i < f.len() ==> #[trigger] image(f[i].denom, w0, p) != 0
}

/// The reduction of `f` to `F_p` when `w` is sent to `w0`.
pub open spec fn reduction_qw(f: Seq<QwElement>, p: int, w0: int) -> PolyModel {
    PolyModel {
        cs: Seq::new(
            f.len(),
            |i: int| residue_of(image(f[i].numer, w0, p), image(f[i].denom, w0, p), p),
        ),
        modulus: Some(p),
    }
}

/// `r` is the reduction of `f` when `w` is sent to `w0`, present exactly
/// when that reduction is good.
pub open spec fn is_reduction_qw(r: Option<Polynomial>, f: Seq<QwElement>, p: int, w0: int) -> bool {
    &&& (r is Some <==> good_root(f, p, w0))
    &&& r is Some ==> r->0.model() == reduction_qw(f, p, w0) && r->0.p_mod == Some(p as i64)
}

/// A polynomial with coefficients in Q(w), highest degree first.
pub struct PolynomialInQw {
    pub coeffs: Vec<QwElement>,
}

impl PolynomialInQw {
    pub fn from(coeffs: Vec<QwElement>) -> (r: PolynomialInQw)
        ensures
            r.coeffs@ == coeffs@,
    {
        PolynomialInQw { coeffs }
    }

    /// The reduction of every coefficient under one map `Z[w] -> F_p`.
    fn reduction_at(&self, w0: i64, p: i64) -> (r: Option<Polynomial>)
        requires
            usable_prime(p as int),
            0 <= w0 < p,
        ensures
            is_reduction_qw(r, self.coeffs@, p as int, w0 as int),
    {
        let mut cs: Vec<i64> = Vec::new();
        let ghost target = reduction_qw(self.coeffs@, p as int, w0 as int).cs;
        for i in 0..self.coeffs.len()
            invariant
                usable_prime(p as int),
                0 <= w0 < p,
                target == reduction_qw(self.coeffs@, p as int, w0 as int).cs,
                cs.len() == i,
                forall|j: int| 0 <= j < i ==> #[trigger] image(self.coeffs@[j].denom, w0 as int, p as int) != 0,
                forall|j: int| 0 <= j < i ==> #[trigger] cs@[j] == target[j],
        {
            match self.coeffs[i].image_at(w0, p) {
                Some(v) => cs.push(v),
                None => return None,
            }
        }
        let r = Polynomial::new(cs, Some(p));
        proof {
            assert(coeff_view(r.coeffs@) =~= target);
        }
        Some(r)
    }

    /// The reductions under the two maps `Z[w] -> F_p`, each `None` where
    /// some denominator maps to zero under that map.
    pub fn reductions(&self, p: i64) -> (r: (Option<Polynomial>, Option<Polynomial>))
        requires
            usable_qw_prime(p as int),
        ensures
            omega_root(omega_first(p as int), p as int),
            is_reduction_qw(r.0, self.coeffs@, p as int, omega_first(p as int)),
            is_reduction_qw(r.1, self.coeffs@, p as int, p - 1 - omega_first(p as int)),
    {
        let (w1, w2) = omega_images(p);
        let r = (self.reduction_at(w1, p), self.reduction_at(w2, p));
        proof {
            assert(omega_root(w1 as int, p as int));
        }
        r
    }
}

} // verus!
