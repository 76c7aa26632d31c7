//! Cycle lengths of a polynomial map on a prime field, found by a single
//! pass over its functional graph, with the correction for cycles that only
//! appear over extensions of the field.
use crate::modular::{multiplicative_order, usable_prime};
use crate::number_theory::order;
use crate::polynomial::{formal_derivative, horner, PolyModel, Polynomial};
use vstd::prelude::*;
use vstd::set_lib::*;
use std::collections::HashSet;

verus! {

/// `x` lies on a cycle of `f` of exact length `n`.
pub open spec fn is_cycle(f: PolyModel, x: int, n: int) -> bool {
    &&& n >= 1
    &&& f.orbit_point(x, n as nat) == x
    &&& forall|m: int| 0 < m < n ==> #[trigger] f.orbit_point(x, m as nat) != x
}

/// The multiplier of the cycle of length `n` through `x`: the product of the
/// derivative over the cycle, modulo the prime.
pub open spec fn cycle_multiplier(f: PolyModel, x: int, n: int) -> int {
    f.derivative_product(x, n as nat) % (f.modulus->0)
}

/// The cycle of length `n` through `x` leaves the length `k` possible: `k` is
/// the cycle's length; or, when the multiplier `m` is nonzero, the length
/// times the order `r` of `m`; or, for the primes 2 and 3, that times the prime.
pub open spec fn contributes(f: PolyModel, x: int, n: int, k: int) -> bool {
    let p = f.modulus->0;
    let m = cycle_multiplier(f, x, n);
    ||| k == n
    ||| m != 0 && k == n * order(m, p)
    ||| m != 0 && (p == 2 || p == 3) && k == n * order(m, p) * p
}

/// The lengths left possible by the cycles through the points of `seen`.
pub open spec fn periods_within(f: PolyModel, seen: Set<int>) -> Set<usize> {
    Set::new(
        |k: usize|
            exists|x: int, n: int|
                seen.contains(x) && #[trigger] is_cycle(f, x, n) && contributes(f, x, n, k as int),
    )
}

/// The candidate periods of `f` at its prime `p`: the lengths left possible by
/// all its cycles on the residues `0..p`.
pub open spec fn period_set(f: PolyModel) -> Set<usize> {
    periods_within(f, set_int_range(0, f.modulus->0))
}

/// The map sends points of `s` into `s`.
pub open spec fn forward_closed(f: PolyModel, s: Set<int>) -> bool {
    forall|y: int| #[trigger] s.contains(y) ==> s.contains(f.apply(y))
}

pub proof fn lemma_orbit_add(f: PolyModel, x: int, a: nat, b: nat)
    ensures
        f.orbit_point(f.orbit_point(x, a), b) == f.orbit_point(x, a + b),
    decreases b,
{
    if b > 0 {
        lemma_orbit_add(f, x, a, (b - 1) as nat);
        assert((a + b - 1) as nat == a + (b - 1) as nat);
    }
}

proof fn lemma_closed_orbit(f: PolyModel, s: Set<int>, y: int, k: nat)
    requires
        forward_closed(f, s),
        s.contains(y),
    ensures
        s.contains(f.orbit_point(y, k)),
    decreases k,
{
    if k > 0 {
        lemma_closed_orbit(f, s, y, (k - 1) as nat);
    }
}

/// A point outside a forward-closed set whose orbit enters the set before
/// returning to it lies on no cycle.
proof fn lemma_not_periodic(f: PolyModel, s: Set<int>, x: int, a: nat, n: int)
    requires
        forward_closed(f, s),
        !s.contains(x),
        s.contains(f.orbit_point(x, a)),
        forall|b: int| 0 < b <= a ==> #[trigger] f.orbit_point(x, b as nat) != x,
    ensures
        !is_cycle(f, x, n),
{
    if is_cycle(f, x, n) && n > a {
        lemma_closed_orbit(f, s, f.orbit_point(x, a), (n - a) as nat);
        lemma_orbit_add(f, x, a, (n - a) as nat);
        assert(a + (n - a) as nat == n as nat);
    }
}

/// A point has at most one exact cycle length.
proof fn lemma_cycle_unique(f: PolyModel, x: int, n1: int, n2: int)
    requires
        is_cycle(f, x, n1),
        is_cycle(f, x, n2),
    ensures
        n1 == n2,
{
    if n1 < n2 {
        assert(f.orbit_point(x, n1 as nat) != x);
    } else if n2 < n1 {
        assert(f.orbit_point(x, n2 as nat) != x);
    }
}

/// Splitting off the first factor of a derivative product.
proof fn lemma_product_head(f: PolyModel, z: int, k: nat)
    ensures
        f.derivative_product(z, k + 1) == horner(formal_derivative(f.cs), z) * f.derivative_product(
            f.orbit_point(z, 1),
            k,
        ),
    decreases k,
{
    let h = |y: int| horner(formal_derivative(f.cs), y);
    let z1 = f.orbit_point(z, 1);
    if k == 0 {
        assert(f.orbit_point(z, 0) == z);
        assert(f.derivative_product(z, 0) == 1);
        assert(f.derivative_product(z1, 0) == 1);
        assert(f.derivative_product(z, 1) == f.derivative_product(z, 0) * h(f.orbit_point(z, 0)));
    } else {
        lemma_product_head(f, z, (k - 1) as nat);
        assert((k - 1) as nat + 1 == k);
        lemma_orbit_add(f, z, 1, (k - 1) as nat);
        assert(1 + (k - 1) as nat == k);
        let a = h(z);
        let b = f.derivative_product(z1, (k - 1) as nat);
        let c = h(f.orbit_point(z, k));
        assert(f.derivative_product(z, k + 1) == f.derivative_product(z, k) * c);
        assert(f.derivative_product(z1, k) == b * c);
        assert(f.derivative_product(z, k) == a * b);
        assert(f.orbit_point(z1, (k - 1) as nat) == f.orbit_point(z, k));
        assert((a * b) * c == a * (b * c)) by (nonlinear_arith);
    }
}

/// Moving one step along a cycle does not change its derivative product.
proof fn lemma_product_rotate(f: PolyModel, z: int, n: nat)
    requires
        n >= 1,
        f.orbit_point(z, n) == z,
    ensures
        f.derivative_product(f.orbit_point(z, 1), n) == f.derivative_product(z, n),
{
    let hz = horner(formal_derivative(f.cs), z);
    let z1 = f.orbit_point(z, 1);
    lemma_product_head(f, z, n);
    lemma_product_head(f, z, (n - 1) as nat);
    assert((n - 1) as nat + 1 == n);
    lemma_orbit_add(f, z, 1, (n - 1) as nat);
    assert(1 + (n - 1) as nat == n);
    let a = f.derivative_product(z, n);
    let b = f.derivative_product(z1, n);
    // both equal the product over n + 1 steps, up to the factor hz
    assert(f.derivative_product(z, n + 1) == a * hz);
    assert(hz * b == a * hz);
    if hz == 0 {
        assert(a == hz * f.derivative_product(z1, (n - 1) as nat));
        assert(a == 0) by (nonlinear_arith)
            requires
                a == hz * f.derivative_product(z1, (n - 1) as nat),
                hz == 0,
        ;
        assert(b == f.derivative_product(z1, (n - 1) as nat) * horner(
            formal_derivative(f.cs),
            f.orbit_point(z1, (n - 1) as nat),
        ));
        assert(b == 0) by (nonlinear_arith)
            requires
                b == f.derivative_product(z1, (n - 1) as nat) * horner(
                    formal_derivative(f.cs),
                    f.orbit_point(z1, (n - 1) as nat),
                ),
                horner(formal_derivative(f.cs), f.orbit_point(z1, (n - 1) as nat)) == hz,
                hz == 0,
        ;
    } else {
        assert(b == a) by (nonlinear_arith)
            requires
                hz * b == a * hz,
                hz != 0,
        ;
    }
}

/// Every point of a cycle has the same exact length and multiplier.
proof fn lemma_cycle_point(f: PolyModel, x: int, n: int, t: nat)
    requires
        is_cycle(f, x, n),
        t < n,
    ensures
        is_cycle(f, f.orbit_point(x, t), n),
        f.derivative_product(f.orbit_point(x, t), n as nat) == f.derivative_product(x, n as nat),
    decreases t,
{
    let y = f.orbit_point(x, t);
    lemma_orbit_add(f, x, t, n as nat);
    lemma_orbit_add(f, x, n as nat, t);
    assert forall|m: int| 0 < m < n implies #[trigger] f.orbit_point(y, m as nat) != y by {
        if f.orbit_point(y, m as nat) == y {
            lemma_orbit_add(f, x, t, m as nat);
            lemma_orbit_add(f, x, (t + m) as nat, (n - t) as nat);
            lemma_orbit_add(f, x, t, (n - t) as nat);
            assert((t + (n - t)) as nat == n as nat);
            assert((t + m) as nat + (n - t) as nat == (n + m) as nat);
            lemma_orbit_add(f, x, n as nat, m as nat);
        }
    }
    if t > 0 {
        let t1 = (t - 1) as nat;
        lemma_cycle_point(f, x, n, t1);
        let y1 = f.orbit_point(x, t1);
        lemma_product_rotate(f, y1, n as nat);
        lemma_orbit_add(f, x, t1, 1);
    }
}

/// `path` lists the first orbit points of `s`, all distinct and outside `seen`.
pub open spec fn fresh_walk(f: PolyModel, seen: Set<int>, s: int, path: Seq<int>) -> bool {
    &&& forall|i: int| 0 <= i < path.len() ==> #[trigger] path[i] == f.orbit_point(s, i as nat)
    &&& forall|i: int| 0 <= i < path.len() ==> !seen.contains(#[trigger] path[i])
    &&& forall|i: int, j: int| 0 <= i < j < path.len() ==> #[trigger] path[i] != #[trigger] path[j]
}

proof fn lemma_walk_step(f: PolyModel, s: int, path: Seq<int>, i: int, b: int)
    requires
        forall|q: int| 0 <= q < path.len() ==> #[trigger] path[q] == f.orbit_point(s, q as nat),
        0 <= i,
        0 <= b,
        i + b < path.len(),
    ensures
        f.orbit_point(path[i], b as nat) == path[i + b],
{
    lemma_orbit_add(f, s, i as nat, b as nat);
    assert(i as nat + b as nat == (i + b) as nat);
}

/// The set `seen` together with the points of `path`, after a walk whose
/// last step lands at `f.orbit_point(s, path.len())`, is forward closed.
proof fn lemma_walk_closed(f: PolyModel, seen: Set<int>, s: int, path: Seq<int>)
    requires
        forward_closed(f, seen),
        fresh_walk(f, seen, s, path),
        path.len() >= 1,
        seen.contains(f.orbit_point(s, path.len())) || exists|j: int|
            0 <= j < path.len() && #[trigger] path[j] == f.orbit_point(s, path.len()),
    ensures
        forward_closed(f, seen + path.to_set()),
{
    let u = seen + path.to_set();
    assert forall|y: int| #[trigger] u.contains(y) implies u.contains(f.apply(y)) by {
        if !seen.contains(y) {
            let i = choose|i: int| 0 <= i < path.len() && path[i] == y;
            assert(f.orbit_point(s, (i + 1) as nat) == f.apply(f.orbit_point(s, i as nat)));
            if i + 1 < path.len() {
                assert(path[i + 1] == f.apply(y));
                assert(path.to_set().contains(path[i + 1]));
            } else {
                assert((i + 1) as nat == path.len());
                if !seen.contains(f.orbit_point(s, path.len())) {
                    let j = choose|j: int| 0 <= j < path.len() && #[trigger] path[j] == f.orbit_point(s, path.len());
                    assert(path.to_set().contains(path[j]));
                }
            }
        }
    }
}

/// A walk that ends in already seen points closes no new cycle.
pub proof fn lemma_walk_joins(f: PolyModel, seen: Set<int>, s: int, path: Seq<int>)
    requires
        forward_closed(f, seen),
        fresh_walk(f, seen, s, path),
        path.len() >= 1,
        seen.contains(f.orbit_point(s, path.len())),
    ensures
        periods_within(f, seen + path.to_set()) == periods_within(f, seen),
        forward_closed(f, seen + path.to_set()),
{
    let m = path.len() as int;
    lemma_walk_closed(f, seen, s, path);
    assert forall|i: int, n: int| 0 <= i < m implies !#[trigger] is_cycle(f, path[i], n) by {
        let x = path[i];
        lemma_orbit_add(f, s, i as nat, (m - i) as nat);
        assert(i as nat + (m - i) as nat == m as nat);
        assert forall|b: int| 0 < b <= m - i implies #[trigger] f.orbit_point(x, b as nat) != x by {
            if b < m - i {
                lemma_walk_step(f, s, path, i, b);
            }
        }
        lemma_not_periodic(f, seen, x, (m - i) as nat, n);
    }
    let u = seen + path.to_set();
    assert forall|k: usize| #[trigger] periods_within(f, u).contains(k) implies periods_within(
        f,
        seen,
    ).contains(k) by {
        let (x, n) = choose|x: int, n: int|
            u.contains(x) && #[trigger] is_cycle(f, x, n) && contributes(f, x, n, k as int);
        if !seen.contains(x) {
            let i = choose|i: int| 0 <= i < path.len() && path[i] == x;
            assert(!is_cycle(f, path[i], n));
        }
    }
    assert(periods_within(f, u) =~= periods_within(f, seen));
}

/// A walk that runs into one of its own points closes exactly one new cycle,
/// through that point.
pub proof fn lemma_walk_cycle(f: PolyModel, seen: Set<int>, s: int, path: Seq<int>, j: int)
    requires
        forward_closed(f, seen),
        fresh_walk(f, seen, s, path),
        0 <= j < path.len(),
        f.orbit_point(s, path.len()) == path[j],
    ensures
        is_cycle(f, path[j], path.len() - j),
        periods_within(f, seen + path.to_set()) == periods_within(f, seen) + Set::new(
            |k: usize| contributes(f, path[j], path.len() - j, k as int),
        ),
        forward_closed(f, seen + path.to_set()),
{
    let m = path.len() as int;
    let pj = path[j];
    let n = m - j;
    lemma_walk_closed(f, seen, s, path);
    lemma_orbit_add(f, s, j as nat, n as nat);
    assert(j as nat + n as nat == m as nat);
    assert forall|t: int| 0 < t < n implies #[trigger] f.orbit_point(pj, t as nat) != pj by {
        lemma_walk_step(f, s, path, j, t);
    }
    assert(is_cycle(f, pj, n));
    // the cycle's points
    let c = Set::new(|y: int| exists|q: int| j <= q < m && #[trigger] path[q] == y);
    assert forall|y: int| #[trigger] c.contains(y) implies c.contains(f.apply(y)) by {
        let q = choose|q: int| j <= q < m && #[trigger] path[q] == y;
        assert(f.orbit_point(s, (q + 1) as nat) == f.apply(f.orbit_point(s, q as nat)));
        if q + 1 < m {
            assert(path[q + 1] == f.apply(y));
        } else {
            assert((q + 1) as nat == m as nat);
            assert(path[j] == f.apply(y));
        }
    }
    // the points before the cycle are on no cycle
    assert forall|i: int, n2: int| 0 <= i < j implies !#[trigger] is_cycle(f, path[i], n2) by {
        let x = path[i];
        lemma_walk_step(f, s, path, i, j - i);
        assert(c.contains(path[j]));
        assert forall|b: int| 0 < b <= j - i implies #[trigger] f.orbit_point(x, b as nat) != x by {
            lemma_walk_step(f, s, path, i, b);
        }
        if c.contains(x) {
            let q = choose|q: int| j <= q < m && #[trigger] path[q] == x;
        }
        lemma_not_periodic(f, c, x, (j - i) as nat, n2);
    }
    // the points of the cycle all share its length and multiplier
    assert forall|i: int, n2: int, k: int|
        j <= i < m && #[trigger] is_cycle(f, path[i], n2) && #[trigger] contributes(f, path[i], n2, k) implies n2
        == n && contributes(f, pj, n, k) by {
        lemma_walk_step(f, s, path, j, i - j);
        lemma_cycle_point(f, pj, n, (i - j) as nat);
        lemma_cycle_unique(f, path[i], n2, n);
    }
    let u = seen + path.to_set();
    let newset = Set::new(|k: usize| contributes(f, pj, n, k as int));
    assert forall|k: usize| #[trigger] periods_within(f, u).contains(k) implies (periods_within(
        f,
        seen,
    ) + newset).contains(k) by {
        let (x, n2) = choose|x: int, n2: int|
            u.contains(x) && #[trigger] is_cycle(f, x, n2) && contributes(f, x, n2, k as int);
        if !seen.contains(x) {
            let i = choose|i: int| 0 <= i < path.len() && path[i] == x;
            if i < j {
                assert(!is_cycle(f, path[i], n2));
            } else {
                assert(contributes(f, pj, n, k as int));
            }
        }
    }
    assert forall|k: usize| #[trigger] (periods_within(f, seen) + newset).contains(k) implies periods_within(
        f,
        u,
    ).contains(k) by {
        if newset.contains(k) {
            assert(path.to_set().contains(pj));
            assert(u.contains(pj) && is_cycle(f, pj, n) && contributes(f, pj, n, k as int));
        }
    }
    assert(periods_within(f, u) =~= periods_within(f, seen) + newset);
}

/// A list of distinct visit positions, each naming a residue below `p`, has
/// fewer than `p` entries when some residue is missing from it.
proof fn lemma_walk_bound(order: Seq<int>, p: int, x: int)
    requires
        order.no_duplicates(),
        forall|i: int| 0 <= i < order.len() ==> 0 <= #[trigger] order[i] < p,
        0 <= x < p,
        !order.contains(x),
    ensures
        order.len() < p,
{
    order.unique_seq_to_set();
    let r = set_int_range(0, p).remove(x);
    lemma_int_range(0, p);
    assert(order.to_set().subset_of(r));
    lemma_len_subset(order.to_set(), r);
}

/// Adds `k` to a list of distinct values unless it is already there.
fn insert_unique(v: &mut Vec<usize>, k: usize)
    requires
        old(v)@.no_duplicates(),
    ensures
        final(v)@.no_duplicates(),
        final(v)@.to_set() == old(v)@.to_set().insert(k),
{
    let mut i: usize = 0;
    while i < v.len()
        invariant
            v@ == old(v)@,
            old(v)@.no_duplicates(),
            0 <= i <= v.len(),
            forall|j: int| 0 <= j < i ==> #[trigger] v@[j] != k,
        decreases v.len() - i,
    {
        if v[i] == k {
            proof {
                assert(v@.to_set().contains(k));
                assert(v@.to_set().insert(k) =~= v@.to_set());
            }
            return;
        }
        i = i + 1;
    }
    proof {
        v@.lemma_push_to_set_commute(k);
    }
    v.push(k);
}

/// One pass over the functional graph of `f` on the residues modulo its
/// prime: every residue is visited exactly once, and each walk from an
/// unvisited residue that closes a new cycle records the cycle's length
/// and the lengths its multiplier adds. Returns the visit table, giving for
/// each residue its image and its position in the visiting order, and the
/// recorded lengths.
#[verifier::rlimit(60)]
#[verifier::spinoff_prover]
pub fn cycle_walk(f: &Polynomial) -> (r: (Vec<(usize, usize)>, Vec<usize>))
    requires
        f.p_mod is Some,
        usable_prime(f.p_mod->0 as int),
        f.p_mod->0 * f.p_mod->0 <= usize::MAX,
    ensures
        r.0.len() == f.p_mod->0,
        forall|x: int|
            0 <= x < r.0.len() ==> 1 <= #[trigger] r.0@[x].1 <= f.p_mod->0 && r.0@[x].0 == f.model().apply(x),
        forall|x: int, y: int|
            0 <= x < r.0.len() && 0 <= y < r.0.len() && x != y ==> #[trigger] r.0@[x].1
                != #[trigger] r.0@[y].1,
        r.1@.no_duplicates(),
        r.1@.to_set() == period_set(f.model()),
{
    let p: i64 = match f.p_mod {
        Some(p) => p,
        None => 2,
    };
    let pu = p as usize;
    let mut table: Vec<(usize, usize)> = Vec::new();
    for i in 0..pu
        invariant
            table.len() == i,
            forall|x: int| 0 <= x < i ==> #[trigger] table@[x].1 == 0,
    {
        table.push((0, 0));
    }
    let mut index: usize = 1;
    let mut periods: Vec<usize> = Vec::new();
    let ghost mut order: Seq<int> = Seq::empty();
    let ghost mut seen: Set<int> = Set::empty();
    proof {
        assert(periods@.to_set() =~= periods_within(f.model(), seen));
    }
    for s in 0..pu
        invariant
            f.p_mod == Some(p),
            pu == p,
            usable_prime(p as int),
            p * p <= usize::MAX,
            table.len() == pu,
            index == order.len() + 1,
            order.len() <= pu,
            forall|i: int| 0 <= i < order.len() ==> 0 <= #[trigger] order[i] < p && table@[order[i]].1 == i + 1,
            forall|x: int|
                0 <= x < pu && #[trigger] table@[x].1 != 0 ==> 1 <= table@[x].1 <= order.len()
                    && order[table@[x].1 - 1] == x && table@[x].0 == f.model().apply(x),
            forall|x: int| #[trigger] seen.contains(x) <==> 0 <= x < pu && table@[x].1 != 0,
            forall|x: int| 0 <= x < s ==> #[trigger] seen.contains(x),
            forward_closed(f.model(), seen),
            periods@.no_duplicates(),
            periods@.to_set() == periods_within(f.model(), seen),
    {
        if table[s].1 == 0 {
            let startindex = index;
            let ghost order0 = order;
            let ghost seen0 = seen;
            let ghost mut path: Seq<int> = Seq::empty();
            let mut cur: usize = s;
            proof {
                assert(f.model().orbit_point(s as int, 0) == s);
            }
            while table[cur].1 == 0
                invariant
                    f.p_mod == Some(p),
                    pu == p,
                    usable_prime(p as int),
                    p * p <= usize::MAX,
                    table.len() == pu,
                    startindex == order0.len() + 1,
                    order == order0 + path,
                    index == order.len() + 1,
                    order.len() <= pu,
                    0 <= cur < pu,
                    cur == f.model().orbit_point(s as int, path.len()),
                    path.len() == 0 ==> table@[cur as int].1 == 0,
                    fresh_walk(f.model(), seen0, s as int, path),
                    forall|i: int| 0 <= i < order.len() ==> 0 <= #[trigger] order[i] < p && table@[order[i]].1 == i + 1,
                    forall|x: int|
                        0 <= x < pu && #[trigger] table@[x].1 != 0 ==> 1 <= table@[x].1 <= order.len()
                            && order[table@[x].1 - 1] == x && table@[x].0 == f.model().apply(x),
                    forall|x: int| #[trigger] seen.contains(x) <==> 0 <= x < pu && table@[x].1 != 0,
                    seen == seen0 + path.to_set(),
                    forall|x: int| #[trigger] seen0.contains(x) ==> 0 <= x < pu && table@[x].1 != 0,
                    forall|x: int| 0 <= x < s ==> #[trigger] seen0.contains(x),
                    forward_closed(f.model(), seen0),
                    periods@.no_duplicates(),
                    periods@.to_set() == periods_within(f.model(), seen0),
                decreases pu + 1 - index,
            {
                proof {
                    assert(order.no_duplicates()) by {
                        assert forall|i: int, j: int| 0 <= i < order.len() && 0 <= j < order.len() && i != j implies order[i] != order[j] by {
                            assert(table@[order[i]].1 == i + 1);
                            assert(table@[order[j]].1 == j + 1);
                        }
                    }
                    if order.contains(cur as int) {
                        let i = choose|i: int| 0 <= i < order.len() && order[i] == cur;
                        assert(table@[order[i]].1 == i + 1);
                    }
                    lemma_walk_bound(order, p as int, cur as int);
                    vstd::arithmetic::div_mod::lemma_mod_bound(horner(f.cs(), cur as int), p as int);
                }
                let q = f.eval(cur as i64) as usize;
                table.set(cur, (q, index));
                proof {
                    assert(!seen0.contains(cur as int));
                    assert forall|i: int| 0 <= i < path.len() implies path[i] != cur by {
                        assert(order[order0.len() + i] == path[i]);
                        assert(table@[path[i]].1 != 0);
                    }
                    let old_path = path;
                    path = path.push(cur as int);
                    order = order.push(cur as int);
                    seen = seen.insert(cur as int);
                    old_path.lemma_push_to_set_commute(cur as int);
                    assert(order == order0 + path);
                    assert(f.model().orbit_point(s as int, path.len()) == f.model().apply(cur as int));
                }
                cur = q;
                index = index + 1;
            }
            let v = table[cur].1;
            proof {
                assert(path.len() >= 1);
                assert(path.len() == order.len() - order0.len());
            }
            if v >= startindex {
                let period = index - v;
                let ghost j = v - startindex;
                proof {
                    assert(order[v - 1] == cur);
                    assert(order[order0.len() + j] == path[j]);
                    assert(path[j] == cur);
                    lemma_walk_cycle(f.model(), seen0, s as int, path, j);
                    assert(period == path.len() - j);
                    assert(period <= p);
                }
                insert_unique(&mut periods, period);
                let mult = f.multiplier(period, cur as i64);
                let ghost newset = Set::new(|k: usize| contributes(f.model(), cur as int, period as int, k as int));
                if mult != 0 {
                    proof {
                        vstd::arithmetic::div_mod::lemma_small_mod(mult as nat, p as nat);
                    }
                    let r = multiplicative_order(mult, p) as usize;
                    proof {
                        crate::number_theory::lemma_order_exists(mult as int, p as int);
                        assert(period * r <= p * p) by (nonlinear_arith)
                            requires
                                1 <= period <= p,
                                1 <= r < p,
                        ;
                    }
                    insert_unique(&mut periods, period * r);
                    if p == 2 || p == 3 {
                        proof {
                            assert(period * r * pu <= 27) by (nonlinear_arith)
                                requires
                                    1 <= period <= p,
                                    1 <= r < p,
                                    pu == p,
                                    p <= 3,
                            ;
                        }
                        insert_unique(&mut periods, period * r * pu);
                        proof {
                            assert(newset =~= set![period, (period * r) as usize, (period * r * pu) as usize]);
                        }
                    } else {
                        proof {
                            assert(newset =~= set![period, (period * r) as usize]);
                        }
                    }
                } else {
                    proof {
                        assert(newset =~= set![period]);
                    }
                }
                proof {
                    assert(periods@.to_set() =~= periods_within(f.model(), seen0) + newset);
                }
            } else {
                proof {
                    assert(order[v - 1] == cur);
                    assert(order0[v - 1] == cur);
                    assert(table@[order0[v - 1]].1 != 0);
                    lemma_walk_joins(f.model(), seen0, s as int, path);
                }
            }
            proof {
                assert(path[0] == s);
                assert(path.to_set().contains(path[0]));
            }
        }
    }
    proof {
        assert(seen =~= set_int_range(0, p as int));
        assert forall|x: int, y: int|
            0 <= x < table.len() && 0 <= y < table.len() && x != y implies #[trigger] table@[x].1
            != #[trigger] table@[y].1 by {
            assert(seen.contains(x) && seen.contains(y));
        }
        assert forall|x: int| 0 <= x < table.len() implies 1 <= #[trigger] table@[x].1 <= p && table@[x].0 == f.model().apply(x) by {
            assert(seen.contains(x));
        }
    }
    (table, periods)
}

/// The candidate periods of the prime-field polynomial `f` (see `period_set`).
pub fn fast_possible_periods(f: Polynomial) -> (r: HashSet<usize>)
    requires
        f.p_mod is Some,
        usable_prime(f.p_mod->0 as int),
        f.p_mod->0 * f.p_mod->0 <= usize::MAX,
    ensures
        r@ == period_set(f.model()),
{
    let (_, periods) = cycle_walk(&f);
    let mut set: HashSet<usize> = HashSet::new();
    for i in 0..periods.len()
        invariant
            set@ == periods@.take(i as int).to_set(),
    {
        proof {
            assert(periods@.take(i + 1) == periods@.take(i as int).push(periods@[i as int]));
            periods@.take(i as int).lemma_push_to_set_commute(periods@[i as int]);
        }
        set.insert(periods[i]);
    }
    proof {
        assert(periods@.take(periods.len() as int) =~= periods@);
    }
    set
}

} // verus!
