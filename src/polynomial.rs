//! Integer polynomials, optionally reduced modulo a prime, read as maps of
//! the integers (or of the residues modulo the prime) to themselves.
use crate::modular::MODULUS_MAX;
use vstd::arithmetic::div_mod::*;
use vstd::arithmetic::mul::*;
use vstd::prelude::*;

verus! {

/// Value at `x` of the polynomial with coefficients `cs`, highest degree first.
pub open spec fn horner(cs: Seq<int>, x: int) -> int
    decreases cs.len(),
{
    if cs.len() == 0 {
        0
    } else {
        horner(cs.drop_last(), x) * x + cs.last()
    }
}

/// The coefficients of a vector as integers.
pub open spec fn coeff_view(v: Seq<i64>) -> Seq<int> {
    v.map_values(|c: i64| c as int)
}

/// The formal derivative, highest degree first.
pub open spec fn formal_derivative(cs: Seq<int>) -> Seq<int> {
    if cs.len() == 0 {
        Seq::empty()
    } else {
        Seq::new((cs.len() - 1) as nat, |j: int| cs[j] * (cs.len() - 1 - j))
    }
}

/// Every intermediate value of Horner's rule on `cs` at `x` fits in an `i64`.
pub open spec fn horner_fits(cs: Seq<int>, x: int) -> bool {
    forall|i: int|
        0 <= i < cs.len() ==> {
            &&& i64::MIN <= #[trigger] horner(cs.take(i), x) * x <= i64::MAX
            &&& i64::MIN <= horner(cs.take(i + 1), x) <= i64::MAX
        }
}

/// A polynomial with integer coefficients, highest degree first, and an
/// optional prime modulus under which it is evaluated.
#[derive(Debug)]
pub struct Polynomial {
    pub coeffs: Vec<i64>,
    pub p_mod: Option<i64>,
}

/// The mathematical content of a polynomial: its coefficients, highest
/// degree first, and its modulus, if any.
pub struct PolyModel {
    pub cs: Seq<int>,
    pub modulus: Option<int>,
}

impl PolyModel {
    /// The value of the map at `x`: reduced into `[0, p)` when there is a modulus.
    pub open spec fn apply(self, x: int) -> int {
        match self.modulus {
            Some(p) => horner(self.cs, x) % p,
            None => horner(self.cs, x),
        }
    }

    /// The `k`-th point of the orbit of `x` under the map.
    pub open spec fn orbit_point(self, x: int, k: nat) -> int
        decreases k,
    {
        if k == 0 {
            x
        } else {
            self.apply(self.orbit_point(x, (k - 1) as nat))
        }
    }

    /// Product of the derivative's values over the first `k` orbit points of `x`.
    pub open spec fn derivative_product(self, x: int, k: nat) -> int
        decreases k,
    {
        if k == 0 {
            1
        } else {
            self.derivative_product(x, (k - 1) as nat) * horner(
                formal_derivative(self.cs),
                self.orbit_point(x, (k - 1) as nat),
            )
        }
    }
}

impl Polynomial {
    /// The mathematical content of this polynomial.
    pub open spec fn model(&self) -> PolyModel {
        PolyModel {
            cs: coeff_view(self.coeffs@),
            modulus: match self.p_mod {
                Some(p) => Some(p as int),
                None => None,
            },
        }
    }

    /// The coefficients as integers.
    pub open spec fn cs(&self) -> Seq<int> {
        coeff_view(self.coeffs@)
    }

    /// `eval` can compute the value at `x` without overflow.
    pub open spec fn can_eval(&self, x: int) -> bool {
        match self.p_mod {
            Some(p) => 0 < p <= MODULUS_MAX,
            None => horner_fits(self.cs(), x),
        }
    }

    pub fn new(v: Vec<i64>, p_mod: Option<i64>) -> (r: Polynomial)
        ensures
            r.coeffs@ == v@,
            r.p_mod == p_mod,
    {
        Polynomial { coeffs: v, p_mod: p_mod }
    }

    /// The value of the polynomial at `x`, reduced into `[0, p)` when it has a
    /// modulus `p`.
    pub fn eval(&self, x: i64) -> (r: i64)
        requires
            self.can_eval(x as int),
        ensures
            r == self.model().apply(x as int),
    {
        let ghost cs = self.cs();
        let e = self.coeffs.len();
        let mut res: i64 = 0;
        match self.p_mod {
            Some(p) => {
                let xr = reduce(x, p);
                proof {
                    assert(cs.take(0) =~= Seq::<int>::empty());
                    lemma_small_mod(0, p as nat);
                }
                for i in 0..e
                    invariant
                        e == self.coeffs.len(),
                        cs == self.cs(),
                        0 < p <= MODULUS_MAX,
                        xr == x as int % p as int,
                        0 <= res < p,
                        res == horner(cs.take(i as int), x as int) % p as int,
                {
                    let c = reduce(self.coeffs[i], p);
                    proof {
                        let h = horner(cs.take(i as int), x as int);
                        assert(cs.take(i + 1).drop_last() =~= cs.take(i as int));
                        assert(cs.take(i + 1).last() == self.coeffs@[i as int]);
                        lemma_horner_step_mod(h, x as int, self.coeffs@[i as int] as int, p as int);
                        assert(res * xr < 0x4000_0000_0000_0000) by (nonlinear_arith)
                            requires
                                0 <= res < p,
                                0 <= xr < p,
                                p <= 2147483647,
                        ;
                        lemma_mod_bound(res * xr, p as int);
                    }
                    res = ((res * xr) % p + c) % p;
                }
                proof {
                    assert(cs.take(e as int) =~= cs);
                }
                res
            },
            None => {
                proof {
                    assert(cs.take(0) =~= Seq::<int>::empty());
                }
                for i in 0..e
                    invariant
                        e == self.coeffs.len(),
                        cs == self.cs(),
                        self.p_mod is None,
                        horner_fits(cs, x as int),
                        res == horner(cs.take(i as int), x as int),
                {
                    proof {
                        assert(cs.take(i + 1).drop_last() =~= cs.take(i as int));
                        assert(cs.take(i + 1).last() == self.coeffs@[i as int]);
                        assert(i64::MIN <= horner(cs.take(i as int), x as int) * x <= i64::MAX);
                    }
                    res = res * x + self.coeffs[i];
                }
                proof {
                    assert(cs.take(e as int) =~= cs);
                }
                res
            },
        }
    }

    /// The formal derivative; with a modulus `p`, its coefficients are reduced
    /// into `[0, p)`.
    pub fn derivative(&self) -> (r: Polynomial)
        requires
            match self.p_mod {
                Some(p) => 0 < p <= MODULUS_MAX,
                None => forall|j: int|
                    0 <= j < formal_derivative(self.cs()).len() ==> i64::MIN <= #[trigger] formal_derivative(
                        self.cs(),
                    )[j] <= i64::MAX,
            },
        ensures
            r.p_mod == self.p_mod,
            r.coeffs.len() == formal_derivative(self.cs()).len(),
            forall|j: int|
                0 <= j < r.coeffs.len() ==> #[trigger] r.coeffs@[j] == match self.p_mod {
                    Some(p) => formal_derivative(self.cs())[j] % (p as int),
                    None => formal_derivative(self.cs())[j],
                },
    {
        let l = self.coeffs.len();
        let ghost d = formal_derivative(self.cs());
        let mut v: Vec<i64> = Vec::new();
        if l == 0 {
            return Polynomial::new(v, self.p_mod);
        }
        for i in 1..l
            invariant
                l == self.coeffs.len(),
                l >= 1,
                d == formal_derivative(self.cs()),
                d.len() == l - 1,
                v.len() == i - 1,
                match self.p_mod {
                    Some(p) => 0 < p <= MODULUS_MAX,
                    None => forall|j: int| 0 <= j < d.len() ==> i64::MIN <= #[trigger] d[j] <= i64::MAX,
                },
                forall|j: int|
                    0 <= j < v.len() ==> #[trigger] v@[j] == match self.p_mod {
                        Some(p) => d[j] % (p as int),
                        None => d[j],
                    },
        {
            let c = self.coeffs[i - 1];
            let k = l - i;
            proof {
                assert(d[i - 1] == c * k);
            }
            match self.p_mod {
                Some(p) => {
                    let cr = reduce(c, p);
                    let kr = (k % (p as usize)) as i64;
                    proof {
                        assert(cr * kr < 0x4000_0000_0000_0000) by (nonlinear_arith)
                            requires
                                0 <= cr < p,
                                0 <= kr < p,
                                p <= 2147483647,
                        ;
                        lemma_mul_mod_noop(c as int, k as int, p as int);
                        assert(kr == k as int % p as int);
                        assert((cr * kr) % p as int == d[i - 1] % (p as int));
                    }
                    v.push((cr * kr) % p);
                },
                None => {
                    proof {
                        assert(i64::MIN <= d[i - 1] <= i64::MAX);
                    }
                    proof {
                        assert((c as i128) * (k as i128) == c * k);
                        assert(c * k <= 0x7fff_ffff_ffff_ffff_ffff_ffff_ffff_ffff) by (nonlinear_arith)
                            requires
                                i64::MIN <= c * k <= i64::MAX,
                        ;
                    }
                    v.push(((c as i128) * (k as i128)) as i64);
                },
            }
        }
        Polynomial::new(v, self.p_mod)
    }

    /// The first `n` points of the orbit of `x`: `x`, `f(x)`, `f(f(x))`, ...
    pub fn n_orbit(&self, x: i64, n: usize) -> (r: Vec<i64>)
        requires
            n >= 1,
            forall|k: nat|
                k + 1 < n ==> #[trigger] self.can_eval(self.model().orbit_point(x as int, k)) && i64::MIN
                    <= self.model().orbit_point(x as int, k) <= i64::MAX,
        ensures
            r.len() == n,
            forall|k: int| 0 <= k < n ==> #[trigger] r@[k] == self.model().orbit_point(x as int, k as nat),
    {
        let mut res: Vec<i64> = Vec::new();
        let mut curr = x;
        res.push(curr);
        for i in 0..n - 1
            invariant
                n >= 1,
                res.len() == i + 1,
                curr == self.model().orbit_point(x as int, i as nat),
                forall|k: int| 0 <= k <= i ==> #[trigger] res@[k] == self.model().orbit_point(x as int, k as nat),
                forall|k: nat|
                    k + 1 < n ==> #[trigger] self.can_eval(self.model().orbit_point(x as int, k)) && i64::MIN
                        <= self.model().orbit_point(x as int, k) <= i64::MAX,
        {
            proof {
                assert(self.can_eval(self.model().orbit_point(x as int, i as nat)));
            }
            curr = self.eval(curr);
            res.push(curr);
        }
        res
    }

    /// Without a modulus, every value that `multiplier` computes over `n`
    /// steps from `x` fits in an `i64`.
    pub open spec fn plain_multiplier_fits(&self, x: int, n: nat) -> bool {
        &&& forall|j: int|
            0 <= j < formal_derivative(self.cs()).len() ==> i64::MIN <= #[trigger] formal_derivative(
                self.cs(),
            )[j] <= i64::MAX
        &&& forall|k: nat|
            k < n ==> {
                &&& i64::MIN <= #[trigger] self.model().orbit_point(x, k) <= i64::MAX
                &&& horner_fits(self.cs(), self.model().orbit_point(x, k))
                &&& horner_fits(formal_derivative(self.cs()), self.model().orbit_point(x, k))
                &&& i64::MIN <= self.model().derivative_product(x, k + 1) <= i64::MAX
            }
    }

    /// The multiplier of `x` over `period` steps: the product of the
    /// derivative's values along the orbit, modulo `p` when there is a
    /// modulus, and as an integer otherwise.
    pub fn multiplier(&self, period: usize, x: i64) -> (r: i64)
        requires
            period >= 1,
            match self.p_mod {
                Some(p) => 0 < p <= MODULUS_MAX,
                None => self.plain_multiplier_fits(x as int, period as nat),
            },
        ensures
            match self.p_mod {
                Some(p) => r == self.model().derivative_product(x as int, period as nat) % (p as int)
                    && 0 <= r < p,
                None => r == self.model().derivative_product(x as int, period as nat),
            },
    {
        match self.p_mod {
            Some(_) => self.multiplier_mod(period, x),
            None => self.multiplier_plain(period, x),
        }
    }

    fn multiplier_plain(&self, period: usize, x: i64) -> (r: i64)
        requires
            period >= 1,
            self.p_mod is None,
            self.plain_multiplier_fits(x as int, period as nat),
        ensures
            r == self.model().derivative_product(x as int, period as nat),
    {
        proof {
            assert forall|k: nat|
                k + 1 < period implies #[trigger] self.can_eval(self.model().orbit_point(x as int, k)) && i64::MIN
                <= self.model().orbit_point(x as int, k) <= i64::MAX by {
                assert(k < period);
            }
        }
        let orbit = self.n_orbit(x, period);
        let s_der = self.derivative();
        let ghost d = formal_derivative(self.cs());
        proof {
            assert(s_der.cs() =~= d);
        }
        let mut acc: i64 = 1;
        for i in 0..period
            invariant
                period == orbit.len(),
                self.p_mod is None,
                s_der.p_mod is None,
                d == formal_derivative(self.cs()),
                s_der.cs() == d,
                self.plain_multiplier_fits(x as int, period as nat),
                forall|k: int| 0 <= k < period ==> #[trigger] orbit@[k] == self.model().orbit_point(x as int, k as nat),
                acc == self.model().derivative_product(x as int, i as nat),
        {
            let a = orbit[i];
            proof {
                assert(i < period);
                assert(horner_fits(d, self.model().orbit_point(x as int, i as nat)));
                assert(i64::MIN <= self.model().derivative_product(x as int, (i + 1) as nat) <= i64::MAX);
            }
            let v = s_der.eval(a);
            acc = acc * v;
        }
        acc
    }

    fn multiplier_mod(&self, period: usize, x: i64) -> (r: i64)
        requires
            self.p_mod is Some,
            0 < self.p_mod->0 <= MODULUS_MAX,
            period >= 1,
        ensures
            r == self.model().derivative_product(x as int, period as nat) % (self.p_mod->0 as int),
            0 <= r < self.p_mod->0,
    {
        let p = match self.p_mod {
            Some(p) => p,
            None => 1,
        };
        proof {
            assert forall|k: nat|
                k + 1 < period implies #[trigger] self.can_eval(self.model().orbit_point(x as int, k)) && i64::MIN
                <= self.model().orbit_point(x as int, k) <= i64::MAX by {
                if k > 0 {
                    lemma_mod_bound(horner(self.cs(), self.model().orbit_point(x as int, (k - 1) as nat)), p as int);
                }
            }
        }
        let orbit = self.n_orbit(x, period);
        let s_der = self.derivative();
        let ghost d = formal_derivative(self.cs());
        let mut acc: i64 = 1 % p;
        for i in 0..period
            invariant
                period == orbit.len(),
                self.p_mod == Some(p),
                0 < p <= MODULUS_MAX,
                s_der.p_mod == Some(p),
                d == formal_derivative(self.cs()),
                s_der.coeffs.len() == d.len(),
                forall|j: int| 0 <= j < s_der.coeffs.len() ==> #[trigger] s_der.coeffs@[j] == d[j] % (p as int),
                forall|k: int| 0 <= k < period ==> #[trigger] orbit@[k] == self.model().orbit_point(x as int, k as nat),
                0 <= acc < p,
                acc == self.model().derivative_product(x as int, i as nat) % (p as int),
        {
            let a = orbit[i];
            let v = s_der.eval(a);
            proof {
                lemma_horner_congruent(s_der.cs(), d, a as int, p as int);
                let dp = self.model().derivative_product(x as int, i as nat);
                let hv = horner(d, a as int);
                lemma_mul_mod_noop(dp, hv, p as int);
                assert(acc * v < 0x4000_0000_0000_0000) by (nonlinear_arith)
                    requires
                        0 <= acc < p,
                        0 <= v < p,
                        p <= 2147483647,
                ;
            }
            acc = (acc * v) % p;
        }
        acc
    }
}

/// The residue of `a` in `[0, p)`.
fn reduce(a: i64, p: i64) -> (r: i64)
    requires
        p > 0,
    ensures
        r == a as int % p as int,
        0 <= r < p,
{
    match a.checked_rem_euclid(p) {
        Some(r) => r,
        None => 0,
    }
}

/// One reduced step of Horner's rule.
proof fn lemma_horner_step_mod(h: int, x: int, c: int, p: int)
    requires
        p > 0,
    ensures
        (((h % p) * (x % p)) % p + c % p) % p == (h * x + c) % p,
{
    lemma_mul_mod_noop(h, x, p);
    lemma_add_mod_noop(h * x, c, p);
    lemma_mod_twice(h * x, p);
}

/// Polynomials whose coefficients agree modulo `p` agree modulo `p` everywhere.
pub proof fn lemma_horner_congruent(a: Seq<int>, b: Seq<int>, x: int, p: int)
    requires
        p > 0,
        a.len() == b.len(),
        forall|j: int| 0 <= j < a.len() ==> #[trigger] a[j] == b[j] % p,
    ensures
        horner(a, x) % p == horner(b, x) % p,
    decreases a.len(),
{
    if a.len() > 0 {
        let a1 = a.drop_last();
        let b1 = b.drop_last();
        lemma_horner_congruent(a1, b1, x, p);
        let ha = horner(a1, x);
        let hb = horner(b1, x);
        lemma_mul_mod_noop_left(ha, x, p);
        lemma_mul_mod_noop_left(hb, x, p);
        lemma_add_mod_noop(ha * x, a.last(), p);
        lemma_add_mod_noop(hb * x, b.last(), p);
        lemma_mod_twice(b.last(), p);
    }
}

} // verus!
