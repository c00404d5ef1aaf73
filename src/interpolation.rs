//! Why Lagrange interpolation recovers the secret: polynomial algebra over
//! integer coefficients, read modulo a prime.
use crate::field::{
    divides, gcd, inverse_mod, is_prime, lemma_gcd_divides, lemma_inverse_exists_iff_coprime,
};
use crate::polynomial::poly_eval;
use crate::vss::{
    deals, has_duplicate_index, interpolable, lagrange_at_zero, lagrange_denominator, lagrange_numerator,
    lagrange_sum,
};
use vstd::arithmetic::div_mod::*;
use vstd::arithmetic::mul::*;
use vstd::prelude::*;

verus! {

/// Value at `z` of the polynomial with coefficients `s`, constant first.
pub open spec fn peval(s: Seq<int>, z: int) -> int
    decreases s.len(),
{
    if s.len() == 0 {
        0
    } else {
        s[0] + z * peval(s.drop_first(), z)
    }
}

/// Coefficient `k` of `s`, zero past its end.
pub open spec fn coef(s: Seq<int>, k: int) -> int {
    if 0 <= k < s.len() {
        s[k]
    } else {
        0
    }
}

/// Sum of two polynomials.
pub open spec fn padd(a: Seq<int>, b: Seq<int>) -> Seq<int> {
    let n = if a.len() < b.len() {
        b.len()
    } else {
        a.len()
    };
    Seq::new(n, |k: int| coef(a, k) + coef(b, k))
}

/// `s` times the constant `c`.
pub open spec fn pscale(s: Seq<int>, c: int) -> Seq<int> {
    Seq::new(s.len(), |k: int| c * s[k])
}

/// `s` times `(X - r)`.
pub open spec fn pmul_linear(s: Seq<int>, r: int) -> Seq<int> {
    padd(seq![0int] + s, pscale(s, -r))
}

/// The quotient of `s(X) - s(a)` by `(X - a)`.
pub open spec fn pquot(s: Seq<int>, a: int) -> Seq<int>
    decreases s.len(),
{
    if s.len() <= 1 {
        Seq::empty()
    } else {
        let r = s.drop_first();
        padd(r, pscale(pquot(r, a), a))
    }
}

proof fn lemma_peval_unfold(s: Seq<int>, z: int)
    ensures
        peval(s, z) == coef(s, 0) + z * peval(
            if s.len() == 0 {
                s
            } else {
                s.drop_first()
            },
            z,
        ),
{
    if s.len() == 0 {
        lemma_mul_basics(z);
    }
}

pub proof fn lemma_peval_add(a: Seq<int>, b: Seq<int>, z: int)
    ensures
        peval(padd(a, b), z) == peval(a, z) + peval(b, z),
    decreases a.len() + b.len(),
{
    let s = padd(a, b);
    if s.len() == 0 {
    } else {
        let ta = if a.len() == 0 {
            a
        } else {
            a.drop_first()
        };
        let tb = if b.len() == 0 {
            b
        } else {
            b.drop_first()
        };
        assert(s.drop_first() =~= padd(ta, tb));
        lemma_peval_add(ta, tb, z);
        lemma_peval_unfold(a, z);
        lemma_peval_unfold(b, z);
        lemma_mul_is_distributive_add(z, peval(ta, z), peval(tb, z));
    }
}

pub proof fn lemma_peval_scale(s: Seq<int>, c: int, z: int)
    ensures
        peval(pscale(s, c), z) == c * peval(s, z),
    decreases s.len(),
{
    if s.len() > 0 {
        let t = s.drop_first();
        assert(pscale(s, c).drop_first() =~= pscale(t, c));
        lemma_peval_scale(t, c, z);
        let p = peval(t, z);
        assert(c * s[0] + z * (c * p) == c * (s[0] + z * p)) by (nonlinear_arith);
    }
}

pub proof fn lemma_peval_mul_linear(s: Seq<int>, r: int, z: int)
    ensures
        peval(pmul_linear(s, r), z) == (z - r) * peval(s, z),
        pmul_linear(s, r).len() == s.len() + 1,
{
    let p = seq![0int] + s;
    assert(p.drop_first() =~= s);
    lemma_peval_add(p, pscale(s, -r), z);
    lemma_peval_scale(s, -r, z);
    let v = peval(s, z);
    assert(0 + z * v + (-r) * v == (z - r) * v) by (nonlinear_arith);
}

pub proof fn lemma_peval_quot(s: Seq<int>, a: int, z: int)
    ensures
        peval(s, z) - peval(s, a) == (z - a) * peval(pquot(s, a), z),
        s.len() >= 1 ==> pquot(s, a).len() <= s.len() - 1,
        s.len() == 0 ==> pquot(s, a).len() == 0,
    decreases s.len(),
{
    if s.len() <= 1 {
        if s.len() == 1 {
            assert(s.drop_first().len() == 0);
            assert(peval(s.drop_first(), z) == 0);
            assert(peval(s.drop_first(), a) == 0);
        }
        lemma_mul_basics(z);
        lemma_mul_basics(a);
        lemma_mul_basics(z - a);
        assert(pquot(s, a).len() == 0);
        assert(peval(pquot(s, a), z) == 0);
    } else {
        let r = s.drop_first();
        let qr = pquot(r, a);
        lemma_peval_quot(r, a, z);
        lemma_peval_add(r, pscale(qr, a), z);
        lemma_peval_scale(qr, a, z);
        let rz = peval(r, z);
        let ra = peval(r, a);
        let qz = peval(qr, z);
        assert(peval(s, z) == s[0] + z * rz);
        assert(peval(s, a) == s[0] + a * ra);
        assert(peval(pquot(s, a), z) == rz + a * qz);
        assert(z * rz - a * ra == (z - a) * (rz + a * qz)) by (nonlinear_arith)
            requires
                rz - ra == (z - a) * qz,
        ;
    }
}


/// A nonzero residue is coprime to a prime modulus.
pub proof fn lemma_coprime_to_prime(am: int, q: u64)
    requires
        is_prime(q as nat),
        0 < am < q,
    ensures
        gcd(am as nat, q as nat) == 1,
{
    let g = gcd(am as nat, q as nat);
    let (ka, kq) = lemma_gcd_divides(am as nat, q as nat);
    if g == 0 {
        lemma_mul_basics(kq);
    }
    assert(g <= am) by (nonlinear_arith)
        requires
            am == g * ka,
            am > 0,
            g > 0,
    ;
    if g != 1 {
        lemma_mod_multiples_basic(kq, g as int);
        lemma_mul_is_commutative(kq, g as int);
        assert(divides(g, q as nat));
    }
}

/// Modulo a prime, a product is zero only if a factor is.
pub proof fn lemma_prime_no_zero_divisors(a: int, b: int, q: u64)
    requires
        is_prime(q as nat),
        (a * b) % (q as int) == 0,
        a % (q as int) != 0,
    ensures
        b % (q as int) == 0,
{
    let qi = q as int;
    let am = a % qi;
    lemma_mod_bound(a, qi);
    lemma_coprime_to_prime(am, q);
    lemma_inverse_exists_iff_coprime(am as u64, q);
    let v = choose|x: int| crate::field::is_inverse(am, qi, x);
    assert((am * v) % qi == 1);
    lemma_mul_mod_noop_left(a, b, qi);
    assert((am * b) % qi == 0);
    lemma_mul_mod_noop_right(b, am * v, qi);
    lemma_mul_mod_noop_left(am * b, v, qi);
    assert(b * (am * v) == (am * b) * v) by (nonlinear_arith);
    lemma_mul_basics(v);
    lemma_mul_basics(b);
    lemma_small_mod(0, q as nat);
    assert((b * (am * v)) % qi == b % qi);
    assert(((am * b) * v) % qi == 0);
}

/// Modulo a prime, a polynomial with no more coefficients than it has
/// distinct roots is zero everywhere.
pub proof fn lemma_vanishing(h: Seq<int>, xs: Seq<int>, q: u64, z: int)
    requires
        is_prime(q as nat),
        h.len() <= xs.len(),
        forall|i: int, j: int|
            0 <= i < j < xs.len() ==> #[trigger] (xs[i] % (q as int)) != #[trigger] (xs[j] % (
            q as int)),
        forall|k: int| 0 <= k < xs.len() ==> #[trigger] peval(h, xs[k]) % (q as int) == 0,
    ensures
        peval(h, z) % (q as int) == 0,
    decreases xs.len(),
{
    let qi = q as int;
    if xs.len() == 0 {
        assert(h.len() == 0);
        lemma_small_mod(0, q as nat);
    } else {
        let n = xs.len() - 1;
        let a = xs[n];
        let hq = pquot(h, a);
        let ys = xs.drop_last();
        lemma_peval_quot(h, a, z);
        assert(peval(h, a) % qi == 0);
        assert forall|k: int| 0 <= k < ys.len() implies #[trigger] peval(hq, ys[k]) % qi == 0 by {
            let x = ys[k];
            assert(x == xs[k]);
            assert(peval(h, x) % qi == 0);
            lemma_peval_quot(h, a, x);
            lemma_sub_mod_noop(peval(h, x), peval(h, a), qi);
            lemma_small_mod(0, q as nat);
            assert(((x - a) * peval(hq, x)) % qi == 0);
            if (x - a) % qi == 0 {
                lemma_sub_mod_noop(x, a, qi);
                lemma_mod_bound(x, qi);
                lemma_mod_bound(a, qi);
                assert((x % qi - a % qi) % qi == 0);
                assert(x % qi == a % qi) by {
                    let d = x % qi - a % qi;
                    if d > 0 {
                        lemma_small_mod(d as nat, q as nat);
                    } else if d < 0 {
                        {
                            lemma_small_mod((-d) as nat, q as nat);
                            lemma_fundamental_div_mod(d, qi);
                            assert(d == qi * (d / qi));
                            assert(false) by (nonlinear_arith)
                                requires
                                    d == qi * (d / qi),
                                    -qi < d < 0,
                                    qi > 0,
                            ;
                        }
                    }
                }
                assert(xs[k] % qi != xs[n] % qi);
            }
            lemma_prime_no_zero_divisors(x - a, peval(hq, x), q);
        }
        assert forall|i: int, j: int|
            0 <= i < j < ys.len() implies #[trigger] (ys[i] % qi) != #[trigger] (ys[j] % qi) by {
            assert(ys[i] == xs[i] && ys[j] == xs[j]);
        }
        lemma_vanishing(hq, ys, q, z);
        lemma_mul_mod_noop_right(z - a, peval(hq, z), qi);
        lemma_mul_basics(z - a);
        lemma_add_mod_noop(peval(h, a), (z - a) * peval(hq, z), qi);
        lemma_small_mod(0, q as nat);
    }
}


/// `prod_{j < k, j != i} (X - x_j)`, as coefficients.
pub open spec fn basis(pts: Seq<(u64, u64)>, i: int, k: int) -> Seq<int>
    decreases k,
{
    if k <= 0 {
        seq![1int]
    } else if k - 1 == i {
        basis(pts, i, k - 1)
    } else {
        pmul_linear(basis(pts, i, k - 1), pts[k - 1].0 as int)
    }
}

/// `prod_{j < k, j != i} (z - x_j)`.
pub open spec fn basis_value(pts: Seq<(u64, u64)>, i: int, k: int, z: int) -> int
    decreases k,
{
    if k <= 0 {
        1
    } else if k - 1 == i {
        basis_value(pts, i, k - 1, z)
    } else {
        basis_value(pts, i, k - 1, z) * (z - pts[k - 1].0)
    }
}

proof fn lemma_basis(pts: Seq<(u64, u64)>, i: int, k: int, z: int)
    requires
        0 <= k <= pts.len(),
        0 <= i < pts.len(),
    ensures
        peval(basis(pts, i, k), z) == basis_value(pts, i, k, z),
        basis(pts, i, k).len() == if 0 <= i < k {
            k
        } else {
            k + 1
        },
        lagrange_numerator(pts, i, k) == basis_value(pts, i, k, 0),
        lagrange_denominator(pts, i, k) == basis_value(pts, i, k, pts[i].0 as int),
    decreases k,
{
    if k <= 0 {
        let one = seq![1int];
        assert(one.drop_first() =~= Seq::<int>::empty());
        assert(peval(one.drop_first(), z) == 0);
        lemma_mul_basics(z);
        assert(peval(one, z) == 1);
    } else {
        lemma_basis(pts, i, k - 1, z);
        if k - 1 != i {
            lemma_peval_mul_linear(basis(pts, i, k - 1), pts[k - 1].0 as int, z);
            lemma_mul_is_commutative(z - pts[k - 1].0, basis_value(pts, i, k - 1, z));
            assert(peval(basis(pts, i, k), z) == basis_value(pts, i, k, z));
            lemma_basis(pts, i, k - 1, 0);
            lemma_basis(pts, i, k - 1, pts[i].0 as int);
        }
    }
}

proof fn lemma_basis_vanishes(pts: Seq<(u64, u64)>, i: int, k: int, m: int)
    requires
        0 <= m < k,
        m != i,
    ensures
        basis_value(pts, i, k, pts[m].0 as int) == 0,
    decreases k,
{
    if k - 1 != m {
        lemma_basis_vanishes(pts, i, k - 1, m);
    }
    lemma_mul_basics(pts[m].0 - pts[k - 1].0);
    lemma_mul_basics(basis_value(pts, i, k - 1, pts[m].0 as int));
}

proof fn lemma_basis_nonzero(pts: Seq<(u64, u64)>, i: int, k: int, q: u64)
    requires
        is_prime(q as nat),
        0 <= i < pts.len(),
        k <= pts.len(),
        !has_duplicate_index(pts, q),
    ensures
        basis_value(pts, i, k, pts[i].0 as int) % (q as int) != 0,
    decreases k,
{
    let qi = q as int;
    if k <= 0 {
        lemma_small_mod(1, q as nat);
    } else {
        lemma_basis_nonzero(pts, i, k - 1, q);
        if k - 1 != i {
            let j = k - 1;
            let d = pts[i].0 - pts[j].0;
            if d % qi == 0 {
                lemma_sub_mod_noop(pts[i].0 as int, pts[j].0 as int, qi);
                lemma_mod_bound(pts[i].0 as int, qi);
                lemma_mod_bound(pts[j].0 as int, qi);
                let e = (pts[i].0 as int) % qi - (pts[j].0 as int) % qi;
                assert(e % qi == 0);
                if e > 0 {
                    lemma_small_mod(e as nat, q as nat);
                } else if e < 0 {
                    lemma_fundamental_div_mod(e, qi);
                    assert(false) by (nonlinear_arith)
                        requires
                            e == qi * (e / qi) + e % qi,
                            e % qi == 0,
                            -qi < e < 0,
                            qi > 0,
                    ;
                }
                if i < j {
                    assert(pts[i].0 % q == pts[j].0 % q);
                } else {
                    assert(pts[j].0 % q == pts[i].0 % q);
                }
            }
            if basis_value(pts, i, k, pts[i].0 as int) % qi == 0 {
                lemma_mul_is_commutative(d, basis_value(pts, i, k - 1, pts[i].0 as int));
                lemma_prime_no_zero_divisors(d, basis_value(pts, i, k - 1, pts[i].0 as int), q);
            }
        }
    }
}

/// Weight of point `i` in the Lagrange polynomial: `y_i / denominator_i`.
pub open spec fn lagrange_weight(pts: Seq<(u64, u64)>, q: u64, i: int) -> int {
    pts[i].1 * inverse_mod(lagrange_denominator(pts, i, pts.len() as int) % (q as int), q as int)
}

/// `sum_{i < k} weight_i * prod_{j != i} (X - x_j)`, as coefficients.
pub open spec fn lagrange_poly(pts: Seq<(u64, u64)>, q: u64, k: int) -> Seq<int>
    decreases k,
{
    if k <= 0 {
        Seq::empty()
    } else {
        padd(
            lagrange_poly(pts, q, k - 1),
            pscale(basis(pts, k - 1, pts.len() as int), lagrange_weight(pts, q, k - 1)),
        )
    }
}

/// `sum_{i < k} weight_i * prod_{j != i} (z - x_j)`.
pub open spec fn lagrange_poly_value(pts: Seq<(u64, u64)>, q: u64, k: int, z: int) -> int
    decreases k,
{
    if k <= 0 {
        0
    } else {
        lagrange_poly_value(pts, q, k - 1, z) + lagrange_weight(pts, q, k - 1) * basis_value(
            pts,
            k - 1,
            pts.len() as int,
            z,
        )
    }
}

proof fn lemma_lagrange_poly(pts: Seq<(u64, u64)>, q: u64, k: int, z: int)
    requires
        0 <= k <= pts.len(),
    ensures
        peval(lagrange_poly(pts, q, k), z) == lagrange_poly_value(pts, q, k, z),
        lagrange_poly(pts, q, k).len() <= pts.len(),
        lagrange_poly_value(pts, q, k, 0) == lagrange_sum(pts, q, k),
    decreases k,
{
    if k > 0 {
        let n = pts.len() as int;
        let i = k - 1;
        lemma_lagrange_poly(pts, q, k - 1, z);
        lemma_lagrange_poly(pts, q, k - 1, 0);
        lemma_basis(pts, i, n, z);
        lemma_basis(pts, i, n, 0);
        let b = basis(pts, i, n);
        let w = lagrange_weight(pts, q, i);
        lemma_peval_add(lagrange_poly(pts, q, k - 1), pscale(b, w), z);
        lemma_peval_scale(b, w, z);
        let inv = inverse_mod(lagrange_denominator(pts, i, n) % (q as int), q as int);
        let y = pts[i].1 as int;
        let num = lagrange_numerator(pts, i, n);
        assert((y * inv) * num == y * num * inv) by (nonlinear_arith);
    }
}

proof fn lemma_lagrange_poly_at_point(pts: Seq<(u64, u64)>, q: u64, k: int, m: int)
    requires
        0 <= k <= pts.len(),
        0 <= m < pts.len(),
    ensures
        lagrange_poly_value(pts, q, k, pts[m].0 as int) == if m < k {
            lagrange_weight(pts, q, m) * lagrange_denominator(pts, m, pts.len() as int)
        } else {
            0
        },
    decreases k,
{
    if k > 0 {
        let n = pts.len() as int;
        lemma_lagrange_poly_at_point(pts, q, k - 1, m);
        lemma_basis(pts, k - 1, n, 0);
        if k - 1 != m {
            lemma_basis_vanishes(pts, k - 1, n, m);
            lemma_mul_basics(lagrange_weight(pts, q, k - 1));
        }
    }
}


proof fn lemma_poly_eval_as_int(c: Seq<u64>, x: int)
    ensures
        poly_eval(c, x) == peval(c.map_values(|v: u64| v as int), x),
    decreases c.len(),
{
    let ci = c.map_values(|v: u64| v as int);
    if c.len() > 0 {
        assert(ci.drop_first() =~= c.drop_first().map_values(|v: u64| v as int));
        lemma_poly_eval_as_int(c.drop_first(), x);
    }
}

pub(crate) proof fn lemma_mod_eq_of_diff(a: int, b: int, q: int)
    requires
        q > 0,
        (a - b) % q == 0,
    ensures
        a % q == b % q,
{
    lemma_add_mod_noop(b, a - b, q);
    lemma_mod_twice(b, q);
}

/// Reconstruction recovers the secret: if the points are valid shares of
/// one polynomial `c` modulo a prime `q` (`y == c(x) mod q`), their indices
/// are distinct modulo `q`, and there are at least as many points as
/// coefficients, then every denominator is invertible and interpolation at
/// zero gives `c[0] mod q`. Any subset of such shares, in any order, is
/// again such a set of points, so every large enough subset yields the
/// same secret.
pub proof fn lemma_reconstruction_recovers_secret(pts: Seq<(u64, u64)>, c: Seq<u64>, q: u64)
    requires
        is_prime(q as nat),
        1 <= c.len() <= pts.len(),
        !has_duplicate_index(pts, q),
        forall|k: int|
            0 <= k < pts.len() ==> #[trigger] pts[k].1 as int == poly_eval(c, pts[k].0 as int) % (
            q as int),
    ensures
        interpolable(pts, q),
        lagrange_at_zero(pts, q) == (c[0] as int) % (q as int),
{
    let qi = q as int;
    let n = pts.len() as int;
    assert forall|i: int| 0 <= i < n implies gcd(
        (#[trigger] lagrange_denominator(pts, i, n) % qi) as nat,
        q as nat,
    ) == 1 by {
        lemma_basis(pts, i, n, 0);
        lemma_basis_nonzero(pts, i, n, q);
        lemma_mod_bound(lagrange_denominator(pts, i, n), qi);
        lemma_coprime_to_prime(lagrange_denominator(pts, i, n) % qi, q);
    }
    let ci = c.map_values(|v: u64| v as int);
    let lp = lagrange_poly(pts, q, n);
    let h = padd(ci, pscale(lp, -1));
    let xs = Seq::new(n as nat, |k: int| pts[k].0 as int);
    lemma_lagrange_poly(pts, q, n, 0);
    assert forall|k: int| 0 <= k < xs.len() implies #[trigger] peval(h, xs[k]) % qi == 0 by {
        let x = xs[k];
        let den = lagrange_denominator(pts, k, n);
        let dm = den % qi;
        lemma_basis(pts, k, n, 0);
        lemma_basis_nonzero(pts, k, n, q);
        lemma_mod_bound(den, qi);
        lemma_coprime_to_prime(dm, q);
        lemma_inverse_exists_iff_coprime(dm as u64, q);
        let inv = inverse_mod(dm, qi);
        assert((dm * inv) % qi == 1);
        let y = pts[k].1 as int;
        lemma_lagrange_poly(pts, q, n, x);
        lemma_lagrange_poly_at_point(pts, q, n, k);
        assert(peval(lp, x) == (y * inv) * den);
        // (y * inv) * den == y (mod q)
        lemma_mul_mod_noop_right(inv, den, qi);
        lemma_mul_is_commutative(inv, dm);
        lemma_mul_mod_noop_right(y, inv * den, qi);
        lemma_mul_is_associative(y, inv, den);
        lemma_mul_basics(y);
        let fx = poly_eval(c, x);
        lemma_poly_eval_as_int(c, x);
        assert(y == fx % qi);
        lemma_mod_twice(fx, qi);
        assert(peval(lp, x) % qi == fx % qi);
        lemma_peval_add(ci, pscale(lp, -1), x);
        lemma_peval_scale(lp, -1, x);
        lemma_sub_mod_noop(fx, peval(lp, x), qi);
        lemma_small_mod(0, q as nat);
    }
    assert forall|i: int, j: int|
        0 <= i < j < xs.len() implies #[trigger] (xs[i] % qi) != #[trigger] (xs[j] % qi) by {
        if xs[i] % qi == xs[j] % qi {
            assert(pts[i].0 % q == pts[j].0 % q);
        }
    }
    lemma_vanishing(h, xs, q, 0);
    lemma_peval_add(ci, pscale(lp, -1), 0);
    lemma_peval_scale(lp, -1, 0);
    lemma_poly_eval_as_int(c, 0);
    assert(poly_eval(c, 0) == c[0]);
    lemma_mod_eq_of_diff(poly_eval(c, 0), peval(lp, 0), qi);
}


/// The shares at positions `idx`, in the order `idx` lists them.
pub open spec fn select(shares: Seq<(u64, u64)>, idx: Seq<int>) -> Seq<(u64, u64)> {
    Seq::new(idx.len(), |k: int| shares[idx[k]])
}

/// Any choice of distinct dealt shares, in any order, at least as many as
/// the polynomial has coefficients, reconstructs the same value, the
/// constant term modulo the prime `q`: the selection has no colliding
/// index, every denominator is invertible, and interpolation at zero
/// gives `c[0] mod q`. So `reconstruct_secret` on such a selection, with a
/// threshold no larger than it, returns `Ok(c[0] mod q)` whatever the
/// subset and its order.
pub proof fn lemma_dealt_subset_reconstructs(
    shares: Seq<(u64, u64)>,
    c: Seq<u64>,
    q: u64,
    idx: Seq<int>,
)
    requires
        is_prime(q as nat),
        shares.len() < q,
        deals(shares, c, q),
        1 <= c.len() <= idx.len(),
        forall|k: int| 0 <= k < idx.len() ==> 0 <= #[trigger] idx[k] < shares.len(),
        forall|a: int, b: int| 0 <= a < b < idx.len() ==> #[trigger] idx[a] != #[trigger] idx[b],
    ensures
        !has_duplicate_index(select(shares, idx), q),
        interpolable(select(shares, idx), q),
        lagrange_at_zero(select(shares, idx), q) == (c[0] as int) % (q as int),
{
    let pts = select(shares, idx);
    let qi = q as int;
    assert forall|k: int| 0 <= k < pts.len() implies pts[k].0 as int == idx[k] + 1 && #[trigger] pts[k].1 as int
        == poly_eval(c, pts[k].0 as int) % qi by {
        let i = idx[k];
        assert(shares[i] == ((i + 1) as u64, (poly_eval(c, i + 1) % qi) as u64));
        lemma_mod_bound(poly_eval(c, i + 1), qi);
    }
    if has_duplicate_index(pts, q) {
        let (a, b) = choose|a: int, b: int|
            0 <= a < b < pts.len() && #[trigger] (pts[a].0 % q) == #[trigger] (pts[b].0 % q);
        assert(pts[a].0 as int == idx[a] + 1);
        assert(pts[b].0 as int == idx[b] + 1);
        lemma_small_mod((idx[a] + 1) as nat, q as nat);
        lemma_small_mod((idx[b] + 1) as nat, q as nat);
        assert(idx[a] != idx[b]);
    }
    lemma_reconstruction_recovers_secret(pts, c, q);
}

} // verus!
