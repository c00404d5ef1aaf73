//! The Feldman scheme: commitments to a sharing polynomial, dealing of
//! shares, share verification, and reconstruction by Lagrange
//! interpolation at zero.
use crate::bignum::{big_add, big_eq, big_modpow, big_mul, big_rem, big_sub, BigNat};
use crate::error::VssError;
use crate::field::{gcd, inverse_mod, is_prime, mod_exp, mod_inv, mod_inv_wide};
use crate::interpolation::{lemma_mod_eq_of_diff, lemma_prime_no_zero_divisors};
use crate::polynomial::{poly_eval, Polynomial};
use vstd::arithmetic::div_mod::*;
use vstd::arithmetic::mul::*;
use vstd::arithmetic::power::*;
use vstd::prelude::*;

verus! {

/// Public parameters: generator `g` and prime modulus `q` of the group in
/// which commitments live.
pub struct FeldmanVSSParams {
    pub g: u64,
    pub q: u64,
}

/// `comms` holds `g^c_j mod q` for each coefficient `c_j`, in order.
pub open spec fn commits_to(comms: Seq<u64>, c: Seq<u64>, g: u64, q: u64) -> bool {
    &&& comms.len() == c.len()
    &&& forall|j: int| 0 <= j < c.len() ==> #[trigger] comms[j] == pow(g as int, c[j] as nat) % (q as int)
}

/// `shares` holds `(i, f(i) mod q)` for `i = 1, 2, ..., shares.len()`.
pub open spec fn deals(shares: Seq<(u64, u64)>, c: Seq<u64>, q: u64) -> bool {
    forall|k: int|
        0 <= k < shares.len() ==> #[trigger] shares[k] == ((k + 1) as u64, (poly_eval(
            c,
            k + 1,
        ) % (q as int)) as u64)
}

/// The product of `comms[j]^(x^j)` over all `j`, in nested form:
/// `C_0 * (C_1 * (C_2 * ...)^x)^x`.
pub open spec fn commitment_product(comms: Seq<u64>, x: nat) -> int
    decreases comms.len(),
{
    if comms.len() == 0 {
        1
    } else {
        comms[0] * pow(commitment_product(comms.drop_first(), x), x)
    }
}

/// The share `(x, y)` is consistent with the commitments:
/// `g^y == prod_j comms[j]^(x^j) (mod q)`, exponents taken as integers.
pub open spec fn share_verifies(x: u64, y: u64, comms: Seq<u64>, g: u64, q: u64) -> bool {
    pow(g as int, y as nat) % (q as int) == commitment_product(comms, x as nat) % (q as int)
}

impl FeldmanVSSParams {
    /// Parameters from a generator and a prime modulus.
    pub fn new(g: u64, q: u64) -> (r: Self)
        ensures
            r.g == g,
            r.q == q,
    {
        FeldmanVSSParams { g, q }
    }

    /// The commitment vector `[g^c_0 mod q, ..., g^c_(t-1) mod q]`.
    pub fn generate_commitments(&self, polynomial: &Polynomial) -> (r: Vec<u64>)
        requires
            self.q >= 1,
        ensures
            commits_to(r@, polynomial@, self.g, self.q),
    {
        let c = &polynomial.coefficients;
        let mut comms: Vec<u64> = Vec::new();
        let mut j: usize = 0;
        while j < c.len()
            invariant
                self.q >= 1,
                c@ == polynomial@,
                j <= c@.len(),
                comms@.len() == j,
                forall|k: int|
                    0 <= k < j ==> #[trigger] comms@[k] == pow(self.g as int, c@[k] as nat) % (
                    self.q as int),
            decreases c.len() - j,
        {
            comms.push(mod_exp(self.g, c[j], self.q));
            j = j + 1;
        }
        comms
    }

    /// Evaluates the polynomial at the indices `1..=num_shares`, which are
    /// pairwise distinct and nonzero modulo `q` when `num_shares < q`;
    /// otherwise the indices would collide and `DuplicateShareIndex` is
    /// reported.
    pub fn distribute_shares(&self, polynomial: &Polynomial, num_shares: usize) -> (r: Result<
        Vec<(u64, u64)>,
        VssError,
    >)
        requires
            self.q >= 1,
        ensures
            r.is_ok() == (num_shares < self.q),
            r matches Err(e) ==> e == VssError::DuplicateShareIndex,
            r matches Ok(s) ==> s@.len() == num_shares && deals(s@, polynomial@, self.q),
    {
        if num_shares as u64 >= self.q {
            return Err(VssError::DuplicateShareIndex);
        }
        let mut shares: Vec<(u64, u64)> = Vec::new();
        let mut k: usize = 0;
        while k < num_shares
            invariant
                self.q >= 1,
                num_shares < self.q,
                k <= num_shares,
                shares@.len() == k,
                deals(shares@, polynomial@, self.q),
            decreases num_shares - k,
        {
            let x: u64 = (k + 1) as u64;
            let y = polynomial.evaluate(x, self.q);
            shares.push((x, y));
            k = k + 1;
        }
        Ok(shares)
    }

    /// Deals `num_shares` shares of `secret` with a fresh random polynomial
    /// of `threshold` coefficients, and returns them with the commitments
    /// to that polynomial.
    ///
    /// Share values are reduced modulo `q`, while exponents of `g` live
    /// modulo the order of `g`, which divides `q - 1`. A dealt share
    /// `(x, f(x) mod q)` therefore passes `verify_share` whenever
    /// `f(x) < q`, and in general only then (see
    /// `lemma_dealt_shares_verify`); reconstruction is unaffected.
    pub fn generate_shares(&self, secret: u64, threshold: usize, num_shares: usize) -> (r: Result<
        (Vec<(u64, u64)>, Vec<u64>),
        VssError,
    >)
        requires
            self.q >= 2,
            threshold >= 1,
        ensures
            r.is_ok() == (num_shares < self.q),
            r matches Err(e) ==> e == VssError::DuplicateShareIndex,
            r matches Ok(p) ==> exists|c: Seq<u64>|
                {
                    &&& c.len() == threshold
                    &&& c[0] == secret
                    &&& forall|j: int| 1 <= j < threshold ==> 1 <= #[trigger] c[j] < self.q
                    &&& p.0@.len() == num_shares
                    &&& deals(p.0@, c, self.q)
                    &&& commits_to(p.1@, c, self.g, self.q)
                },
    {
        let poly = Polynomial::new_for_shamir(threshold, self.q, secret);
        match self.distribute_shares(&poly, num_shares) {
            Err(e) => Err(e),
            Ok(shares) => {
                let comms = self.generate_commitments(&poly);
                Ok((shares, comms))
            },
        }
    }
}

/// Checks the share `(i, share)` against the commitments:
/// `g^share mod q` against `prod_j commitments[j]^(i^j) mod q`. The
/// exponent `i^j` is the integer power of the index; it is never reduced
/// modulo `q`, which governs group elements and not exponents. The
/// product is taken in nested form, one exponentiation by `i` per step.
///
/// The check compares `g^share` with `g^f(i)`, exponents as integers; a
/// share reduced modulo `q` past `f(i) >= q` is reported inconsistent even
/// when it came from the committed polynomial.
pub fn verify_share(i: u64, share: u64, commitments: &[u64], params: &FeldmanVSSParams) -> (r:
    bool)
    requires
        params.q >= 1,
    ensures
        r == share_verifies(i, share, commitments@, params.g, params.q),
{
    let q = params.q;
    let lhs = mod_exp(params.g, share, q);
    let t = commitments.len();
    let mut rhs: u64 = 1u64 % q;
    let mut j: usize = t;
    proof {
        assert(commitments@.subrange(t as int, t as int).len() == 0);
    }
    while j > 0
        invariant
            q == params.q,
            q >= 1,
            t == commitments@.len(),
            j <= t,
            rhs == commitment_product(commitments@.subrange(j as int, t as int), i as nat) % (
            q as int),
        decreases j,
    {
        j = j - 1;
        let ghost prev = commitment_product(commitments@.subrange(j + 1, t as int), i as nat);
        let raised = mod_exp(rhs, i, q);
        let cj = commitments[j];
        proof {
            lemma_mod_bound(pow(rhs as int, i as nat), q as int);
            assert((raised as int) * ((cj % q) as int) < 0x1_0000_0000_0000_0000_0000_0000_0000_0000)
                by (nonlinear_arith)
                requires
                    raised < q,
                    (cj % q) < q,
            ;
        }
        let next = ((raised as u128) * ((cj % q) as u128)) % (q as u128);
        proof {
            let s = commitments@.subrange(j as int, t as int);
            assert(s.drop_first() =~= commitments@.subrange(j + 1, t as int));
            assert(commitment_product(s, i as nat) == cj * pow(prev, i as nat));
            lemma_pow_mod_noop(prev, i as nat, q as int);
            lemma_mul_mod_noop(pow(prev, i as nat), cj as int, q as int);
            lemma_mul_is_commutative(pow(prev, i as nat), cj as int);
        }
        rhs = next as u64;
    }
    proof {
        assert(commitments@.subrange(0, t as int) =~= commitments@);
    }
    lhs == rhs
}


proof fn lemma_poly_eval_nonneg(c: Seq<u64>, x: nat)
    ensures
        poly_eval(c, x as int) >= 0,
    decreases c.len(),
{
    if c.len() > 0 {
        lemma_poly_eval_nonneg(c.drop_first(), x);
        lemma_mul_nonnegative(x as int, poly_eval(c.drop_first(), x as int));
    }
}

/// The commitments to a polynomial combine, at any index `x`, into a
/// commitment to the polynomial's value there:
/// `prod_j (g^c_j)^(x^j) == g^f(x) (mod q)`.
pub proof fn lemma_commitments_evaluate(comms: Seq<u64>, c: Seq<u64>, g: u64, q: u64, x: nat)
    requires
        q >= 1,
        commits_to(comms, c, g, q),
    ensures
        commitment_product(comms, x) % (q as int) == pow(
            g as int,
            poly_eval(c, x as int) as nat,
        ) % (q as int),
    decreases c.len(),
{
    let qi = q as int;
    let gi = g as int;
    if c.len() == 0 {
        lemma_pow0(gi);
    } else {
        let rest = comms.drop_first();
        let crest = c.drop_first();
        assert(commits_to(rest, crest, g, q)) by {
            assert forall|j: int| 0 <= j < crest.len() implies #[trigger] rest[j] == pow(
                gi,
                crest[j] as nat,
            ) % qi by {
                assert(rest[j] == comms[j + 1]);
            }
        }
        lemma_commitments_evaluate(rest, crest, g, q, x);
        let r = commitment_product(rest, x);
        let e = poly_eval(crest, x as int);
        lemma_poly_eval_nonneg(crest, x);
        let c0 = c[0] as nat;
        assert(comms[0] == pow(gi, c0) % qi);
        // pow(r, x) == pow(g^e, x) == g^(e * x)  (mod q)
        lemma_pow_mod_noop(r, x, qi);
        lemma_pow_mod_noop(pow(gi, e as nat), x, qi);
        lemma_pow_multiplies(gi, e as nat, x);
        // combine with the constant term
        lemma_mul_mod_noop_right(comms[0] as int, pow(r, x), qi);
        lemma_mul_mod_noop_right(comms[0] as int, pow(gi, (e * x) as nat), qi);
        lemma_mul_mod_noop_left(pow(gi, c0), pow(gi, (e * x) as nat), qi);
        lemma_pow_adds(gi, c0, (e * x) as nat);
        lemma_mul_is_commutative(e, x as int);
        lemma_mul_nonnegative(e, x as int);
    }
}

/// Every share dealt from a polynomial passes verification against that
/// polynomial's commitments, provided the polynomial's value at the share's
/// index is below `q`, so that reducing the share modulo `q` leaves the
/// exponent `f(x)` unchanged.
pub proof fn lemma_dealt_shares_verify(
    shares: Seq<(u64, u64)>,
    comms: Seq<u64>,
    c: Seq<u64>,
    g: u64,
    q: u64,
)
    requires
        q >= 1,
        shares.len() < q,
        deals(shares, c, q),
        commits_to(comms, c, g, q),
        forall|k: int| 0 <= k < shares.len() ==> #[trigger] poly_eval(c, k + 1) < q,
    ensures
        forall|k: int|
            0 <= k < shares.len() ==> #[trigger] share_verifies(
                shares[k].0,
                shares[k].1,
                comms,
                g,
                q,
            ),
{
    assert forall|k: int| 0 <= k < shares.len() implies #[trigger] share_verifies(
        shares[k].0,
        shares[k].1,
        comms,
        g,
        q,
    ) by {
        let v = poly_eval(c, k + 1);
        lemma_poly_eval_nonneg(c, (k + 1) as nat);
        lemma_small_mod(v as nat, q as nat);
        assert(shares[k].0 == k + 1);
        assert(shares[k].1 == v);
        lemma_commitments_evaluate(comms, c, g, q, (k + 1) as nat);
    }
}


/// `prod_{j < k, j != i} (0 - x_j)`: the Lagrange numerator of point `i`
/// at zero, over the first `k` points.
pub open spec fn lagrange_numerator(pts: Seq<(u64, u64)>, i: int, k: int) -> int
    decreases k,
{
    if k <= 0 {
        1
    } else if k - 1 == i {
        lagrange_numerator(pts, i, k - 1)
    } else {
        lagrange_numerator(pts, i, k - 1) * (0 - pts[k - 1].0)
    }
}

/// `prod_{j < k, j != i} (x_i - x_j)`: the Lagrange denominator of point
/// `i`, over the first `k` points.
pub open spec fn lagrange_denominator(pts: Seq<(u64, u64)>, i: int, k: int) -> int
    decreases k,
{
    if k <= 0 {
        1
    } else if k - 1 == i {
        lagrange_denominator(pts, i, k - 1)
    } else {
        lagrange_denominator(pts, i, k - 1) * (pts[i].0 - pts[k - 1].0)
    }
}

/// Every Lagrange denominator is invertible modulo `m`.
pub open spec fn interpolable(pts: Seq<(u64, u64)>, m: u64) -> bool {
    forall|i: int|
        0 <= i < pts.len() ==> gcd(
            (#[trigger] lagrange_denominator(pts, i, pts.len() as int) % (m as int)) as nat,
            m as nat,
        ) == 1
}

/// `y_i * numerator_i * denominator_i^-1`, the Lagrange term of point `i`.
pub open spec fn lagrange_term(pts: Seq<(u64, u64)>, m: u64, i: int) -> int {
    let n = pts.len() as int;
    pts[i].1 * lagrange_numerator(pts, i, n) * inverse_mod(
        lagrange_denominator(pts, i, n) % (m as int),
        m as int,
    )
}

/// Sum of the Lagrange terms of the first `k` points.
pub open spec fn lagrange_sum(pts: Seq<(u64, u64)>, m: u64, k: int) -> int
    decreases k,
{
    if k <= 0 {
        0
    } else {
        lagrange_sum(pts, m, k - 1) + lagrange_term(pts, m, k - 1)
    }
}

/// The value at zero of the polynomial through `pts`, modulo `m`.
pub open spec fn lagrange_at_zero(pts: Seq<(u64, u64)>, m: u64) -> int {
    lagrange_sum(pts, m, pts.len() as int) % (m as int)
}

proof fn lemma_diff_mod(a: int, b: int, m: int)
    requires
        m >= 1,
    ensures
        (a % m + m - b % m) % m == (a - b) % m,
{
    lemma_fundamental_div_mod(a, m);
    lemma_fundamental_div_mod(b, m);
    let k = 1 + b / m - a / m;
    assert(a % m + m - b % m == m * k + (a - b)) by (nonlinear_arith)
        requires
            a == m * (a / m) + a % m,
            b == m * (b / m) + b % m,
            k == 1 + b / m - a / m,
    ;
    lemma_mod_multiples_vanish(k, a - b, m);
}

proof fn lemma_mul_step_mod(acc: int, full: int, f: int, fm: int, m: int)
    requires
        m >= 1,
        acc == full % m,
        fm == f % m,
    ensures
        (acc * fm) % m == (full * f) % m,
{
    lemma_mul_mod_noop(full, f, m);
}

/// The secret: the value at zero of the polynomial through `points`, by
/// Lagrange interpolation modulo `modulus`. `None` when some denominator
/// has no inverse modulo `modulus`.
pub fn lagrange_interpolation_zero(points: &[(u64, u64)], modulus: u64) -> (r: Option<u64>)
    requires
        modulus >= 1,
    ensures
        r.is_some() == interpolable(points@, modulus),
        r matches Some(v) ==> v == lagrange_at_zero(points@, modulus),
{
    let pts = Ghost(points@);
    let n = points.len();
    let m: u128 = modulus as u128;
    let mut secret: u128 = 0;
    let mut i: usize = 0;
    proof {
        lemma_small_mod(0, m as nat);
    }
    while i < n
        invariant
            pts@ == points@,
            n == points@.len(),
            m == modulus as u128,
            m >= 1,
            i <= n,
            secret < m,
            secret == lagrange_sum(pts@, modulus, i as int) % (m as int),
            forall|k: int|
                0 <= k < i ==> gcd(
                    (#[trigger] lagrange_denominator(pts@, k, n as int) % (m as int)) as nat,
                    m as nat,
                ) == 1,
        decreases n - i,
    {
        let (x_i, y_i) = points[i];
        let mut numerator: u128 = 1 % m;
        let mut denominator: u128 = 1 % m;
        let mut j: usize = 0;
        while j < n
            invariant
                pts@ == points@,
                n == points@.len(),
                m == modulus as u128,
                m >= 1,
                i < n,
                x_i == points@[i as int].0,
                j <= n,
                numerator < m,
                denominator < m,
                numerator == lagrange_numerator(pts@, i as int, j as int) % (m as int),
                denominator == lagrange_denominator(pts@, i as int, j as int) % (m as int),
            decreases n - j,
        {
            if i != j {
                let x_j = points[j].0;
                let neg = (m - (x_j as u128) % m) % m;
                let diff = ((x_i as u128) % m + m - (x_j as u128) % m) % m;
                proof {
                    lemma_diff_mod(0, x_j as int, m as int);
                    lemma_diff_mod(x_i as int, x_j as int, m as int);
                    lemma_mul_step_mod(
                        numerator as int,
                        lagrange_numerator(pts@, i as int, j as int),
                        0 - x_j,
                        neg as int,
                        m as int,
                    );
                    lemma_mul_step_mod(
                        denominator as int,
                        lagrange_denominator(pts@, i as int, j as int),
                        x_i - x_j,
                        diff as int,
                        m as int,
                    );
                    assert(numerator * neg < m * m) by (nonlinear_arith)
                        requires
                            numerator < m,
                            neg < m,
                    ;
                    assert(denominator * diff < m * m) by (nonlinear_arith)
                        requires
                            denominator < m,
                            diff < m,
                    ;
                    assert(m * m <= 0xffff_ffff_ffff_ffff_ffff_ffff_ffff_ffffu128) by (nonlinear_arith)
                        requires
                            m <= 0xffff_ffff_ffff_ffffu128,
                    ;
                }
                numerator = (numerator * neg) % m;
                denominator = (denominator * diff) % m;
            }
            j = j + 1;
        }
        let inv = match mod_inv(denominator as u64, modulus) {
            Some(v) => v,
            None => {
                return None;
            },
        };
        let ghost num = lagrange_numerator(pts@, i as int, n as int);
        let ghost inv_s = inverse_mod(lagrange_denominator(pts@, i as int, n as int) % (m as int), m as int);
        proof {
            assert(m * m <= 0xffff_ffff_ffff_ffff_ffff_ffff_ffff_ffffu128) by (nonlinear_arith)
                requires
                    m <= 0xffff_ffff_ffff_ffffu128,
            ;
            assert(((y_i as u128) % m) * numerator < m * m) by (nonlinear_arith)
                requires
                    numerator < m,
                    (y_i as u128) % m < m,
            ;
        }
        let yn = (((y_i as u128) % m) * numerator) % m;
        proof {
            lemma_mul_mod_noop(y_i as int, num, m as int);
            assert(yn * (inv as u128) < m * m) by (nonlinear_arith)
                requires
                    yn < m,
                    inv < m,
            ;
            lemma_small_mod(inv as nat, m as nat);
            lemma_mul_step_mod(yn as int, y_i * num, inv_s, inv as int, m as int);
            lemma_add_mod_noop(lagrange_sum(pts@, modulus, i as int), lagrange_term(pts@, modulus, i as int), m as int);
            lemma_mod_twice(lagrange_term(pts@, modulus, i as int), m as int);
        }
        let term = (yn * (inv as u128)) % m;
        secret = (secret + term) % m;
        i = i + 1;
    }
    Some(secret as u64)
}


/// Two of the points share an index modulo `m`.
pub open spec fn has_duplicate_index(pts: Seq<(u64, u64)>, m: u64) -> bool {
    exists|a: int, b: int|
        0 <= a < b < pts.len() && #[trigger] (pts[a].0 % m) == #[trigger] (pts[b].0 % m)
}

fn find_duplicate_index(shares: &[(u64, u64)], modulus: u64) -> (r: bool)
    requires
        modulus >= 1,
    ensures
        r == has_duplicate_index(shares@, modulus),
{
    let n = shares.len();
    let mut a: usize = 0;
    while a < n
        invariant
            n == shares@.len(),
            modulus >= 1,
            a <= n,
            forall|p: int, b: int|
                0 <= p < a && p < b < n ==> #[trigger] (shares@[p].0 % modulus) != #[trigger] (
                shares@[b].0 % modulus),
        decreases n - a,
    {
        let mut b: usize = a + 1;
        while b < n
            invariant
                n == shares@.len(),
                modulus >= 1,
                a < n,
                a + 1 <= b <= n,
                forall|p: int, c: int|
                    0 <= p < a && p < c < n ==> #[trigger] (shares@[p].0 % modulus) != #[trigger] (
                    shares@[c].0 % modulus),
                forall|c: int|
                    a < c < b ==> (shares@[a as int].0 % modulus) != #[trigger] (shares@[c].0
                        % modulus),
            decreases n - b,
        {
            if shares[a].0 % modulus == shares[b].0 % modulus {
                return true;
            }
            b = b + 1;
        }
        a = a + 1;
    }
    false
}

/// Recovers the secret from `shares`: `InsufficientShares` when fewer than
/// `threshold` are given, `DuplicateShareIndex` when two indices agree
/// modulo `modulus`, `InverseUndefined` when a Lagrange denominator has no
/// inverse, and otherwise the interpolated value at zero.
pub fn reconstruct_secret(shares: &[(u64, u64)], threshold: usize, modulus: u64) -> (r: Result<
    u64,
    VssError,
>)
    requires
        modulus >= 1,
        threshold >= 1,
    ensures
        (r == Err::<u64, VssError>(VssError::InsufficientShares)) == (shares@.len() < threshold),
        shares@.len() >= threshold ==> ((r == Err::<u64, VssError>(VssError::DuplicateShareIndex))
            == has_duplicate_index(shares@, modulus)),
        shares@.len() >= threshold && !has_duplicate_index(shares@, modulus) ==> ((r == Err::<
            u64,
            VssError,
        >(VssError::InverseUndefined)) == !interpolable(shares@, modulus)),
        r matches Err(e) ==> e == VssError::InsufficientShares || e == VssError::DuplicateShareIndex
            || e == VssError::InverseUndefined,
        r matches Ok(v) ==> shares@.len() >= threshold && !has_duplicate_index(shares@, modulus)
            && interpolable(shares@, modulus) && v == lagrange_at_zero(shares@, modulus),
{
    if shares.len() < threshold {
        return Err(VssError::InsufficientShares);
    }
    if find_duplicate_index(shares, modulus) {
        return Err(VssError::DuplicateShareIndex);
    }
    match lagrange_interpolation_zero(shares, modulus) {
        Some(v) => Ok(v),
        None => Err(VssError::InverseUndefined),
    }
}


/// `x^s` as an exponent.
pub open spec fn index_power(x: nat, s: nat) -> nat {
    if pow(x as int, s) >= 0 {
        pow(x as int, s) as nat
    } else {
        0
    }
}

proof fn lemma_index_power(x: nat, s: nat)
    ensures
        index_power(x, s) == pow(x as int, s),
        index_power(x, s + 1) == x * index_power(x, s),
{
    if x > 0 {
        lemma_pow_positive(x as int, s);
    } else if s > 0 {
        lemma0_pow(s);
    } else {
        lemma_pow0(x as int);
    }
    if x > 0 {
        lemma_pow_positive(x as int, s + 1);
    } else {
        lemma0_pow(s + 1);
    }
    lemma_pow_adds(x as int, s, 1);
    lemma_pow1(x as int);
    lemma_mul_is_commutative(x as int, pow(x as int, s));
}

/// `prod_j comms[j]^(x^(j + s))`, the product written flat.
pub open spec fn flat_product(comms: Seq<u64>, x: nat, s: nat) -> int
    decreases comms.len(),
{
    if comms.len() == 0 {
        1
    } else {
        pow(comms[0] as int, index_power(x, s)) * flat_product(comms.drop_first(), x, s + 1)
    }
}

proof fn lemma_flat_product(comms: Seq<u64>, x: nat, s: nat)
    ensures
        pow(commitment_product(comms, x), index_power(x, s)) == flat_product(comms, x, s),
    decreases comms.len(),
{
    let e = index_power(x, s);
    if comms.len() == 0 {
        lemma1_pow(e);
    } else {
        let rest = comms.drop_first();
        let r = commitment_product(rest, x);
        lemma_flat_product(rest, x, s + 1);
        lemma_index_power(x, s);
        lemma_pow_distributes(comms[0] as int, pow(r, x), e);
        lemma_pow_multiplies(r, x, e);
    }
}

proof fn lemma_pow_nonzero_mod(a: int, e: nat, q: u64)
    requires
        is_prime(q as nat),
        a % (q as int) != 0,
    ensures
        pow(a, e) % (q as int) != 0,
    decreases e,
{
    if e == 0 {
        lemma_pow0(a);
        lemma_small_mod(1, q as nat);
    } else {
        lemma_pow_nonzero_mod(a, (e - 1) as nat, q);
        reveal(pow);
        if pow(a, e) % (q as int) == 0 {
            lemma_prime_no_zero_divisors(a, pow(a, (e - 1) as nat), q);
        }
    }
}

proof fn lemma_flat_product_nonzero(comms: Seq<u64>, x: nat, s: nat, q: u64)
    requires
        is_prime(q as nat),
        forall|j: int| 0 <= j < comms.len() ==> #[trigger] comms[j] % q != 0,
    ensures
        flat_product(comms, x, s) % (q as int) != 0,
    decreases comms.len(),
{
    if comms.len() == 0 {
        lemma_small_mod(1, q as nat);
    } else {
        let rest = comms.drop_first();
        assert forall|j: int| 0 <= j < rest.len() implies #[trigger] rest[j] % q != 0 by {
            assert(rest[j] == comms[j + 1]);
        }
        lemma_flat_product_nonzero(rest, x, s + 1, q);
        let a = pow(comms[0] as int, index_power(x, s));
        lemma_pow_nonzero_mod(comms[0] as int, index_power(x, s), q);
        if (a * flat_product(rest, x, s + 1)) % (q as int) == 0 {
            lemma_prime_no_zero_divisors(a, flat_product(rest, x, s + 1), q);
        }
    }
}

proof fn lemma_scaled_differ(a: int, u: int, v: int, q: u64)
    requires
        is_prime(q as nat),
        a % (q as int) != 0,
        u % (q as int) != v % (q as int),
    ensures
        (a * u) % (q as int) != (a * v) % (q as int),
{
    let qi = q as int;
    if (a * u) % qi == (a * v) % qi {
        lemma_sub_mod_noop(a * u, a * v, qi);
        lemma_mul_is_distributive_sub(a, u, v);
        lemma_small_mod(0, q as nat);
        lemma_prime_no_zero_divisors(a, u - v, q);
        lemma_mod_eq_of_diff(u, v, qi);
    }
}

proof fn lemma_flat_product_update(comms: Seq<u64>, x: nat, s: nat, q: u64, k: int, c2: u64)
    requires
        is_prime(q as nat),
        0 <= k < comms.len(),
        forall|j: int| 0 <= j < comms.len() ==> #[trigger] comms[j] % q != 0,
        pow(c2 as int, index_power(x, (k + s) as nat)) % (q as int) != pow(
            comms[k] as int,
            index_power(x, (k + s) as nat),
        ) % (q as int),
    ensures
        flat_product(comms.update(k, c2), x, s) % (q as int) != flat_product(comms, x, s) % (
        q as int),
    decreases k,
{
    let rest = comms.drop_first();
    let c2s = comms.update(k, c2);
    assert forall|j: int| 0 <= j < rest.len() implies #[trigger] rest[j] % q != 0 by {
        assert(rest[j] == comms[j + 1]);
    }
    if k == 0 {
        assert(c2s.drop_first() =~= rest);
        lemma_flat_product_nonzero(rest, x, s + 1, q);
        let f = flat_product(rest, x, s + 1);
        lemma_mul_is_commutative(f, pow(c2 as int, index_power(x, s)));
        lemma_mul_is_commutative(f, pow(comms[0] as int, index_power(x, s)));
        lemma_scaled_differ(
            f,
            pow(c2 as int, index_power(x, s)),
            pow(comms[0] as int, index_power(x, s)),
            q,
        );
    } else {
        assert(c2s.drop_first() =~= rest.update(k - 1, c2));
        assert(rest[k - 1] == comms[k]);
        lemma_flat_product_update(rest, x, s + 1, q, k - 1, c2);
        lemma_pow_nonzero_mod(comms[0] as int, index_power(x, s), q);
        lemma_scaled_differ(
            pow(comms[0] as int, index_power(x, s)),
            flat_product(rest.update(k - 1, c2), x, s + 1),
            flat_product(rest, x, s + 1),
            q,
        );
    }
}

/// A share that verifies against the commitments no longer verifies once
/// one entry `k` is replaced by `c2`, whenever the replaced term itself
/// changes modulo the prime `q` (`c2^(x^k) != comms[k]^(x^k) mod q`, which
/// a random `c2` meets with overwhelming probability) and no commitment is
/// zero modulo `q`.
pub proof fn lemma_mutated_commitment_rejects(
    x: u64,
    y: u64,
    comms: Seq<u64>,
    g: u64,
    q: u64,
    k: int,
    c2: u64,
)
    requires
        is_prime(q as nat),
        share_verifies(x, y, comms, g, q),
        0 <= k < comms.len(),
        forall|j: int| 0 <= j < comms.len() ==> #[trigger] comms[j] % q != 0,
        pow(c2 as int, index_power(x as nat, k as nat)) % (q as int) != pow(
            comms[k] as int,
            index_power(x as nat, k as nat),
        ) % (q as int),
    ensures
        !share_verifies(x, y, comms.update(k, c2), g, q),
{
    let xn = x as nat;
    lemma_flat_product(comms, xn, 0);
    lemma_flat_product(comms.update(k, c2), xn, 0);
    lemma_index_power(xn, 0);
    lemma_pow0(x as int);
    lemma_pow1(commitment_product(comms, xn));
    lemma_pow1(commitment_product(comms.update(k, c2), xn));
    lemma_flat_product_update(comms, xn, 0, q, k, c2);
}


/// `prod_j comms[j]^(x^j)` over numbers of any size, in the same nested
/// form as `commitment_product`.
pub open spec fn wide_commitment_product(comms: Seq<BigNat>, x: nat) -> int
    decreases comms.len(),
{
    if comms.len() == 0 {
        1
    } else {
        comms[0]@ * pow(wide_commitment_product(comms.drop_first(), x), x)
    }
}

/// `verify_share` over numbers of any size: checks `g^share mod q`
/// against `prod_j commitments[j]^(i^j) mod q`, the exponent `i^j` being
/// the integer power of the index.
pub fn verify_share_wide(
    i: &BigNat,
    share: &BigNat,
    commitments: &[BigNat],
    g: &BigNat,
    q: &BigNat,
) -> (r: bool)
    requires
        q@ >= 1,
    ensures
        r == (pow(g@ as int, share@) % (q@ as int) == wide_commitment_product(commitments@, i@) % (
        q@ as int)),
{
    let qi = Ghost(q@ as int);
    let lhs = big_modpow(g, share, q);
    let t = commitments.len();
    let one = BigNat::from_u64(1);
    let mut rhs = big_rem(&one, q);
    let mut j: usize = t;
    proof {
        assert(commitments@.subrange(t as int, t as int).len() == 0);
    }
    while j > 0
        invariant
            qi@ == q@ as int,
            qi@ >= 1,
            t == commitments@.len(),
            j <= t,
            rhs@ == wide_commitment_product(commitments@.subrange(j as int, t as int), i@) % qi@,
        decreases j,
    {
        j = j - 1;
        let ghost prev = wide_commitment_product(commitments@.subrange(j + 1, t as int), i@);
        let raised = big_modpow(&rhs, i, q);
        let prod = big_mul(&raised, &commitments[j]);
        proof {
            let s = commitments@.subrange(j as int, t as int);
            let cj = commitments@[j as int]@ as int;
            assert(s.drop_first() =~= commitments@.subrange(j + 1, t as int));
            assert(wide_commitment_product(s, i@) == cj * pow(prev, i@));
            lemma_pow_mod_noop(prev, i@, qi@);
            lemma_mul_mod_noop_left(pow(prev, i@), cj, qi@);
            lemma_mul_is_commutative(pow(prev, i@), cj);
        }
        rhs = big_rem(&prod, q);
    }
    proof {
        assert(commitments@.subrange(0, t as int) =~= commitments@);
    }
    big_eq(&lhs, &rhs)
}


/// `c[0] + c[1] * x + c[2] * x^2 + ...` over numbers of any size.
pub open spec fn wide_poly_eval(c: Seq<BigNat>, x: int) -> int
    decreases c.len(),
{
    if c.len() == 0 {
        0
    } else {
        c[0]@ + x * wide_poly_eval(c.drop_first(), x)
    }
}

/// `evaluate` over numbers of any size: Horner evaluation of the
/// coefficients (constant first) at `x`, reduced modulo `q` at each step.
pub fn evaluate_wide(coefficients: &[BigNat], x: &BigNat, q: &BigNat) -> (r: BigNat)
    requires
        q@ >= 1,
    ensures
        r@ == wide_poly_eval(coefficients@, x@ as int) % (q@ as int),
{
    let qi = Ghost(q@ as int);
    let n = coefficients.len();
    let zero = BigNat::from_u64(0);
    let mut acc = big_rem(&zero, q);
    let mut i: usize = n;
    proof {
        assert(coefficients@.subrange(n as int, n as int).len() == 0);
    }
    while i > 0
        invariant
            qi@ == q@ as int,
            qi@ >= 1,
            n == coefficients@.len(),
            i <= n,
            acc@ == wide_poly_eval(coefficients@.subrange(i as int, n as int), x@ as int) % qi@,
        decreases i,
    {
        i = i - 1;
        let ghost tail = wide_poly_eval(coefficients@.subrange(i + 1, n as int), x@ as int);
        let prod = big_mul(&acc, x);
        let sum = big_add(&prod, &coefficients[i]);
        proof {
            let s = coefficients@.subrange(i as int, n as int);
            let ci = coefficients@[i as int]@ as int;
            assert(s.drop_first() =~= coefficients@.subrange(i + 1, n as int));
            assert(wide_poly_eval(s, x@ as int) == ci + x@ * tail);
            lemma_mul_mod_noop_left(tail, x@ as int, qi@);
            lemma_mul_is_commutative(tail, x@ as int);
            lemma_add_mod_noop(x@ * tail, ci, qi@);
            lemma_add_mod_noop((tail % qi@) * x@, ci, qi@);
        }
        acc = big_rem(&sum, q);
    }
    proof {
        assert(coefficients@.subrange(0, n as int) =~= coefficients@);
    }
    acc
}

/// `generate_commitments` over numbers of any size:
/// `[g^c_0 mod q, ..., g^c_(t-1) mod q]`.
pub fn generate_commitments_wide(coefficients: &[BigNat], g: &BigNat, q: &BigNat) -> (r: Vec<
    BigNat,
>)
    requires
        q@ >= 1,
    ensures
        r@.len() == coefficients@.len(),
        forall|j: int|
            0 <= j < coefficients@.len() ==> #[trigger] r@[j]@ == pow(g@ as int, coefficients@[j]@)
                % (q@ as int),
{
    let mut comms: Vec<BigNat> = Vec::new();
    let mut j: usize = 0;
    while j < coefficients.len()
        invariant
            q@ >= 1,
            j <= coefficients@.len(),
            comms@.len() == j,
            forall|k: int|
                0 <= k < j ==> #[trigger] comms@[k]@ == pow(g@ as int, coefficients@[k]@) % (
                q@ as int),
        decreases coefficients.len() - j,
    {
        comms.push(big_modpow(g, &coefficients[j], q));
        j = j + 1;
    }
    comms
}

/// `distribute_shares` over numbers of any size: the shares
/// `(i, f(i) mod q)` for `i = 1..=num_shares`, whose indices are distinct
/// and nonzero modulo `q` when `num_shares < q`; otherwise
/// `DuplicateShareIndex`.
pub fn distribute_shares_wide(coefficients: &[BigNat], num_shares: u64, q: &BigNat) -> (r: Result<
    Vec<(BigNat, BigNat)>,
    VssError,
>)
    requires
        q@ >= 1,
    ensures
        r.is_ok() == (num_shares < q@),
        r matches Err(e) ==> e == VssError::DuplicateShareIndex,
        r matches Ok(s) ==> s@.len() == num_shares && forall|k: int|
            0 <= k < num_shares ==> (#[trigger] s@[k]).0@ == k + 1 && s@[k].1@ == wide_poly_eval(
                coefficients@,
                k + 1,
            ) % (q@ as int),
{
    let n = BigNat::from_u64(num_shares);
    let reduced = big_rem(&n, q);
    proof {
        if num_shares < q@ {
            lemma_small_mod(num_shares as nat, q@);
        }
    }
    if !big_eq(&reduced, &n) {
        return Err(VssError::DuplicateShareIndex);
    }
    proof {
        if num_shares >= q@ {
            if num_shares == q@ {
                lemma_mod_self_0(q@ as int);
            } else {
                lemma_mod_bound(num_shares as int, q@ as int);
            }
        } else {
            lemma_small_mod(num_shares as nat, q@);
        }
    }
    let mut shares: Vec<(BigNat, BigNat)> = Vec::new();
    let mut k: u64 = 0;
    while k < num_shares
        invariant
            q@ >= 1,
            num_shares < q@,
            k <= num_shares,
            shares@.len() == k,
            forall|m: int|
                0 <= m < k ==> (#[trigger] shares@[m]).0@ == m + 1 && shares@[m].1@ == wide_poly_eval(
                    coefficients@,
                    m + 1,
                ) % (q@ as int),
        decreases num_shares - k,
    {
        let x = BigNat::from_u64(k + 1);
        let y = evaluate_wide(coefficients, &x, q);
        shares.push((x, y));
        k = k + 1;
    }
    assert forall|m: int| 0 <= m < num_shares implies (#[trigger] shares@[m]).0@ == m + 1
        && shares@[m].1@ == wide_poly_eval(coefficients@, m + 1) % (q@ as int) by {}
    Ok(shares)
}


proof fn lemma_wide_poly_eval_nonneg(c: Seq<BigNat>, x: nat)
    ensures
        wide_poly_eval(c, x as int) >= 0,
    decreases c.len(),
{
    if c.len() > 0 {
        lemma_wide_poly_eval_nonneg(c.drop_first(), x);
        lemma_mul_nonnegative(x as int, wide_poly_eval(c.drop_first(), x as int));
    }
}

/// Over numbers of any size, the commitments to a polynomial combine at
/// any index `x` into a commitment to its value there:
/// `prod_j (g^c_j)^(x^j) == g^f(x) (mod q)`. So a dealt share
/// `(x, f(x) mod q)` passes `verify_share_wide` whenever `f(x) < q`.
pub proof fn lemma_wide_commitments_evaluate(
    comms: Seq<BigNat>,
    c: Seq<BigNat>,
    g: nat,
    q: nat,
    x: nat,
)
    requires
        q >= 1,
        comms.len() == c.len(),
        forall|j: int| 0 <= j < c.len() ==> #[trigger] comms[j]@ == pow(g as int, c[j]@) % (q as int),
    ensures
        wide_commitment_product(comms, x) % (q as int) == pow(
            g as int,
            wide_poly_eval(c, x as int) as nat,
        ) % (q as int),
    decreases c.len(),
{
    let qi = q as int;
    let gi = g as int;
    if c.len() == 0 {
        lemma_pow0(gi);
    } else {
        let rest = comms.drop_first();
        let crest = c.drop_first();
        assert forall|j: int| 0 <= j < crest.len() implies #[trigger] rest[j]@ == pow(
            gi,
            crest[j]@,
        ) % qi by {
            assert(rest[j] == comms[j + 1]);
        }
        lemma_wide_commitments_evaluate(rest, crest, g, q, x);
        let r = wide_commitment_product(rest, x);
        let e = wide_poly_eval(crest, x as int);
        lemma_wide_poly_eval_nonneg(crest, x);
        let c0 = c[0]@;
        lemma_pow_mod_noop(r, x, qi);
        lemma_pow_mod_noop(pow(gi, e as nat), x, qi);
        lemma_pow_multiplies(gi, e as nat, x);
        lemma_mul_mod_noop_right(comms[0]@ as int, pow(r, x), qi);
        lemma_mul_mod_noop_right(comms[0]@ as int, pow(gi, (e * x) as nat), qi);
        lemma_mul_mod_noop_left(pow(gi, c0), pow(gi, (e * x) as nat), qi);
        lemma_pow_adds(gi, c0, (e * x) as nat);
        lemma_mul_is_commutative(e, x as int);
        lemma_mul_nonnegative(e, x as int);
    }
}


/// `lagrange_numerator` over numbers of any size.
pub open spec fn wide_lagrange_numerator(pts: Seq<(BigNat, BigNat)>, i: int, k: int) -> int
    decreases k,
{
    if k <= 0 {
        1
    } else if k - 1 == i {
        wide_lagrange_numerator(pts, i, k - 1)
    } else {
        wide_lagrange_numerator(pts, i, k - 1) * (0 - pts[k - 1].0@)
    }
}

/// `lagrange_denominator` over numbers of any size.
pub open spec fn wide_lagrange_denominator(pts: Seq<(BigNat, BigNat)>, i: int, k: int) -> int
    decreases k,
{
    if k <= 0 {
        1
    } else if k - 1 == i {
        wide_lagrange_denominator(pts, i, k - 1)
    } else {
        wide_lagrange_denominator(pts, i, k - 1) * (pts[i].0@ - pts[k - 1].0@)
    }
}

/// `interpolable` over numbers of any size.
pub open spec fn wide_interpolable(pts: Seq<(BigNat, BigNat)>, m: nat) -> bool {
    forall|i: int|
        0 <= i < pts.len() ==> gcd(
            (#[trigger] wide_lagrange_denominator(pts, i, pts.len() as int) % (m as int)) as nat,
            m,
        ) == 1
}

/// `lagrange_sum` over numbers of any size.
pub open spec fn wide_lagrange_sum(pts: Seq<(BigNat, BigNat)>, m: nat, k: int) -> int
    decreases k,
{
    if k <= 0 {
        0
    } else {
        let n = pts.len() as int;
        wide_lagrange_sum(pts, m, k - 1) + pts[k - 1].1@ * wide_lagrange_numerator(pts, k - 1, n)
            * inverse_mod(wide_lagrange_denominator(pts, k - 1, n) % (m as int), m as int)
    }
}

/// `lagrange_interpolation_zero` over numbers of any size.
pub fn lagrange_interpolation_zero_wide(points: &[(BigNat, BigNat)], modulus: &BigNat) -> (r:
    Option<BigNat>)
    requires
        modulus@ >= 1,
    ensures
        r.is_some() == wide_interpolable(points@, modulus@),
        r matches Some(v) ==> v@ == wide_lagrange_sum(points@, modulus@, points@.len() as int) % (
        modulus@ as int),
{
    let pts = Ghost(points@);
    let mi = Ghost(modulus@ as int);
    let n = points.len();
    let zero = BigNat::from_u64(0);
    let one = BigNat::from_u64(1);
    let mut secret = big_rem(&zero, modulus);
    let mut i: usize = 0;
    proof {
        lemma_small_mod(0, modulus@);
    }
    while i < n
        invariant
            pts@ == points@,
            n == points@.len(),
            mi@ == modulus@ as int,
            mi@ >= 1,
            one@ == 1,
            i <= n,
            secret@ == wide_lagrange_sum(pts@, modulus@, i as int) % mi@,
            forall|k: int|
                0 <= k < i ==> gcd(
                    (#[trigger] wide_lagrange_denominator(pts@, k, n as int) % mi@) as nat,
                    modulus@,
                ) == 1,
        decreases n - i,
    {
        let x_i = &points[i].0;
        let y_i = &points[i].1;
        let mut numerator = big_rem(&one, modulus);
        let mut denominator = big_rem(&one, modulus);
        let xim = big_rem(x_i, modulus);
        let mut j: usize = 0;
        while j < n
            invariant
                pts@ == points@,
                n == points@.len(),
                mi@ == modulus@ as int,
                mi@ >= 1,
                i < n,
                x_i@ == points@[i as int].0@,
                xim@ == x_i@ % modulus@,
                j <= n,
                numerator@ == wide_lagrange_numerator(pts@, i as int, j as int) % mi@,
                denominator@ == wide_lagrange_denominator(pts@, i as int, j as int) % mi@,
            decreases n - j,
        {
            if i != j {
                let xjm = big_rem(&points[j].0, modulus);
                let ghost xj = points@[j as int].0@ as int;
                proof {
                    lemma_mod_bound(xj, mi@);
                }
                let neg = big_rem(&big_sub(modulus, &xjm), modulus);
                let diff = big_rem(&big_sub(&big_add(&xim, modulus), &xjm), modulus);
                proof {
                    lemma_diff_mod(0, xj, mi@);
                    lemma_small_mod(0, modulus@);
                    lemma_diff_mod(x_i@ as int, xj, mi@);
                    lemma_mul_step_mod(
                        numerator@ as int,
                        wide_lagrange_numerator(pts@, i as int, j as int),
                        0 - xj,
                        neg@ as int,
                        mi@,
                    );
                    lemma_mul_step_mod(
                        denominator@ as int,
                        wide_lagrange_denominator(pts@, i as int, j as int),
                        x_i@ - xj,
                        diff@ as int,
                        mi@,
                    );
                }
                numerator = big_rem(&big_mul(&numerator, &neg), modulus);
                denominator = big_rem(&big_mul(&denominator, &diff), modulus);
            }
            j = j + 1;
        }
        let ghost num = wide_lagrange_numerator(pts@, i as int, n as int);
        let ghost inv_s = inverse_mod(
            wide_lagrange_denominator(pts@, i as int, n as int) % mi@,
            mi@,
        );
        proof {
            lemma_mod_bound(wide_lagrange_denominator(pts@, i as int, n as int), mi@);
        }
        let inv = match mod_inv_wide(&denominator, modulus) {
            Some(v) => v,
            None => {
                return None;
            },
        };
        let yn = big_rem(&big_mul(&big_rem(y_i, modulus), &numerator), modulus);
        proof {
            lemma_mul_mod_noop(y_i@ as int, num, mi@);
            lemma_small_mod(inv@, modulus@);
            lemma_mul_step_mod(yn@ as int, y_i@ * num, inv_s, inv@ as int, mi@);
            let term = y_i@ * num * inv_s;
            lemma_add_mod_noop(wide_lagrange_sum(pts@, modulus@, i as int), term, mi@);
            lemma_mod_twice(term, mi@);
        }
        let term = big_rem(&big_mul(&yn, &inv), modulus);
        secret = big_rem(&big_add(&secret, &term), modulus);
        i = i + 1;
    }
    Some(secret)
}


/// Two of the points share an index modulo `m`, over numbers of any size.
pub open spec fn wide_has_duplicate_index(pts: Seq<(BigNat, BigNat)>, m: nat) -> bool {
    exists|a: int, b: int|
        0 <= a < b < pts.len() && #[trigger] (pts[a].0@ % m) == #[trigger] (pts[b].0@ % m)
}

fn find_duplicate_index_wide(shares: &[(BigNat, BigNat)], modulus: &BigNat) -> (r: bool)
    requires
        modulus@ >= 1,
    ensures
        r == wide_has_duplicate_index(shares@, modulus@),
{
    let n = shares.len();
    let mut a: usize = 0;
    while a < n
        invariant
            n == shares@.len(),
            modulus@ >= 1,
            a <= n,
            forall|p: int, b: int|
                0 <= p < a && p < b < n ==> #[trigger] (shares@[p].0@ % modulus@) != #[trigger] (
                shares@[b].0@ % modulus@),
        decreases n - a,
    {
        let xa = big_rem(&shares[a].0, modulus);
        let mut b: usize = a + 1;
        while b < n
            invariant
                n == shares@.len(),
                modulus@ >= 1,
                a < n,
                a + 1 <= b <= n,
                xa@ == shares@[a as int].0@ % modulus@,
                forall|p: int, c: int|
                    0 <= p < a && p < c < n ==> #[trigger] (shares@[p].0@ % modulus@) != #[trigger] (
                    shares@[c].0@ % modulus@),
                forall|c: int|
                    a < c < b ==> (shares@[a as int].0@ % modulus@) != #[trigger] (shares@[c].0@
                        % modulus@),
            decreases n - b,
        {
            let xb = big_rem(&shares[b].0, modulus);
            if big_eq(&xa, &xb) {
                return true;
            }
            b = b + 1;
        }
        a = a + 1;
    }
    false
}

/// `reconstruct_secret` over numbers of any size: `InsufficientShares`
/// when fewer than `threshold` shares are given, `DuplicateShareIndex`
/// when two indices agree modulo `modulus`, `InverseUndefined` when a
/// Lagrange denominator has no inverse, and otherwise the interpolated
/// value at zero.
pub fn reconstruct_secret_wide(shares: &[(BigNat, BigNat)], threshold: usize, modulus: &BigNat) -> (r:
    Result<BigNat, VssError>)
    requires
        modulus@ >= 1,
        threshold >= 1,
    ensures
        (r matches Err(e) && e == VssError::InsufficientShares) == (shares@.len() < threshold),
        shares@.len() >= threshold ==> ((r matches Err(e) && e == VssError::DuplicateShareIndex)
            == wide_has_duplicate_index(shares@, modulus@)),
        shares@.len() >= threshold && !wide_has_duplicate_index(shares@, modulus@) ==> ((r matches Err(
            e,
        ) && e == VssError::InverseUndefined) == !wide_interpolable(shares@, modulus@)),
        r matches Ok(v) ==> shares@.len() >= threshold && !wide_has_duplicate_index(
            shares@,
            modulus@,
        ) && wide_interpolable(shares@, modulus@) && v@ == wide_lagrange_sum(
            shares@,
            modulus@,
            shares@.len() as int,
        ) % (modulus@ as int),
{
    if shares.len() < threshold {
        return Err(VssError::InsufficientShares);
    }
    if find_duplicate_index_wide(shares, modulus) {
        return Err(VssError::DuplicateShareIndex);
    }
    match lagrange_interpolation_zero_wide(shares, modulus) {
        Some(v) => Ok(v),
        None => Err(VssError::InverseUndefined),
    }
}


/// Relies on num-bigint's `RandBigInt::gen_biguint_range` over rand's
/// `thread_rng`: a value drawn from `[low, high)`; it panics on an empty
/// range.
#[verifier::external_body]
fn random_in_range_wide(low: &BigNat, high: &BigNat) -> (r: BigNat)
    requires
        low@ < high@,
    ensures
        low@ <= r@ < high@,
{
    let l = num_bigint::BigUint::new(low.limbs.clone());
    let h = num_bigint::BigUint::new(high.limbs.clone());
    let mut rng = rand::thread_rng();
    let r = num_bigint::RandBigInt::gen_biguint_range(&mut rng, &l, &h);
    BigNat { limbs: r.to_u32_digits() }
}

/// `generate_shares` over numbers of any size: deals `num_shares` shares
/// of `secret` with a fresh random polynomial of `threshold` coefficients,
/// the constant term `secret` and the others drawn from `[1, q)`, and
/// returns them with the commitments to that polynomial. As with
/// `generate_shares`, a dealt share passes `verify_share_wide` whenever
/// the polynomial's value at its index is below `q`
/// (`lemma_wide_commitments_evaluate`).
pub fn generate_shares_wide(
    secret: &BigNat,
    threshold: usize,
    num_shares: u64,
    g: &BigNat,
    q: &BigNat,
) -> (r: Result<(Vec<(BigNat, BigNat)>, Vec<BigNat>), VssError>)
    requires
        q@ >= 2,
        threshold >= 1,
    ensures
        r.is_ok() == (num_shares < q@),
        r matches Err(e) ==> e == VssError::DuplicateShareIndex,
        r matches Ok(p) ==> exists|c: Seq<BigNat>|
            {
                &&& c.len() == threshold
                &&& c[0]@ == secret@
                &&& forall|j: int| 1 <= j < threshold ==> 1 <= #[trigger] c[j]@ < q@
                &&& p.0@.len() == num_shares
                &&& forall|k: int|
                    0 <= k < num_shares ==> (#[trigger] p.0@[k]).0@ == k + 1 && p.0@[k].1@
                        == wide_poly_eval(c, k + 1) % (q@ as int)
                &&& p.1@.len() == threshold
                &&& forall|j: int|
                    0 <= j < threshold ==> #[trigger] p.1@[j]@ == pow(g@ as int, c[j]@) % (
                    q@ as int)
            },
{
    let zero = BigNat::from_u64(0);
    let one = BigNat::from_u64(1);
    let mut coefficients: Vec<BigNat> = Vec::new();
    coefficients.push(big_add(secret, &zero));
    let mut k: usize = 1;
    while k < threshold
        invariant
            1 <= k <= threshold,
            q@ >= 2,
            one@ == 1,
            coefficients@.len() == k,
            coefficients@[0]@ == secret@,
            forall|j: int| 1 <= j < k ==> 1 <= #[trigger] coefficients@[j]@ < q@,
        decreases threshold - k,
    {
        coefficients.push(random_in_range_wide(&one, q));
        k = k + 1;
    }
    match distribute_shares_wide(&coefficients, num_shares, q) {
        Err(e) => Err(e),
        Ok(shares) => {
            let comms = generate_commitments_wide(&coefficients, g, q);
            Ok((shares, comms))
        },
    }
}

} // verus!
