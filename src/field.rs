//! Modular arithmetic: exponentiation, extended Euclid, inverses, primes.
use vstd::arithmetic::div_mod::*;
use vstd::arithmetic::mul::*;
use vstd::arithmetic::power::*;
use vstd::arithmetic::power2::*;
use crate::bignum::{big_add, big_div, big_eq, big_modpow, big_mul, big_rem, big_sub, BigNat};
use crate::error::VssError;
use num_prime::RandPrime;
use vstd::prelude::*;

verus! {

proof fn lemma_pow_square_step(b: int, e: nat, m: int)
    requires
        m > 0,
    ensures
        e % 2 == 0 ==> pow(b, e) % m == pow((b * b) % m, e / 2) % m,
        e % 2 == 1 ==> pow(b, e) % m == (b * pow((b * b) % m, e / 2)) % m,
{
    let h = (e / 2) as nat;
    lemma_pow_multiplies(b, 2, h);
    lemma_square_is_pow2(b);
    assert(pow(b, 2) == b * b) by {
        reveal(pow);
        lemma_pow1(b);
    }
    lemma_pow_mod_noop(b * b, h, m);
    if e % 2 == 0 {
        assert(e == 2 * h);
    } else {
        assert(e == 2 * h + 1);
        lemma_pow_adds(b, 2 * h, 1);
        lemma_pow1(b);
        lemma_mul_is_commutative(pow(b, 2 * h), b);
        lemma_mul_mod_noop_right(b, pow(b * b, h), m);
        lemma_mul_mod_noop_right(b, pow((b * b) % m, h), m);
        lemma_mod_twice(pow(b * b, h), m);
    }
}

/// Computes `base^exponent mod modulus` by square-and-multiply; every
/// intermediate value stays below the modulus.
pub fn mod_exp(base: u64, exponent: u64, modulus: u64) -> (r: u64)
    requires
        modulus >= 1,
    ensures
        r == pow(base as int, exponent as nat) % (modulus as int),
{
    let m: u128 = modulus as u128;
    let mut result: u128 = 1u128 % m;
    let mut b: u128 = (base as u128) % m;
    let mut e: u64 = exponent;
    proof {
        lemma_pow_mod_noop(base as int, exponent as nat, m as int);
        lemma_mul_basics(pow(b as int, e as nat));
        lemma_mul_mod_noop_left(1, pow(b as int, e as nat), m as int);
    }
    while e > 0
        invariant
            m == modulus as u128,
            m >= 1,
            result < m,
            b < m,
            (result * pow(b as int, e as nat)) % (m as int) == pow(base as int, exponent as nat)
                % (m as int),
        decreases e,
    {
        let ghost old_r = result as int;
        let ghost old_b = b as int;
        let ghost old_e = e as nat;
        assert(b * b < m * m) by (nonlinear_arith)
            requires
                b < m,
        ;
        assert(m * m <= 0xffff_ffff_ffff_ffff_ffff_ffff_ffff_ffffu128) by (nonlinear_arith)
            requires
                m <= 0xffff_ffff_ffff_ffffu128,
        ;
        let next_b = (b * b) % m;
        proof {
            lemma_pow_square_step(old_b, old_e, m as int);
        }
        if e % 2 == 1 {
            assert(result * b < m * m) by (nonlinear_arith)
                requires
                    b < m,
                    result < m,
            ;
            result = (result * b) % m;
            proof {
                let p = pow(next_b as int, (old_e / 2) as nat);
                // (old_r * pow(old_b, old_e)) % m == (old_r * ((old_b * p) % m)) % m
                lemma_mul_mod_noop_right(old_r, pow(old_b, old_e), m as int);
                lemma_mul_mod_noop_right(old_r, old_b * p, m as int);
                lemma_mul_is_associative(old_r, old_b, p);
                lemma_mul_mod_noop_left(old_r * old_b, p, m as int);
            }
        } else {
            proof {
                lemma_mul_mod_noop_right(old_r, pow(old_b, old_e), m as int);
                lemma_mul_mod_noop_right(old_r, pow(next_b as int, (old_e / 2) as nat), m as int);
            }
        }
        b = next_b;
        e = e / 2;
    }
    proof {
        lemma_pow0(b as int);
        lemma_small_mod(result as nat, m as nat);
    }
    result as u64
}


/// Greatest common divisor, by Euclid's recursion (`gcd(0, b) == b`).
pub open spec fn gcd(a: nat, b: nat) -> nat
    decreases a,
{
    if a == 0 {
        b
    } else {
        gcd(b % a, a)
    }
}

/// Absolute value of an integer.
pub open spec fn abs(x: int) -> int {
    if x < 0 {
        -x
    } else {
        x
    }
}

/// Larger of two integers.
pub open spec fn max(x: int, y: int) -> int {
    if x < y {
        y
    } else {
        x
    }
}

/// Extended Euclidean algorithm: returns `(g, x, y)` with `g == gcd(a, b)`
/// and `a * x + b * y == g`. The coefficients are bounded by the inputs, so
/// they always fit in an `i128`.
pub fn egcd(a: u64, b: u64) -> (r: (u64, i128, i128))
    ensures
        r.0 == gcd(a as nat, b as nat),
        a * r.1 + b * r.2 == r.0,
        abs(r.1 as int) <= max(b as int, 1),
        abs(r.2 as int) <= max(a as int, 1),
        a == 0 ==> r.1 == 0 && r.2 == 1,
    decreases a,
{
    if a == 0 {
        assert(a * 0 + b * 1 == b);
        (b, 0, 1)
    } else {
        let (g, x, y) = egcd(b % a, a);
        let q: u64 = b / a;
        proof {
            lemma_fundamental_div_mod(b as int, a as int);
            assert(abs(x as int) <= a);
            assert(abs(q * x) <= q * a) by (nonlinear_arith)
                requires
                    abs(x as int) <= a,
                    q >= 0,
            ;
            assert(q * a <= b) by (nonlinear_arith)
                requires
                    b == a * q + b % a,
                    b % a >= 0,
            ;
        }
        let qx: i128 = (q as i128) * x;
        let nx: i128 = y - qx;
        proof {
            let rem = (b % a) as int;
            assert(rem * x + a * y == g);
            assert(a * nx + b * x == g) by (nonlinear_arith)
                requires
                    b == a * q + rem,
                    rem * x + a * y == g,
                    nx == y - q * x,
            ;
            if rem == 0 {
                assert(x == 0 && y == 1);
            } else {
                assert(abs(y as int) <= rem);
                assert(q * a + rem == b) by (nonlinear_arith)
                    requires
                        b == a * q + rem,
                ;
                assert(abs(nx as int) <= b);
            }
        }
        (g, nx, x)
    }
}

/// The inverse of `a` modulo `m`: the value `x` in `[0, m)` with
/// `a * x == 1 (mod m)`, where one exists.
pub open spec fn inverse_mod(a: int, m: int) -> int {
    choose|x: int| is_inverse(a, m, x)
}

/// `x` lies in `[0, m)` and `a * x == 1 (mod m)`.
pub open spec fn is_inverse(a: int, m: int, x: int) -> bool {
    0 <= x < m && (a * x) % m == 1int % m
}

/// An inverse modulo `m` is unique in `[0, m)`.
pub proof fn lemma_inverse_unique(a: int, m: int, x: int, y: int)
    requires
        m >= 1,
        0 <= x < m,
        0 <= y < m,
        (a * x) % m == 1int % m,
        (a * y) % m == 1int % m,
    ensures
        x == y,
{
    if m > 1 {
        lemma_small_mod(1, m as nat);
        lemma_mul_mod_noop_right(x, a * y, m);
        lemma_mul_mod_noop_right(y, a * x, m);
        lemma_small_mod(x as nat, m as nat);
        lemma_small_mod(y as nat, m as nat);
        assert(x * (a * y) == y * (a * x)) by (nonlinear_arith);
    }
}

/// Once a value in `[0, m)` inverts `a`, it is `inverse_mod(a, m)`.
pub proof fn lemma_inverse_is_chosen(a: int, m: int, x: int)
    requires
        m >= 1,
        0 <= x < m,
        (a * x) % m == 1int % m,
    ensures
        inverse_mod(a, m) == x,
{
    let w = inverse_mod(a, m);
    assert(is_inverse(a, m, x));
    assert(0 <= w < m && (a * w) % m == 1int % m);
    lemma_inverse_unique(a, m, w, x);
}

/// Inverse of `a` modulo `m`, defined exactly when `gcd(a, m) == 1`.
pub fn mod_inv(a: u64, m: u64) -> (r: Option<u64>)
    requires
        m >= 1,
    ensures
        r.is_some() == (gcd(a as nat, m as nat) == 1),
        r matches Some(v) ==> v < m && (a * v) % (m as int) == 1int % (m as int),
        r matches Some(v) ==> v == inverse_mod(a as int, m as int),
{
    let (g, x, y) = egcd(a, m);
    if g == 1 {
        let mm: u128 = m as u128;
        let v: u64 = if x >= 0 {
            ((x as u128) % mm) as u64
        } else {
            let t: u128 = ((-x) as u128) % mm;
            if t == 0 {
                0
            } else {
                (mm - t) as u64
            }
        };
        proof {
            let mi = m as int;
            if x < 0 {
                let t = (-x) % mi;
                let k = (-x) / mi;
                lemma_fundamental_div_mod(-x, mi);
                if t == 0 {
                    assert(x == mi * (-k)) by (nonlinear_arith)
                        requires
                            -x == mi * k + t,
                            t == 0,
                    ;
                    lemma_mod_multiples_basic(-k, mi);
                    lemma_mul_is_commutative(-k, mi);
                } else {
                    assert(x == mi * (-k - 1) + (mi - t)) by (nonlinear_arith)
                        requires
                            -x == mi * k + t,
                    ;
                    lemma_mod_multiples_vanish(-k - 1, mi - t, mi);
                    lemma_small_mod((mi - t) as nat, mi as nat);
                }
            }
            assert(v == (x as int) % mi);
            lemma_mul_mod_noop_right(a as int, x as int, mi);
            assert(a * x == mi * (-y) + 1) by (nonlinear_arith)
                requires
                    a * x + m * y == 1,
                    mi == m,
            ;
            lemma_mod_multiples_vanish(-y as int, 1, mi);
            lemma_inverse_is_chosen(a as int, mi, v as int);
        }
        Some(v)
    } else {
        None
    }
}


/// `d` divides `n`.
pub open spec fn divides(d: nat, n: nat) -> bool {
    d != 0 && n % d == 0
}

/// `n` is a prime number.
pub open spec fn is_prime(n: nat) -> bool {
    n >= 2 && forall|d: nat| 2 <= d < n ==> !#[trigger] divides(d, n)
}

/// Relies on num_prime's `RandPrime::gen_prime_exact` for `u64`, fed by
/// rand's `thread_rng`: it sets the top bit of a random `bit_size`-bit
/// candidate and returns it, or the next prime above it, once a
/// deterministic test below 2^64 accepts it; so the result is a prime of at
/// least `2^(bit_size - 1)`. It panics when `bit_size` is 0 or above 64.
#[verifier::external_body]
fn random_prime(bit_size: usize) -> (r: u64)
    requires
        1 <= bit_size <= 64,
    ensures
        is_prime(r as nat),
        pow2((bit_size - 1) as nat) <= r,
{
    rand::thread_rng().gen_prime_exact(bit_size, None)
}

/// How many candidates `generate_prime` draws before it gives up.
pub const PRIME_ATTEMPTS: usize = 64;

/// `2^bits`, for `bits <= 64`.
fn power_of_two(bits: usize) -> (r: u128)
    requires
        bits <= 64,
    ensures
        r == pow2(bits as nat),
{
    let mut r: u128 = 1;
    let mut i: usize = 0;
    proof {
        lemma_pow2(0);
        lemma_pow0(2);
    }
    while i < bits
        invariant
            i <= bits <= 64,
            r == pow2(i as nat),
        decreases bits - i,
    {
        proof {
            lemma_pow2_unfold((i + 1) as nat);
            if i + 1 < 64 {
                lemma_pow2_strictly_increases((i + 1) as nat, 64);
            }
            lemma2_to64_rest();
            assert(pow2((i + 1) as nat) <= 0x1_0000_0000_0000_0000);
        }
        r = r * 2;
        i = i + 1;
    }
    r
}

/// Draws a random prime of exactly `bit_size` bits:
/// `2^(bit_size - 1) <= p < 2^bit_size`. Each attempt takes a random
/// `bit_size`-bit candidate with its top bit set and moves up to the next
/// prime, which may overshoot into `bit_size + 1` bits; such a prime is
/// discarded and another drawn. After `PRIME_ATTEMPTS` discarded draws, or
/// for a size of 0 or above 64 bits, the outcome is
/// `PrimeGenerationFailed`: no prime of another size is ever handed back.
pub fn generate_prime(bit_size: usize) -> (r: Result<u64, VssError>)
    ensures
        !(1 <= bit_size <= 64) ==> r == Err::<u64, VssError>(VssError::PrimeGenerationFailed),
        r matches Ok(p) ==> is_prime(p as nat),
        r matches Ok(p) ==> pow2((bit_size - 1) as nat) <= p && (p as int) < pow2(bit_size as nat),
        r matches Err(e) ==> e == VssError::PrimeGenerationFailed,
{
    if bit_size == 0 || bit_size > 64 {
        return Err(VssError::PrimeGenerationFailed);
    }
    let limit = power_of_two(bit_size);
    let mut attempt: usize = 0;
    while attempt < PRIME_ATTEMPTS
        invariant
            1 <= bit_size <= 64,
            limit == pow2(bit_size as nat),
        decreases PRIME_ATTEMPTS - attempt,
    {
        let p = random_prime(bit_size);
        if (p as u128) < limit {
            return Ok(p);
        }
        attempt = attempt + 1;
    }
    Err(VssError::PrimeGenerationFailed)
}

/// Exponent zero gives one for any modulus above one.
pub proof fn lemma_mod_exp_exponent_zero(base: u64, modulus: u64)
    requires
        modulus > 1,
    ensures
        pow(base as int, 0) % (modulus as int) == 1,
{
    lemma_pow0(base as int);
    lemma_small_mod(1, modulus as nat);
}

/// Every power is zero modulo one.
pub proof fn lemma_mod_exp_modulus_one(base: u64, exponent: u64)
    ensures
        pow(base as int, exponent as nat) % 1 == 0,
{
    lemma_mod_basics(pow(base as int, exponent as nat));
}

proof fn lemma_mod_basics(x: int)
    ensures
        x % 1 == 0,
{
    lemma_fundamental_div_mod(x, 1);
}

/// Bezout coefficients `(x, y)` with `a * x + b * y == gcd(a, b)`.
proof fn lemma_bezout(a: nat, b: nat) -> (r: (int, int))
    ensures
        a * r.0 + b * r.1 == gcd(a, b),
    decreases a,
{
    if a == 0 {
        (0, 1)
    } else {
        let rem = b % a;
        let (x, y) = lemma_bezout(rem, a);
        let q = (b / a) as int;
        lemma_fundamental_div_mod(b as int, a as int);
        assert(a * (y - q * x) + b * x == gcd(a, b)) by (nonlinear_arith)
            requires
                b == a * q + rem,
                rem * x + a * y == gcd(rem, a),
                gcd(a, b) == gcd(rem, a),
        ;
        (y - q * x, x)
    }
}

/// Cofactors `(ka, kb)` with `a == gcd(a, b) * ka` and `b == gcd(a, b) * kb`.
pub(crate) proof fn lemma_gcd_divides(a: nat, b: nat) -> (r: (int, int))
    ensures
        a == gcd(a, b) * r.0,
        b == gcd(a, b) * r.1,
    decreases a,
{
    if a == 0 {
        (0, 1)
    } else {
        let rem = b % a;
        let (k1, k2) = lemma_gcd_divides(rem, a);
        let q = (b / a) as int;
        let g = gcd(a, b);
        lemma_fundamental_div_mod(b as int, a as int);
        assert(b == g * (k2 * q + k1)) by (nonlinear_arith)
            requires
                b == a * q + rem,
                rem == g * k1,
                a == g * k2,
        ;
        (k2, k2 * q + k1)
    }
}

/// Modulo `m > 1`, `a` has an inverse exactly when `gcd(a, m) == 1`, and
/// then `a * inverse_mod(a, m) == 1 (mod m)`.
pub proof fn lemma_inverse_exists_iff_coprime(a: u64, m: u64)
    requires
        m > 1,
    ensures
        (exists|x: int| is_inverse(a as int, m as int, x)) == (gcd(a as nat, m as nat) == 1),
        gcd(a as nat, m as nat) == 1 ==> (a * inverse_mod(a as int, m as int)) % (m as int) == 1,
{
    let ai = a as int;
    let mi = m as int;
    let g = gcd(a as nat, m as nat);
    lemma_small_mod(1, m as nat);
    if g == 1 {
        let (x, y) = lemma_bezout(a as nat, m as nat);
        let v = x % mi;
        lemma_mul_mod_noop_right(ai, x, mi);
        assert(ai * x == mi * (-y) + 1) by (nonlinear_arith)
            requires
                ai * x + mi * y == 1,
        ;
        lemma_mod_multiples_vanish(-y, 1, mi);
        assert(is_inverse(ai, mi, v));
        lemma_inverse_is_chosen(ai, mi, v);
    } else {
        if exists|x: int| is_inverse(ai, mi, x) {
            let x = choose|x: int| is_inverse(ai, mi, x);
            let (ka, km) = lemma_gcd_divides(a as nat, m as nat);
            let t = (ai * x) / mi;
            lemma_fundamental_div_mod(ai * x, mi);
            assert(g * (ka * x - km * t) == 1) by (nonlinear_arith)
                requires
                    ai * x == mi * t + 1,
                    ai == g * ka,
                    mi == g * km,
            ;
            assert(false) by (nonlinear_arith)
                requires
                    g * (ka * x - km * t) == 1,
                    g >= 0,
                    g != 1,
            ;
        }
    }
}


/// `mod_inv` over numbers of any size, for `a < m`: the extended Euclidean
/// algorithm with the coefficient of `a` kept in `[0, m)`, so that every
/// intermediate value stays a natural number.
pub fn mod_inv_wide(a: &BigNat, m: &BigNat) -> (r: Option<BigNat>)
    requires
        1 <= m@,
        a@ < m@,
    ensures
        r.is_some() == (gcd(a@, m@) == 1),
        r matches Some(v) ==> v@ < m@ && ((a@ * v@) as int) % (m@ as int) == 1int % (m@ as int),
        r matches Some(v) ==> v@ == inverse_mod(a@ as int, m@ as int),
{
    let mi = Ghost(m@ as int);
    let ai = Ghost(a@ as int);
    let mut r0 = big_add(m, &BigNat::from_u64(0));
    let mut r1 = big_add(a, &BigNat::from_u64(0));
    let mut s0 = BigNat::from_u64(0);
    let mut s1 = big_rem(&BigNat::from_u64(1), m);
    let zero = BigNat::from_u64(0);
    proof {
        lemma_small_mod(0, m@);
        lemma_mul_basics(ai@);
        lemma_small_mod(a@, m@);
        lemma_mul_mod_noop_right(ai@, 1, mi@);
        lemma_mod_self_0(mi@);
    }
    while !big_eq(&r1, &zero)
        invariant
            mi@ == m@ as int,
            ai@ == a@ as int,
            mi@ >= 1,
            zero@ == 0,
            s0@ < m@,
            s1@ < m@,
            (ai@ * s0@) % mi@ == (r0@ as int) % mi@,
            (ai@ * s1@) % mi@ == (r1@ as int) % mi@,
            gcd(r1@, r0@) == gcd(a@, m@),
        decreases r1@,
    {
        let ghost (or0, or1, os0, os1) = (r0@ as int, r1@ as int, s0@ as int, s1@ as int);
        let qt = big_div(&r0, &r1);
        let rem = big_rem(&r0, &r1);
        let qs = big_rem(&big_mul(&qt, &s1), m);
        let up = big_add(&s0, m);
        let ns = big_rem(&big_sub(&up, &qs), m);
        proof {
            let q = qt@ as int;
            lemma_fundamental_div_mod(or0, or1);
            lemma_mod_bound(q * os1, mi@);
            // a * ns == a * (s0 - q * s1) == r0 - q * r1 == rem  (mod m)
            let d = os0 + mi@ - (q * os1) % mi@;
            lemma_mul_mod_noop_right(ai@, d, mi@);
            lemma_fundamental_div_mod(q * os1, mi@);
            assert(ai@ * d == ai@ * os0 - q * (ai@ * os1) + mi@ * (ai@ + ai@ * ((q * os1) / mi@)))
                by (nonlinear_arith)
                requires
                    d == os0 + mi@ - (q * os1) % mi@,
                    q * os1 == mi@ * ((q * os1) / mi@) + (q * os1) % mi@,
            ;
            lemma_mod_multiples_vanish(ai@ + ai@ * ((q * os1) / mi@), ai@ * os0 - q * (ai@ * os1), mi@);
            lemma_sub_mod_noop(ai@ * os0, q * (ai@ * os1), mi@);
            lemma_mul_mod_noop_right(q, ai@ * os1, mi@);
            lemma_mul_mod_noop_right(q, or1, mi@);
            lemma_sub_mod_noop(or0, q * or1, mi@);
            assert(or0 - q * or1 == rem@ as int) by (nonlinear_arith)
                requires
                    or0 == or1 * q + rem@,
            ;
            lemma_mod_bound(rem@ as int, or1);
        }
        r0 = r1;
        r1 = rem;
        s0 = s1;
        s1 = ns;
    }
    if big_eq(&r0, &BigNat::from_u64(1)) {
        proof {
            lemma_inverse_is_chosen(ai@, mi@, s0@ as int);
        }
        Some(s0)
    } else {
        None
    }
}


/// The largest bit size `generate_prime_wide` serves.
pub const MAX_PRIME_BITS: usize = 8192;

/// Relies on num-prime's `RandPrime::gen_prime_exact` for `BigUint`, fed by
/// rand's `thread_rng`: it sets the top bit of a random `bit_size`-bit
/// candidate and returns it, or the next probable prime above it, so the
/// result is at least `2^(bit_size - 1)`. It panics when `bit_size` is 0.
#[verifier::external_body]
fn random_prime_wide(bit_size: usize) -> (r: BigNat)
    requires
        1 <= bit_size,
    ensures
        pow2((bit_size - 1) as nat) <= r@,
{
    let p: num_bigint::BigUint = rand::thread_rng().gen_prime_exact(bit_size, None);
    BigNat { limbs: p.to_u32_digits() }
}

/// `2^bits` as a number of any size.
fn power_of_two_wide(bits: usize) -> (r: BigNat)
    ensures
        r@ == pow2(bits as nat),
{
    let two = BigNat::from_u64(2);
    let mut r = BigNat::from_u64(1);
    let mut i: usize = 0;
    proof {
        lemma_pow2(0);
        lemma_pow0(2);
    }
    while i < bits
        invariant
            i <= bits,
            two@ == 2,
            r@ == pow2(i as nat),
        decreases bits - i,
    {
        proof {
            lemma_pow2_unfold((i + 1) as nat);
        }
        r = big_mul(&r, &two);
        i = i + 1;
    }
    r
}

/// Draws a random probable prime of exactly `bit_size` bits, for
/// `2 <= bit_size <= MAX_PRIME_BITS`: `2^(bit_size - 1) <= p < 2^bit_size`,
/// and `p` passes the Fermat test to base 2 (`2^(p - 1) mod p == 1`).
/// A draw that overshoots into more bits or fails that test is discarded;
/// after `PRIME_ATTEMPTS` discarded draws, or for a size outside that
/// range, the outcome is `PrimeGenerationFailed`.
pub fn generate_prime_wide(bit_size: usize) -> (r: Result<BigNat, VssError>)
    ensures
        !(2 <= bit_size <= MAX_PRIME_BITS) ==> (r matches Err(e) && e
            == VssError::PrimeGenerationFailed),
        r matches Ok(p) ==> pow2((bit_size - 1) as nat) <= p@ && p@ < pow2(bit_size as nat),
        r matches Ok(p) ==> p@ >= 2 && pow(2, (p@ - 1) as nat) % (p@ as int) == 1,
        r matches Err(e) ==> e == VssError::PrimeGenerationFailed,
{
    if bit_size < 2 || bit_size > MAX_PRIME_BITS {
        return Err(VssError::PrimeGenerationFailed);
    }
    let limit = power_of_two_wide(bit_size);
    let one = BigNat::from_u64(1);
    let two = BigNat::from_u64(2);
    let mut attempt: usize = 0;
    while attempt < PRIME_ATTEMPTS
        invariant
            2 <= bit_size <= MAX_PRIME_BITS,
            limit@ == pow2(bit_size as nat),
            one@ == 1,
            two@ == 2,
        decreases PRIME_ATTEMPTS - attempt,
    {
        let p = random_prime_wide(bit_size);
        proof {
            lemma_pow2_strictly_increases(0, (bit_size - 1) as nat);
            lemma_pow2(0);
            lemma_pow0(2);
            lemma_pow2_pos(bit_size as nat);
        }
        let below = big_rem(&p, &limit);
        if big_eq(&below, &p) {
            proof {
                if p@ >= limit@ {
                    lemma_mod_bound(p@ as int, limit@ as int);
                }
            }
            let e = big_sub(&p, &one);
            let f = big_modpow(&two, &e, &p);
            if big_eq(&f, &one) {
                return Ok(p);
            }
        }
        attempt = attempt + 1;
    }
    Err(VssError::PrimeGenerationFailed)
}

} // verus!
