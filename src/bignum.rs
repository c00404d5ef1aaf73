//! Natural numbers of any size, as base-2^32 digits, with the arithmetic
//! that share verification needs.
use num_bigint::BigUint;
use vstd::arithmetic::div_mod::*;
use vstd::arithmetic::power::*;
use vstd::prelude::*;

verus! {

/// Value of base-2^32 digits, least significant first.
pub open spec fn limbs_value(s: Seq<u32>) -> nat
    decreases s.len(),
{
    if s.len() == 0 {
        0
    } else {
        (s[0] + 0x1_0000_0000 * limbs_value(s.drop_first())) as nat
    }
}

/// A natural number of any size, as base-2^32 digits, least significant
/// first.
#[derive(Clone, Debug)]
pub struct BigNat {
    pub limbs: Vec<u32>,
}

impl View for BigNat {
    type V = nat;

    open spec fn view(&self) -> nat {
        limbs_value(self.limbs@)
    }
}

impl BigNat {
    /// The number `x`.
    pub fn from_u64(x: u64) -> (r: Self)
        ensures
            r@ == x,
    {
        let lo = (x % 0x1_0000_0000) as u32;
        let hi = (x / 0x1_0000_0000) as u32;
        let mut limbs: Vec<u32> = Vec::new();
        limbs.push(lo);
        limbs.push(hi);
        proof {
            lemma_fundamental_div_mod(x as int, 0x1_0000_0000);
            let s = limbs@;
            assert(s.drop_first().drop_first().len() == 0);
            assert(limbs_value(s.drop_first()) == hi + 0x1_0000_0000 * limbs_value(
                s.drop_first().drop_first(),
            ));
        }
        BigNat { limbs }
    }
}

/// Relies on num-bigint's `BigUint::modpow`: `base^exponent mod modulus`; it
/// panics on a zero modulus. `BigUint::new` reads base-2^32 digits least
/// significant first and `to_u32_digits` writes them in the same order.
#[verifier::external_body]
pub(crate) fn big_modpow(base: &BigNat, exponent: &BigNat, modulus: &BigNat) -> (r: BigNat)
    requires
        modulus@ > 0,
    ensures
        r@ == pow(base@ as int, exponent@) % (modulus@ as int),
{
    let m = BigUint::new(modulus.limbs.clone());
    let e = BigUint::new(exponent.limbs.clone());
    BigNat { limbs: BigUint::new(base.limbs.clone()).modpow(&e, &m).to_u32_digits() }
}

/// Relies on num-bigint's `Mul` for `BigUint`: the exact product.
#[verifier::external_body]
pub(crate) fn big_mul(a: &BigNat, b: &BigNat) -> (r: BigNat)
    ensures
        r@ == a@ * b@,
{
    let p = BigUint::new(a.limbs.clone()) * BigUint::new(b.limbs.clone());
    BigNat { limbs: p.to_u32_digits() }
}

/// Relies on num-bigint's `Rem` for `BigUint`: the remainder of `a` by
/// `m`; it panics when `m` is zero.
#[verifier::external_body]
pub(crate) fn big_rem(a: &BigNat, m: &BigNat) -> (r: BigNat)
    requires
        m@ > 0,
    ensures
        r@ == a@ % m@,
{
    let x = BigUint::new(a.limbs.clone()) % BigUint::new(m.limbs.clone());
    BigNat { limbs: x.to_u32_digits() }
}

/// Relies on num-bigint's `PartialEq` for `BigUint`, whose values are kept
/// without leading zero digits: equal exactly when the numbers are.
#[verifier::external_body]
pub(crate) fn big_eq(a: &BigNat, b: &BigNat) -> (r: bool)
    ensures
        r == (a@ == b@),
{
    BigUint::new(a.limbs.clone()) == BigUint::new(b.limbs.clone())
}


/// Relies on num-bigint's `Add` for `BigUint`: the exact sum.
#[verifier::external_body]
pub(crate) fn big_add(a: &BigNat, b: &BigNat) -> (r: BigNat)
    ensures
        r@ == a@ + b@,
{
    let x = BigUint::new(a.limbs.clone()) + BigUint::new(b.limbs.clone());
    BigNat { limbs: x.to_u32_digits() }
}


/// Relies on num-bigint's `Div` for `BigUint`: the quotient of `a` by `m`,
/// rounded down; it panics when `m` is zero.
#[verifier::external_body]
pub(crate) fn big_div(a: &BigNat, m: &BigNat) -> (r: BigNat)
    requires
        m@ > 0,
    ensures
        r@ == a@ / m@,
{
    let x = BigUint::new(a.limbs.clone()) / BigUint::new(m.limbs.clone());
    BigNat { limbs: x.to_u32_digits() }
}

/// Relies on num-bigint's `Sub` for `BigUint`: the exact difference; it
/// panics when `b` exceeds `a`.
#[verifier::external_body]
pub(crate) fn big_sub(a: &BigNat, b: &BigNat) -> (r: BigNat)
    requires
        b@ <= a@,
    ensures
        r@ == a@ - b@,
{
    let x = BigUint::new(a.limbs.clone()) - BigUint::new(b.limbs.clone());
    BigNat { limbs: x.to_u32_digits() }
}

} // verus!
