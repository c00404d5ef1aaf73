//! Sharing polynomials: construction with a fixed constant term and
//! evaluation modulo the field prime.
use vstd::arithmetic::div_mod::*;
use vstd::arithmetic::mul::*;
use vstd::prelude::*;

verus! {

/// `c[0] + c[1] * x + c[2] * x^2 + ...`, over the integers.
pub open spec fn poly_eval(c: Seq<u64>, x: int) -> int
    decreases c.len(),
{
    if c.len() == 0 {
        0
    } else {
        c[0] + x * poly_eval(c.drop_first(), x)
    }
}

/// A polynomial given by its coefficients, constant term first.
pub struct Polynomial {
    pub coefficients: Vec<u64>,
}

impl View for Polynomial {
    type V = Seq<u64>;

    open spec fn view(&self) -> Seq<u64> {
        self.coefficients@
    }
}

/// Relies on rand's `Rng::gen_range` over `thread_rng`: a value drawn from
/// `[low, high)`; it panics on an empty range.
#[verifier::external_body]
fn random_in_range(low: u64, high: u64) -> (r: u64)
    requires
        low < high,
    ensures
        low <= r < high,
{
    rand::Rng::gen_range(&mut rand::thread_rng(), low..high)
}

impl Polynomial {
    /// A random polynomial with `threshold` coefficients (degree
    /// `threshold - 1`): the constant term is `secret`, every other
    /// coefficient is drawn from `[1, modulus)`.
    pub fn new_for_shamir(threshold: usize, modulus: u64, secret: u64) -> (p: Self)
        requires
            threshold >= 1,
            modulus >= 2,
        ensures
            p@.len() == threshold,
            p@[0] == secret,
            forall|j: int| 1 <= j < threshold ==> 1 <= #[trigger] p@[j] < modulus,
    {
        let mut coefficients: Vec<u64> = Vec::new();
        coefficients.push(secret);
        let mut k: usize = 1;
        while k < threshold
            invariant
                1 <= k <= threshold,
                modulus >= 2,
                coefficients@.len() == k,
                coefficients@[0] == secret,
                forall|j: int| 1 <= j < k ==> 1 <= #[trigger] coefficients@[j] < modulus,
            decreases threshold - k,
        {
            let c = random_in_range(1, modulus);
            coefficients.push(c);
            k = k + 1;
        }
        Polynomial { coefficients }
    }

    /// Horner evaluation with every step reduced modulo `modulus`.
    pub fn evaluate(&self, x: u64, modulus: u64) -> (r: u64)
        requires
            modulus >= 1,
        ensures
            r == poly_eval(self@, x as int) % (modulus as int),
    {
        let c = &self.coefficients;
        let n = c.len();
        let m: u128 = modulus as u128;
        let xm: u128 = (x as u128) % m;
        let mut acc: u128 = 0;
        let mut i: usize = n;
        proof {
            assert(c@.subrange(n as int, n as int).len() == 0);
            lemma_small_mod(0, m as nat);
        }
        while i > 0
            invariant
                n == c@.len(),
                c@ == self@,
                m == modulus as u128,
                m >= 1,
                xm == (x as int) % (m as int),
                i <= n,
                acc < m,
                acc == poly_eval(c@.subrange(i as int, n as int), x as int) % (m as int),
            decreases i,
        {
            i = i - 1;
            let ghost tail = poly_eval(c@.subrange(i + 1, n as int), x as int);
            assert(acc * xm < m * m) by (nonlinear_arith)
                requires
                    acc < m,
                    xm < m,
            ;
            assert(m * m <= 0xffff_ffff_ffff_ffff_ffff_ffff_ffff_ffffu128) by (nonlinear_arith)
                requires
                    m <= 0xffff_ffff_ffff_ffffu128,
            ;
            let prod = (acc * xm) % m;
            let ci = (c[i] as u128) % m;
            let ghost old_acc = acc;
            acc = (prod + ci) % m;
            proof {
                let s = c@.subrange(i as int, n as int);
                assert(s.drop_first() =~= c@.subrange(i + 1, n as int));
                assert(poly_eval(s, x as int) == c@[i as int] + x * tail);
                lemma_mul_mod_noop(x as int, tail, m as int);
                lemma_mul_is_commutative(old_acc as int, xm as int);
                lemma_add_mod_noop(c@[i as int] as int, x * tail, m as int);
            }
        }
        proof {
            assert(c@.subrange(0, n as int) =~= c@);
        }
        acc as u64
    }
}

} // verus!
