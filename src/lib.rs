//! Feldman verifiable secret sharing over a prime field. The scheme works
//! on machine-word field elements (`u64`); prime generation, inverses,
//! dealing, verification and reconstruction also exist, under a `_wide`
//! name, for field elements of any size (`BigNat`).
pub mod bignum;
pub mod error;
pub mod field;
pub mod interpolation;
pub mod polynomial;
pub mod vss;

pub use bignum::BigNat;
pub use error::VssError;
pub use field::{egcd, generate_prime, generate_prime_wide, mod_exp, mod_inv, mod_inv_wide};
pub use polynomial::Polynomial;
pub use vss::{
    distribute_shares_wide, evaluate_wide, generate_commitments_wide, generate_shares_wide,
    lagrange_interpolation_zero, lagrange_interpolation_zero_wide, reconstruct_secret,
    reconstruct_secret_wide, verify_share, verify_share_wide, FeldmanVSSParams,
};
