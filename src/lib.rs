//! Shamir's secret sharing and Feldman's verifiable secret sharing over
//! arbitrary-precision integers, with the arithmetic proved against
//! mathematical specifications.

pub mod bignum;
pub mod modular;
pub mod polynomial;
pub mod lagrange;
pub mod interpolation;
pub mod shamirs_secret_sharing;
pub mod feldman_verifiability;
pub mod utils;
