//! Polynomials, modular arithmetic, interpolation and random numbers, under
//! one path.

pub use crate::lagrange::lagrange_interpolation_zero;
pub use crate::modular::{egcd, mod_exp, mod_inv};
pub use crate::polynomial::Polynomial;

use crate::bignum::Natural;
use vstd::prelude::*;

verus! {

/// A number drawn at random from `[1, modulus)`.
pub fn gen_rand(modulus: &Natural) -> (r: Natural)
    requires
        modulus@ > 1,
    ensures
        1 <= r@ < modulus@,
{
    Natural::random_range(&Natural::from_u64(1), modulus)
}

} // verus!
