//! Shamir's secret sharing: a secret is the constant term of a random
//! polynomial, and each share is the polynomial's value at one index.

use crate::bignum::{bit_length, Natural};
use crate::lagrange::{denominators_invertible, lagrange_interpolation_zero, lagrange_sum, points_view};
use crate::polynomial::{poly_eval, Polynomial};
use vstd::arithmetic::power2::pow2;
use vstd::prelude::*;

verus! {

/// Whether `shares` are the values at `1..=n`, modulo `m`, of the polynomial
/// with coefficients `c`, in ascending order of index.
pub open spec fn is_share_list(shares: Seq<(nat, nat)>, c: Seq<nat>, n: nat, m: nat) -> bool {
    &&& shares.len() == n
    &&& forall|k: int|
        0 <= k < n ==> #[trigger] shares[k] == ((k + 1) as nat, (poly_eval(c, k + 1) % (m as int)) as nat)
}

/// The number of bits of the random coefficients that share `secret`: those
/// of the secret, and at least one.
pub open spec fn coefficient_bits(secret: nat) -> nat {
    if secret == 0 {
        1
    } else {
        bit_length(secret)
    }
}

/// Whether `c` may be the polynomial that shares `secret` among `threshold`:
/// `threshold` coefficients, the secret first, the others in `[1, 2^bits)`.
pub open spec fn is_sharing_polynomial(c: Seq<nat>, secret: nat, threshold: nat) -> bool {
    &&& c.len() == threshold
    &&& c[0] == secret
    &&& forall|k: int| 1 <= k < c.len() ==> 1 <= #[trigger] c[k] < pow2(coefficient_bits(secret))
}

/// The shares at `1..=num_shares` of the polynomial `poly`, modulo `modulus`.
pub fn shares_from_polynomial(poly: &Polynomial, num_shares: usize, modulus: &Natural) -> (r: Vec<
    (Natural, Natural),
>)
    requires
        modulus@ > 0,
    ensures
        is_share_list(points_view(r@), poly@, num_shares as nat, modulus@),
{
    let mut shares: Vec<(Natural, Natural)> = Vec::new();
    let mut i: usize = 0;
    while i < num_shares
        invariant
            i <= num_shares,
            modulus@ > 0,
            shares@.len() == i,
            forall|k: int|
                0 <= k < i ==> #[trigger] points_view(shares@)[k] == ((k + 1) as nat, (poly_eval(
                    poly@,
                    k + 1,
                ) % (modulus@ as int)) as nat),
        decreases num_shares - i,
    {
        let x = Natural::from_u64(i as u64 + 1);
        let y = poly.evaluate(&x).rem(modulus);
        let ghost prev = shares@;
        shares.push((x, y));
        assert(points_view(shares@) =~= points_view(prev).push((x@, y@)));
        i = i + 1;
    }
    shares
}

/// Splits `secret` into `num_shares` shares, any `threshold` of which give it
/// back modulo `modulus`. The polynomial is drawn at random; the shares are
/// its values at `1..=num_shares`, reduced modulo `modulus`.
pub fn generate_shares(secret: &Natural, threshold: usize, num_shares: usize, modulus: &Natural) -> (r: Vec<
    (Natural, Natural),
>)
    requires
        threshold >= 1,
        modulus@ > 0,
        bit_length(secret@) <= usize::MAX,
    ensures
        exists|c: Seq<nat>|
            is_sharing_polynomial(c, secret@, threshold as nat) && is_share_list(
                points_view(r@),
                c,
                num_shares as nat,
                modulus@,
            ),
{
    let poly = sharing_polynomial(secret, threshold);
    let r = shares_from_polynomial(&poly, num_shares, modulus);
    assert(is_sharing_polynomial(poly@, secret@, threshold as nat));
    r
}

/// The random polynomial that shares `secret` among `threshold`.
pub fn sharing_polynomial(secret: &Natural, threshold: usize) -> (r: Polynomial)
    requires
        threshold >= 1,
        bit_length(secret@) <= usize::MAX,
    ensures
        is_sharing_polynomial(r@, secret@, threshold as nat),
{
    let bits = secret.bits();
    let max_bits: usize = if bits == 0 {
        1
    } else {
        bits as usize
    };
    proof {
        if secret@ == 0 {
            reveal_with_fuel(bit_length, 1);
        } else {
            assert(bit_length(secret@) > 0);
        }
    }
    Polynomial::new_for_shamir(threshold - 1, max_bits, secret)
}

/// Recovers the secret from shares, modulo the modulus they were made with.
/// Given at least as many shares as the threshold, with distinct indices and
/// a prime modulus, this is the secret; with fewer it is some other value.
pub fn reconstruct_secret(shares: &[(Natural, Natural)], modulus: &Natural) -> (r: Option<Natural>)
    requires
        modulus@ > 0,
    ensures
        r is Some <==> denominators_invertible(points_view(shares@), modulus@),
        r matches Some(v) ==> v@ == lagrange_sum(points_view(shares@), shares@.len(), modulus@) % (
        modulus@ as int),
{
    lagrange_interpolation_zero(shares, modulus)
}

} // verus!
