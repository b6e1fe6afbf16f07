//! Feldman's verifiable secret sharing: Shamir's shares, together with public
//! commitments to the polynomial's coefficients against which each share can
//! be checked.

use crate::bignum::{bit_length, Natural};
use crate::lagrange::{denominators_invertible, lagrange_interpolation_zero, lagrange_sum, points_view};
use crate::modular::{is_prime, lemma_pow_nonneg, lemma_prime_power, lemma_prime_product, mod_exp};
use crate::polynomial::{poly_eval, Polynomial};
use crate::shamirs_secret_sharing::{is_share_list, is_sharing_polynomial, shares_from_polynomial, sharing_polynomial};
use vstd::arithmetic::power::pow;
use vstd::prelude::*;

verus! {

/// The commitments `g^c_k mod q` to the coefficients `c`.
pub open spec fn commitments_of(c: Seq<nat>, g: nat, q: nat) -> Seq<nat> {
    c.map_values(|ck: nat| (pow(g as int, ck) % (q as int)) as nat)
}

/// The product, modulo `q`, of each commitment `C_k` raised to `i^k mod q`,
/// taken from the first commitment on and starting from one.
pub open spec fn commitment_product(cs: Seq<nat>, i: nat, q: nat) -> int
    decreases cs.len(),
{
    if cs.len() == 0 {
        1
    } else {
        let k = (cs.len() - 1) as nat;
        let exponent = (pow(i as int, k) % (q as int)) as nat;
        (commitment_product(cs.drop_last(), i, q) * (pow(cs.last() as int, exponent) % (q as int))) % (
        q as int)
    }
}

/// Whether the share `(i, share)` agrees with the commitments `cs` in the
/// group generated by `g` modulo `q`.
pub open spec fn share_verifies(i: nat, share: nat, cs: Seq<nat>, g: nat, q: nat) -> bool {
    pow(g as int, share) % (q as int) == commitment_product(cs, i, q)
}

/// A polynomial with natural coefficients is a natural number at a natural point.
proof fn lemma_poly_eval_nonneg(c: Seq<nat>, x: nat)
    ensures
        poly_eval(c, x as int) >= 0,
    decreases c.len(),
{
    if c.len() > 0 {
        lemma_poly_eval_nonneg(c.drop_last(), x);
        lemma_pow_nonneg(x, (c.len() - 1) as nat);
        assert(c.last() * pow(x as int, (c.len() - 1) as nat) >= 0) by (nonlinear_arith)
            requires
                pow(x as int, (c.len() - 1) as nat) >= 0,
        ;
    }
}

/// The product over the first `n` commitments is `g` raised to the first `n`
/// terms of the polynomial at `x`, modulo `q`, where no power of `x` reaches `q`.
proof fn lemma_commitment_prefix(c: Seq<nat>, g: nat, q: nat, x: nat, n: nat)
    requires
        q > 1,
        n <= c.len(),
        forall|k: nat| k < c.len() ==> #[trigger] pow(x as int, k) < q,
    ensures
        commitment_product(commitments_of(c, g, q).take(n as int), x, q) == pow(
            g as int,
            poly_eval(c.take(n as int), x as int) as nat,
        ) % (q as int),
    decreases n,
{
    let cm = commitments_of(c, g, q);
    let qi = q as int;
    if n == 0 {
        reveal(pow);
        vstd::arithmetic::div_mod::lemma_small_mod(1, q);
    } else {
        let k = (n - 1) as nat;
        lemma_commitment_prefix(c, g, q, x, k);
        assert(cm.take(n as int).drop_last() =~= cm.take(k as int));
        assert(c.take(n as int).drop_last() =~= c.take(k as int));
        let e = poly_eval(c.take(k as int), x as int);
        lemma_poly_eval_nonneg(c.take(k as int), x);
        lemma_pow_nonneg(x, k);
        let xk = pow(x as int, k) as nat;
        lemma_pow_nonneg(g, c[k as int]);
        vstd::arithmetic::div_mod::lemma_small_mod(xk, q);
        let f = c[k as int] * xk;
        vstd::arithmetic::power::lemma_pow_mod_noop(pow(g as int, c[k as int]), xk, qi);
        vstd::arithmetic::power::lemma_pow_multiplies(g as int, c[k as int], xk);
        vstd::arithmetic::div_mod::lemma_mul_mod_noop(pow(g as int, e as nat), pow(g as int, f), qi);
        vstd::arithmetic::power::lemma_pow_adds(g as int, e as nat, f);
    }
}

/// Every share made from the coefficients `c` agrees with the commitments to
/// them, where the polynomial's value at the index and every power of the
/// index stay below `q`.
pub proof fn lemma_generated_share_verifies(c: Seq<nat>, g: nat, q: nat, x: nat)
    requires
        q > 1,
        poly_eval(c, x as int) < q,
        forall|k: nat| k < c.len() ==> #[trigger] pow(x as int, k) < q,
    ensures
        share_verifies(x, (poly_eval(c, x as int) % (q as int)) as nat, commitments_of(c, g, q), g, q),
{
    lemma_commitment_prefix(c, g, q, x, c.len());
    assert(c.take(c.len() as int) =~= c);
    assert(commitments_of(c, g, q).take(c.len() as int) =~= commitments_of(c, g, q));
    lemma_poly_eval_nonneg(c, x);
    vstd::arithmetic::div_mod::lemma_small_mod(poly_eval(c, x as int) as nat, q);
}

/// Raising a share's value by one makes it fail where it passed, when `q` is
/// prime, `g` is neither zero nor one modulo `q`, and the raised value stays
/// below `q`.
pub proof fn lemma_altered_share_fails(x: nat, y: nat, cs: Seq<nat>, g: nat, q: nat)
    requires
        is_prime(q),
        g % q != 0,
        g % q != 1,
        y + 1 < q,
        share_verifies(x, y, cs, g, q),
    ensures
        !share_verifies(x, ((y + 1) % q) as nat, cs, g, q),
{
    let qi = q as int;
    vstd::arithmetic::div_mod::lemma_small_mod(y + 1, q);
    if share_verifies(x, y + 1, cs, g, q) {
        let p = pow(g as int, y);
        lemma_pow_nonneg(g, y);
        vstd::arithmetic::power::lemma_pow1(g as int);
        vstd::arithmetic::power::lemma_pow_adds(g as int, y, 1);
        // g^y * g and g^y agree modulo q, so q divides g^y * (g - 1)
        vstd::arithmetic::div_mod::lemma_mod_equivalence(p * g, p, qi);
        assert(p * g - p == p * (g - 1)) by (nonlinear_arith);
        lemma_prime_power(q, g, y);
        let h: nat = (g - 1) as nat;
        if g < 2 {
            vstd::arithmetic::div_mod::lemma_small_mod(g, q);
        }
        assert(h + 1 == g);
        if h % q == 0 {
            vstd::arithmetic::div_mod::lemma_add_mod_noop(h as int, 1, qi);
            vstd::arithmetic::div_mod::lemma_small_mod(1, q);
            vstd::arithmetic::div_mod::lemma_small_mod(0, q);
            assert(g % q == 1);
        }
        assert(p * (g - 1) == p * h);
        lemma_prime_product(q, p as nat, h);
    }
}

/// Evaluation and commitments depend on their inputs alone: the same
/// coefficients, generator, modulus and point give the same values.
pub proof fn lemma_deterministic(c1: Seq<nat>, c2: Seq<nat>, g: nat, q: nat, x: nat)
    requires
        c1 == c2,
    ensures
        poly_eval(c1, x as int) == poly_eval(c2, x as int),
        commitments_of(c1, g, q) == commitments_of(c2, g, q),
{
}

/// The public parameters: a generator `g` and the prime `q` of its group.
pub struct FeldmanVSSParams {
    /// The generator of the group.
    pub g: Natural,
    /// The prime modulus of the group.
    pub q: Natural,
}

impl FeldmanVSSParams {
    /// The parameters with generator `g` and prime `q`.
    pub fn new(g: Natural, q: Natural) -> (r: FeldmanVSSParams)
        ensures
            r.g@ == g@,
            r.q@ == q@,
    {
        FeldmanVSSParams { g, q }
    }

    /// Splits `secret` among `num_shares` as Shamir's scheme does, modulo `q`,
    /// and commits to each coefficient of the random polynomial.
    pub fn generate_shares(&self, secret: &Natural, threshold: usize, num_shares: usize) -> (r: (
        Vec<(Natural, Natural)>,
        Vec<Natural>,
    ))
        requires
            threshold >= 1,
            self.q@ > 0,
            bit_length(secret@) <= usize::MAX,
        ensures
            exists|c: Seq<nat>|
                {
                    &&& is_sharing_polynomial(c, secret@, threshold as nat)
                    &&& is_share_list(points_view(r.0@), c, num_shares as nat, self.q@)
                    &&& r.1@.map_values(|v: Natural| v@) == commitments_of(c, self.g@, self.q@)
                },
    {
        let poly = sharing_polynomial(secret, threshold);
        self.shares_and_commitments(&poly, num_shares)
    }

    /// The shares at `1..=num_shares` of `poly` modulo `q`, and the
    /// commitments to its coefficients.
    pub fn shares_and_commitments(&self, poly: &Polynomial, num_shares: usize) -> (r: (
        Vec<(Natural, Natural)>,
        Vec<Natural>,
    ))
        requires
            self.q@ > 0,
        ensures
            is_share_list(points_view(r.0@), poly@, num_shares as nat, self.q@),
            r.1@.map_values(|v: Natural| v@) == commitments_of(poly@, self.g@, self.q@),
    {
        let shares = shares_from_polynomial(poly, num_shares, &self.q);
        let commitments = self.generate_commitments(poly);
        (shares, commitments)
    }

    /// The commitments `g^c mod q` to each coefficient `c` of `polynomial`.
    pub fn generate_commitments(&self, polynomial: &Polynomial) -> (r: Vec<Natural>)
        requires
            self.q@ > 0,
        ensures
            r@.map_values(|v: Natural| v@) == commitments_of(polynomial@, self.g@, self.q@),
    {
        let mut commitments: Vec<Natural> = Vec::new();
        let mut k: usize = 0;
        while k < polynomial.coefficients.len()
            invariant
                self.q@ > 0,
                k <= polynomial.coefficients@.len(),
                commitments@.len() == k,
                forall|j: int|
                    0 <= j < k ==> #[trigger] commitments@[j]@ == (pow(self.g@ as int, polynomial@[j]) % (
                    self.q@ as int)) as nat,
            decreases polynomial.coefficients@.len() - k,
        {
            commitments.push(mod_exp(&self.g, &polynomial.coefficients[k], &self.q));
            k = k + 1;
        }
        assert(commitments@.map_values(|v: Natural| v@) =~= commitments_of(polynomial@, self.g@, self.q@));
        commitments
    }
}

/// Checks the share `(i, share)` against the public commitments: whether
/// `g^share mod q` equals the product of `commitments[k]^(i^k mod q)`
/// modulo `q`.
pub fn verify_share(i: &Natural, share: &Natural, commitments: &[Natural], params: &FeldmanVSSParams) -> (r: bool)
    requires
        params.q@ > 0,
    ensures
        r == share_verifies(i@, share@, commitments@.map_values(|v: Natural| v@), params.g@, params.q@),
{
    let ghost cs = commitments@.map_values(|v: Natural| v@);
    let lhs = mod_exp(&params.g, share, &params.q);
    let mut rhs = Natural::from_u64(1);
    let mut j: usize = 0;
    while j < commitments.len()
        invariant
            params.q@ > 0,
            j <= commitments@.len(),
            cs == commitments@.map_values(|v: Natural| v@),
            rhs@ == commitment_product(cs.take(j as int), i@, params.q@),
        decreases commitments@.len() - j,
    {
        let exponent = i.modpow(&Natural::from_u64(j as u64), &params.q);
        let factor = mod_exp(&commitments[j], &exponent, &params.q);
        proof {
            assert(cs.take(j as int + 1).drop_last() =~= cs.take(j as int));
        }
        rhs = rhs.mul(&factor).rem(&params.q);
        j = j + 1;
    }
    assert(cs.take(j as int) =~= cs);
    lhs == rhs
}

/// Recovers the secret from shares, modulo the `q` they were made with.
pub fn reconstruct_secret(shares: &[(Natural, Natural)], modulus: &Natural) -> (r: Option<Natural>)
    requires
        modulus@ > 0,
    ensures
        r is Some <==> denominators_invertible(points_view(shares@), modulus@),
        r matches Some(v) ==> v@ == lagrange_sum(points_view(shares@), shares@.len(), modulus@) % (
        modulus@ as int),
{
    lagrange_interpolation_zero(shares, modulus)
}

} // verus!
