//! Modular arithmetic: exponentiation, the extended Euclidean algorithm and
//! the modular inverse.

use crate::bignum::{abs, trunc_div, trunc_rem, Integer, Natural};
use vstd::arithmetic::div_mod::{
    lemma_fundamental_div_mod, lemma_mod_bound, lemma_mod_multiples_vanish, lemma_mul_mod_noop_right,
    lemma_small_mod,
};
use vstd::arithmetic::power::pow;
use vstd::prelude::*;

verus! {

/// The greatest common divisor of `a` and `b`, by Euclid's recursion.
pub open spec fn gcd(a: nat, b: nat) -> nat
    decreases a,
{
    if a == 0 {
        b
    } else {
        gcd(b % a, a)
    }
}

/// Whether `r` is an inverse of `a` modulo `m` in the range `[0, m)`.
pub open spec fn is_inverse_mod(a: nat, r: nat, m: nat) -> bool {
    r < m && (a * r) as int % (m as int) == 1int % (m as int)
}

/// The inverse of `a` modulo `m`, where there is one.
pub open spec fn inverse_mod(a: nat, m: nat) -> nat {
    choose|r: nat| is_inverse_mod(a, r, m)
}

/// An inverse modulo `m` in `[0, m)` is unique.
pub proof fn lemma_inverse_unique(a: nat, r1: nat, r2: nat, m: nat)
    requires
        is_inverse_mod(a, r1, m),
        is_inverse_mod(a, r2, m),
    ensures
        r1 == r2,
{
    let mi = m as int;
    if m == 1 {
    } else {
        lemma_small_mod(1, m);
        lemma_mul_mod_noop_right(r1 as int, (a * r2) as int, mi);
        lemma_mul_mod_noop_right(r2 as int, (a * r1) as int, mi);
        assert(r1 * (a * r2) == r2 * (a * r1)) by (nonlinear_arith);
        lemma_small_mod(r1, m);
        lemma_small_mod(r2, m);
    }
}

/// Facts on the remainder that rounds toward zero.
pub proof fn lemma_trunc_rem(n: int, d: int)
    requires
        d != 0,
    ensures
        abs(trunc_rem(n, d)) == abs(n) % abs(d),
        n >= 0 ==> trunc_rem(n, d) >= 0,
        n < 0 ==> trunc_rem(n, d) <= 0,
        d > 0 ==> trunc_rem(n, d) % d == n % d,
        n == d * trunc_div(n, d) + trunc_rem(n, d),
{
    let a = abs(n) as int;
    let b = abs(d) as int;
    let q = a / b;
    lemma_fundamental_div_mod(a, b);
    lemma_mod_bound(a, b);
    if n >= 0 && d > 0 {
    } else if n >= 0 {
        assert(d * (-q) == b * q) by (nonlinear_arith)
            requires
                d == -b,
        ;
    } else if d > 0 {
        assert(d * (-q) == -(b * q)) by (nonlinear_arith)
            requires
                d == b,
        ;
    } else {
        assert(d * q == -(b * q)) by (nonlinear_arith)
            requires
                d == -b,
        ;
    }
    if d > 0 {
        lemma_mod_multiples_vanish(trunc_div(n, d), trunc_rem(n, d), d);
    }
}

/// Whether `q` is prime: greater than one, and divisible by no number
/// strictly between one and itself.
pub open spec fn is_prime(q: nat) -> bool {
    q > 1 && forall|d: nat| 1 < d < q ==> #[trigger] (q % d) != 0
}

/// Bezout's identity: some combination of `a` and `b` is their greatest
/// common divisor.
pub proof fn lemma_bezout(a: nat, b: nat) -> (r: (int, int))
    ensures
        a * r.0 + b * r.1 == gcd(a, b),
    decreases a,
{
    if a == 0 {
        (0, 1)
    } else {
        let (x, y) = lemma_bezout(b % a, a);
        let q = (b / a) as int;
        lemma_fundamental_div_mod(b as int, a as int);
        assert(a * (y - q * x) + b * x == (b % a) * x + a * y) by (nonlinear_arith)
            requires
                b == a * q + b % a,
        ;
        (y - q * x, x)
    }
}

/// The greatest common divisor divides both numbers, and is zero only when
/// both are.
pub proof fn lemma_gcd_divides(a: nat, b: nat)
    ensures
        gcd(a, b) == 0 <==> (a == 0 && b == 0),
        gcd(a, b) > 0 ==> a % gcd(a, b) == 0 && b % gcd(a, b) == 0,
    decreases a,
{
    if a == 0 {
        if b > 0 {
            vstd::arithmetic::div_mod::lemma_mod_self_0(b as int);
            vstd::arithmetic::div_mod::lemma_small_mod(0, b);
        }
    } else {
        lemma_gcd_divides(b % a, a);
        let g = gcd(a, b) as int;
        let r = (b % a) as int;
        assert(g == gcd(b % a, a));
        assert(g > 0 && a % (g as nat) == 0 && r % g == 0);
        lemma_fundamental_div_mod(b as int, a as int);
        lemma_fundamental_div_mod(a as int, g);
        lemma_fundamental_div_mod(r, g);
        // b is a multiple of a plus a remainder, both multiples of g
        let qa = a as int / g;
        let qb = b as int / a as int;
        let qr = r / g;
        let k = qa * qb + qr;
        assert(b == g * k) by (nonlinear_arith)
            requires
                b == a * qb + r,
                a == g * qa,
                r == g * qr,
                k == qa * qb + qr,
        ;
        lemma_mod_multiples_vanish(k, 0, g);
        vstd::arithmetic::div_mod::lemma_small_mod(0, g as nat);
    }
}

/// Euclid's lemma: a prime dividing neither of two numbers does not divide
/// their product.
pub proof fn lemma_prime_product(q: nat, a: nat, b: nat)
    requires
        is_prime(q),
        a % q != 0,
        b % q != 0,
    ensures
        (a * b) % q != 0,
{
    let g = gcd(a, q);
    lemma_gcd_divides(a, q);
    if g != 1 {
        vstd::arithmetic::div_mod::lemma_mod_is_zero(q, g);
        if g < q {
            assert(q % g != 0);
        } else {
            assert(g == q);
        }
    }
    let (x, y) = lemma_bezout(a, q);
    if (a * b) % q == 0 {
        let qi = q as int;
        lemma_fundamental_div_mod((a * b) as int, qi);
        let t = (a * b) as int / qi;
        assert(b == qi * (t * x + b * y)) by (nonlinear_arith)
            requires
                a * x + qi * y == 1,
                a * b == qi * t,
        ;
        lemma_mod_multiples_vanish(t * x + b * y, 0, qi);
        vstd::arithmetic::div_mod::lemma_small_mod(0, q);
    }
}

/// A power of a number that a prime does not divide is not divisible by it.
pub proof fn lemma_prime_power(q: nat, g: nat, e: nat)
    requires
        is_prime(q),
        g % q != 0,
    ensures
        pow(g as int, e) % (q as int) != 0,
    decreases e,
{
    reveal(pow);
    if e == 0 {
        vstd::arithmetic::div_mod::lemma_small_mod(1, q);
    } else {
        lemma_prime_power(q, g, (e - 1) as nat);
        lemma_pow_nonneg(g, (e - 1) as nat);
        lemma_prime_product(q, g, pow(g as int, (e - 1) as nat) as nat);
    }
}

/// A power of a natural number is a natural number.
pub proof fn lemma_pow_nonneg(b: nat, e: nat)
    ensures
        pow(b as int, e) >= 0,
    decreases e,
{
    reveal(pow);
    if e > 0 {
        lemma_pow_nonneg(b, (e - 1) as nat);
    }
}

/// `base` raised to `exponent`, modulo a positive `modulus`.
pub fn mod_exp(base: &Natural, exponent: &Natural, modulus: &Natural) -> (r: Natural)
    requires
        modulus@ > 0,
    ensures
        r@ == pow(base@ as int, exponent@) % (modulus@ as int),
{
    base.modpow(exponent, modulus)
}

/// The extended Euclidean algorithm: `(g, x, y)` with `a * x + b * y == g`,
/// where `g` is the greatest common divisor of `a` and `b` up to its sign,
/// and is not negative when neither argument is.
pub fn egcd(a: Integer, b: Integer) -> (r: (Integer, Integer, Integer))
    ensures
        a@ * r.1@ + b@ * r.2@ == r.0@,
        abs(r.0@) == gcd(abs(a@), abs(b@)),
        a@ >= 0 && b@ >= 0 ==> r.0@ >= 0,
    decreases abs(a@),
{
    if a.is_zero() {
        (b, Integer::from_i64(0), Integer::from_i64(1))
    } else {
        let rem = b.rem(&a);
        let quot = b.div(&a);
        proof {
            lemma_trunc_rem(b@, a@);
            lemma_mod_bound(abs(b@) as int, abs(a@) as int);
        }
        let (g, x, y) = egcd(rem, a.duplicate());
        let coef = y.sub(&quot.mul(&x));
        proof {
            let (av, bv, qv, rv, xv, yv) = (a@, b@, quot@, rem@, x@, y@);
            assert(av * (yv - qv * xv) + bv * xv == rv * xv + av * yv) by (nonlinear_arith)
                requires
                    bv == av * qv + rv,
            ;
        }
        (g, coef, x)
    }
}

/// The inverse of `a` modulo a positive `m`, or `None` when `a` and `m` are
/// not coprime.
pub fn mod_inv(a: &Natural, m: &Natural) -> (r: Option<Natural>)
    requires
        m@ > 0,
    ensures
        r is Some <==> gcd(a@, m@) == 1,
        r matches Some(v) ==> is_inverse_mod(a@, v@, m@),
        r matches Some(v) ==> v@ == inverse_mod(a@, m@),
{
    let (g, x, y) = egcd(Integer::from_natural(a), Integer::from_natural(m));
    if g == Integer::from_i64(1) {
        let mi = Integer::from_natural(m);
        let x_rem = x.rem(&mi);
        let shifted = x_rem.add(&mi);
        let x_mod_m = shifted.rem(&mi);
        proof {
            let mv = m@ as int;
            lemma_trunc_rem(x@, mv);
            lemma_trunc_rem(shifted@, mv);
            lemma_mod_bound(x_rem@, mv);
            lemma_mod_multiples_vanish(1, x_rem@, mv);
            lemma_small_mod(abs(shifted@) % abs(mv), m@);
            // a * x_mod_m is a * x modulo m, which is one less a multiple of m
            lemma_mul_mod_noop_right(a@ as int, x_mod_m@, mv);
            lemma_mul_mod_noop_right(a@ as int, x@, mv);
            lemma_mod_multiples_vanish(-y@, 1, mv);
            assert(a@ * x@ == mv * (-y@) + 1) by (nonlinear_arith)
                requires
                    a@ * x@ + mv * y@ == 1,
            ;
            assert(is_inverse_mod(a@, x_mod_m@ as nat, m@));
            lemma_inverse_unique(a@, x_mod_m@ as nat, inverse_mod(a@, m@), m@);
        }
        x_mod_m.to_natural()
    } else {
        None
    }
}

} // verus!
