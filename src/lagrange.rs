//! Lagrange interpolation at zero, modulo a modulus.

use crate::bignum::Natural;
use crate::modular::{gcd, inverse_mod, is_prime, lemma_gcd_divides, lemma_prime_product, mod_inv};
use vstd::arithmetic::div_mod::{
    lemma_add_mod_noop, lemma_fundamental_div_mod, lemma_mod_bound, lemma_mod_multiples_vanish,
    lemma_mul_mod_noop,
};
use vstd::prelude::*;

verus! {

/// The points as pairs of plain numbers.
pub open spec fn points_view(points: Seq<(Natural, Natural)>) -> Seq<(nat, nat)> {
    points.map_values(|p: (Natural, Natural)| (p.0@, p.1@))
}

/// The product of `-x_j` over the first `n` points but the `i`-th.
pub open spec fn numerator(p: Seq<(nat, nat)>, i: int, n: nat) -> int
    decreases n,
{
    if n == 0 {
        1
    } else if n - 1 == i {
        numerator(p, i, (n - 1) as nat)
    } else {
        numerator(p, i, (n - 1) as nat) * (-(p[n - 1].0 as int))
    }
}

/// The product of `x_i - x_j` over the first `n` points but the `i`-th.
pub open spec fn denominator(p: Seq<(nat, nat)>, i: int, n: nat) -> int
    decreases n,
{
    if n == 0 {
        1
    } else if n - 1 == i {
        denominator(p, i, (n - 1) as nat)
    } else {
        denominator(p, i, (n - 1) as nat) * (p[i].0 as int - p[n - 1].0 as int)
    }
}

/// The `i`-th denominator, reduced modulo `m`.
pub open spec fn reduced_denominator(p: Seq<(nat, nat)>, i: int, m: nat) -> nat {
    (denominator(p, i, p.len()) % (m as int)) as nat
}

/// The `i`-th term of the interpolation at zero: `y_i` times the `i`-th basis
/// polynomial at zero.
pub open spec fn lagrange_term(p: Seq<(nat, nat)>, i: int, m: nat) -> int {
    p[i].1 * numerator(p, i, p.len()) * inverse_mod(reduced_denominator(p, i, m), m)
}

/// The sum of the first `n` terms.
pub open spec fn lagrange_sum(p: Seq<(nat, nat)>, n: nat, m: nat) -> int
    decreases n,
{
    if n == 0 {
        0
    } else {
        lagrange_sum(p, (n - 1) as nat, m) + lagrange_term(p, n - 1, m)
    }
}

/// Whether every denominator is invertible modulo `m`.
pub open spec fn denominators_invertible(p: Seq<(nat, nat)>, m: nat) -> bool {
    forall|i: int| 0 <= i < p.len() ==> gcd(#[trigger] reduced_denominator(p, i, m), m) == 1
}

/// A partial denominator is not divisible by a prime `m` when the
/// x-coordinates differ modulo `m`.
proof fn lemma_denominator_nonzero(p: Seq<(nat, nat)>, i: int, n: nat, m: nat)
    requires
        is_prime(m),
        0 <= i < p.len(),
        n <= p.len(),
        forall|j: int| 0 <= j < p.len() && j != i ==> #[trigger] (p[j].0 % m) != p[i].0 % m,
    ensures
        denominator(p, i, n) % (m as int) != 0,
    decreases n,
{
    let mi = m as int;
    if n == 0 {
        vstd::arithmetic::div_mod::lemma_small_mod(1, m);
    } else {
        lemma_denominator_nonzero(p, i, (n - 1) as nat, m);
        let j = n - 1;
        if j != i {
            let d = denominator(p, i, (n - 1) as nat);
            let f = p[i].0 as int - p[j].0 as int;
            vstd::arithmetic::div_mod::lemma_mod_equivalence(p[i].0 as int, p[j].0 as int, mi);
            lemma_mod_bound(d, mi);
            lemma_mod_bound(f, mi);
            vstd::arithmetic::div_mod::lemma_mod_twice(d, mi);
            vstd::arithmetic::div_mod::lemma_mod_twice(f, mi);
            lemma_prime_product(m, (d % mi) as nat, (f % mi) as nat);
            lemma_mul_mod_noop(d, f, mi);
        }
    }
}

/// Points whose x-coordinates differ modulo a prime `m` have invertible
/// denominators, so that interpolating them gives a result.
pub proof fn lemma_distinct_points_invertible(p: Seq<(nat, nat)>, m: nat)
    requires
        is_prime(m),
        forall|i: int, j: int|
            0 <= i < p.len() && 0 <= j < p.len() && i != j ==> #[trigger] (p[i].0 % m) != #[trigger] (p[j].0
                % m),
    ensures
        denominators_invertible(p, m),
{
    assert forall|i: int| 0 <= i < p.len() implies gcd(#[trigger] reduced_denominator(p, i, m), m) == 1 by {
        assert forall|j: int| 0 <= j < p.len() && j != i implies #[trigger] (p[j].0 % m) != p[i].0 % m by {
            assert((p[i].0 % m) != (p[j].0 % m));
        }
        lemma_denominator_nonzero(p, i, p.len(), m);
        let r = reduced_denominator(p, i, m);
        lemma_mod_bound(denominator(p, i, p.len()), m as int);
        lemma_gcd_divides(r, m);
        let g = gcd(r, m);
        if g != 1 {
            vstd::arithmetic::div_mod::lemma_mod_is_zero(m, g);
            if g < m {
                assert(m % g != 0);
            } else {
                vstd::arithmetic::div_mod::lemma_small_mod(r, m);
            }
        }
    }
}

/// `m - (x mod m)` and `a + m - (x mod m)` are `-x` and `a - x` modulo `m`.
proof fn lemma_negate_mod(a: int, x: int, m: int)
    requires
        m > 0,
    ensures
        (m - x % m) % m == (-x) % m,
        (a + m - x % m) % m == (a - x) % m,
{
    lemma_fundamental_div_mod(x, m);
    lemma_mod_multiples_vanish(1 + x / m, -x, m);
    lemma_mod_multiples_vanish(1 + x / m, a - x, m);
    assert(m * (1 + x / m) + -x == m - x % m) by (nonlinear_arith)
        requires
            x == m * (x / m) + x % m,
    ;
    assert(m * (1 + x / m) + (a - x) == a + m - x % m) by (nonlinear_arith)
        requires
            x == m * (x / m) + x % m,
    ;
}

/// Multiplying a running product reduced modulo `m` by a factor reduced
/// modulo `m` gives the product reduced modulo `m`.
proof fn lemma_product_step(acc: int, f: int, g: int, m: int)
    requires
        m > 0,
        f % m == g % m,
    ensures
        ((acc % m) * (f % m)) % m == (acc * g) % m,
{
    lemma_mul_mod_noop(acc, g, m);
}

/// Adding a reduced term to a reduced sum.
proof fn lemma_sum_step(s: int, y: int, num: int, inv: int, m: int)
    requires
        m > 0,
    ensures
        ((s % m) + ((y * (num % m) * inv) % m)) % m == (s + y * num * inv) % m,
{
    lemma_mul_mod_noop(y * inv, num, m);
    lemma_mul_mod_noop(y * inv, num % m, m);
    lemma_mod_bound(num, m);
    vstd::arithmetic::div_mod::lemma_mod_twice(num, m);
    assert(y * (num % m) * inv == (y * inv) * (num % m)) by (nonlinear_arith);
    assert(y * num * inv == (y * inv) * num) by (nonlinear_arith);
    lemma_add_mod_noop(s, y * num * inv, m);
}

/// The value at zero, modulo `modulus`, of the polynomial through `points`:
/// the sum over the points of `y_i` times the product of `-x_j / (x_i - x_j)`
/// over the other points. It is `None` when a denominator has no inverse
/// modulo `modulus`, as happens when two points share an `x`.
pub fn lagrange_interpolation_zero(points: &[(Natural, Natural)], modulus: &Natural) -> (r: Option<Natural>)
    requires
        modulus@ > 0,
    ensures
        r is Some <==> denominators_invertible(points_view(points@), modulus@),
        r matches Some(v) ==> v@ == lagrange_sum(
            points_view(points@),
            points@.len(),
            modulus@,
        ) % (modulus@ as int),
{
    let ghost p = points_view(points@);
    let ghost m = modulus@ as int;
    let n = points.len();
    let mut secret = Natural::zero();
    proof {
        vstd::arithmetic::div_mod::lemma_small_mod(0, modulus@);
    }
    let mut i: usize = 0;
    while i < n
        invariant
            n == points@.len(),
            p == points_view(points@),
            m == modulus@,
            m > 0,
            i <= n,
            secret@ == lagrange_sum(p, i as nat, modulus@) % m,
            forall|k: int| 0 <= k < i ==> gcd(#[trigger] reduced_denominator(p, k, modulus@), modulus@) == 1,
        decreases n - i,
    {
        let x_i = &points[i].0;
        let y_i = &points[i].1;
        let mut numer = Natural::from_u64(1).rem(modulus);
        let mut denom = Natural::from_u64(1).rem(modulus);
        let mut j: usize = 0;
        while j < n
            invariant
                n == points@.len(),
                p == points_view(points@),
                m == modulus@,
                m > 0,
                i < n,
                j <= n,
                x_i@ == p[i as int].0,
                numer@ == numerator(p, i as int, j as nat) % m,
                denom@ == denominator(p, i as int, j as nat) % m,
            decreases n - j,
        {
            if i != j {
                let x_j = points[j].0.rem(modulus);
                let x_diff = modulus.sub(&x_j).rem(modulus);
                let gap = x_i.add(modulus).sub(&x_j).rem(modulus);
                proof {
                    let xj = p[j as int].0 as int;
                    lemma_mod_bound(xj, m);
                    lemma_negate_mod(x_i@ as int, xj, m);
                    vstd::arithmetic::div_mod::lemma_mod_twice(-xj, m);
                    vstd::arithmetic::div_mod::lemma_mod_twice(x_i@ - xj, m);
                    lemma_product_step(numerator(p, i as int, j as nat), x_diff@ as int, -xj, m);
                    lemma_product_step(denominator(p, i as int, j as nat), gap@ as int, x_i@ - xj, m);
                    lemma_mod_bound(numerator(p, i as int, j as nat), m);
                    lemma_mod_bound(denominator(p, i as int, j as nat), m);
                    vstd::arithmetic::div_mod::lemma_small_mod(x_diff@, modulus@);
                    vstd::arithmetic::div_mod::lemma_small_mod(gap@, modulus@);
                    vstd::arithmetic::div_mod::lemma_small_mod(numer@, modulus@);
                    vstd::arithmetic::div_mod::lemma_small_mod(denom@, modulus@);
                }
                numer = numer.mul(&x_diff).rem(modulus);
                denom = denom.mul(&gap).rem(modulus);
            }
            j = j + 1;
        }
        assert(p.len() == n);
        assert(denom@ == reduced_denominator(p, i as int, modulus@));
        let inv = match mod_inv(&denom, modulus) {
            Some(v) => v,
            None => {
                assert(!denominators_invertible(p, modulus@));
                return None;
            },
        };
        let term = y_i.mul(&numer).mul(&inv).rem(modulus);
        proof {
            lemma_sum_step(lagrange_sum(p, i as nat, modulus@), y_i@ as int, numerator(p, i as int, n as nat), inv@ as int, m);
        }
        secret = secret.add(&term).rem(modulus);
        i = i + 1;
    }
    Some(secret)
}

} // verus!
