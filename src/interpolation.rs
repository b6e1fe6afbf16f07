//! Why interpolation recovers a shared secret: the interpolating polynomial
//! and the sharing polynomial agree at every share, so their difference has
//! more roots than its degree and vanishes modulo a prime, at zero too.

use crate::lagrange::{
    denominator, denominators_invertible, lagrange_sum, lagrange_term, lemma_distinct_points_invertible,
    numerator, reduced_denominator,
};
use crate::modular::{gcd, inverse_mod, is_inverse_mod, is_prime, lemma_prime_product};
use crate::polynomial::poly_eval;
use vstd::arithmetic::div_mod::{lemma_mod_bound, lemma_mod_twice, lemma_mul_mod_noop, lemma_small_mod};
use vstd::arithmetic::power::pow;
use vstd::prelude::*;

verus! {

/// The value at `x` of the polynomial with integer coefficients `c`,
/// constant term first, by Horner's rule.
pub open spec fn horner(c: Seq<int>, x: int) -> int
    decreases c.len(),
{
    if c.len() == 0 {
        0
    } else {
        c[0] + x * horner(c.drop_first(), x)
    }
}

/// The coefficients as integers.
pub open spec fn as_ints(c: Seq<nat>) -> Seq<int> {
    c.map_values(|v: nat| v as int)
}

proof fn lemma_horner_push(c: Seq<int>, v: int, x: int)
    ensures
        horner(c.push(v), x) == horner(c, x) + v * pow(x, c.len()),
    decreases c.len(),
{
    reveal(pow);
    if c.len() == 0 {
        assert(c.push(v).drop_first() =~= Seq::<int>::empty());
        assert(horner(Seq::<int>::empty(), x) == 0);
        assert(horner(c.push(v), x) == v + x * 0);
    } else {
        assert(c.push(v).drop_first() =~= c.drop_first().push(v));
        lemma_horner_push(c.drop_first(), v, x);
        let h = horner(c.drop_first(), x);
        let p = pow(x, (c.len() - 1) as nat);
        assert(pow(x, c.len()) == x * p);
        assert(horner(c.push(v), x) == c[0] + x * horner(c.drop_first().push(v), x));
        assert(x * (h + v * p) == x * h + v * (x * p)) by (nonlinear_arith);
    }
}

/// Summing the terms and Horner's rule agree.
pub proof fn lemma_poly_eval_horner(c: Seq<nat>, x: int)
    ensures
        poly_eval(c, x) == horner(as_ints(c), x),
    decreases c.len(),
{
    if c.len() > 0 {
        lemma_poly_eval_horner(c.drop_last(), x);
        assert(as_ints(c) =~= as_ints(c.drop_last()).push(c.last() as int));
        lemma_horner_push(as_ints(c.drop_last()), c.last() as int, x);
    }
}

/// The quotient of `c(X) - c(a)` by `X - a`.
pub open spec fn quotient(c: Seq<int>, a: int) -> Seq<int>
    decreases c.len(),
{
    if c.len() <= 1 {
        seq![]
    } else {
        seq![horner(c.drop_first(), a)] + quotient(c.drop_first(), a)
    }
}

proof fn lemma_quotient(c: Seq<int>, a: int, x: int)
    ensures
        horner(c, x) - horner(c, a) == (x - a) * horner(quotient(c, a), x),
        c.len() >= 1 ==> quotient(c, a).len() == c.len() - 1,
    decreases c.len(),
{
    if c.len() == 1 {
        assert(horner(c.drop_first(), x) == 0);
        assert(horner(c.drop_first(), a) == 0);
        assert(horner(quotient(c, a), x) == 0);
    } else if c.len() > 1 {
        let d = c.drop_first();
        lemma_quotient(d, a, x);
        let q = quotient(c, a);
        assert(q.drop_first() =~= quotient(d, a));
        let (hx, ha, hq) = (horner(d, x), horner(d, a), horner(quotient(d, a), x));
        assert(horner(q, x) == ha + x * hq);
        assert(x * hx - a * ha == (x - a) * (ha + x * hq)) by (nonlinear_arith)
            requires
                hx - ha == (x - a) * hq,
        ;
    }
}

/// Modulo a prime, a product is zero only when a factor is.
proof fn lemma_prime_factor(u: int, v: int, m: nat)
    requires
        is_prime(m),
        (u * v) % (m as int) == 0,
        u % (m as int) != 0,
    ensures
        v % (m as int) == 0,
{
    let mi = m as int;
    if v % mi != 0 {
        lemma_mod_bound(u, mi);
        lemma_mod_bound(v, mi);
        lemma_mod_twice(u, mi);
        lemma_mod_twice(v, mi);
        lemma_prime_product(m, (u % mi) as nat, (v % mi) as nat);
        lemma_mul_mod_noop(u, v, mi);
    }
}

/// Modulo a prime, a polynomial with fewer coefficients than it has roots at
/// distinct points vanishes everywhere.
pub proof fn lemma_roots_vanish(c: Seq<int>, xs: Seq<int>, m: nat, z: int)
    requires
        is_prime(m),
        c.len() <= xs.len(),
        forall|i: int, j: int|
            0 <= i < xs.len() && 0 <= j < xs.len() && i != j ==> #[trigger] (xs[i] % (m as int)) != #[trigger] (
            xs[j] % (m as int)),
        forall|i: int| 0 <= i < xs.len() ==> #[trigger] horner(c, xs[i]) % (m as int) == 0,
    ensures
        horner(c, z) % (m as int) == 0,
    decreases xs.len(),
{
    let mi = m as int;
    if c.len() == 0 {
        lemma_small_mod(0, m);
    } else {
        let k = xs.len() - 1;
        let a = xs[k];
        let q = quotient(c, a);
        let rest = xs.drop_last();
        lemma_quotient(c, a, z);
        assert forall|i: int| 0 <= i < rest.len() implies #[trigger] horner(q, rest[i]) % mi == 0 by {
            let x = rest[i];
            assert(x == xs[i]);
            lemma_quotient(c, a, x);
            assert(horner(c, x) % mi == 0);
            assert(horner(c, a) % mi == 0);
            vstd::arithmetic::div_mod::lemma_sub_mod_noop(horner(c, x), horner(c, a), mi);
            lemma_small_mod(0, m);
            vstd::arithmetic::div_mod::lemma_mod_equivalence(x, a, mi);
            lemma_prime_factor(x - a, horner(q, x), m);
        }
        assert forall|i: int, j: int|
            0 <= i < rest.len() && 0 <= j < rest.len() && i != j implies #[trigger] (rest[i] % mi) != #[trigger] (
            rest[j] % mi) by {
            assert(rest[i] == xs[i] && rest[j] == xs[j]);
        }
        lemma_roots_vanish(q, rest, m, z);
        assert(horner(c, a) % mi == 0);
        lemma_mul_mod_noop(z - a, horner(q, z), mi);
        lemma_small_mod(0, m);
        assert((z - a) * (horner(q, z) % mi) == 0);
        vstd::arithmetic::div_mod::lemma_add_mod_noop(horner(c, a), (z - a) * horner(q, z), mi);
    }
}

/// The coefficients of the sum of two polynomials.
pub open spec fn add_coeffs(c: Seq<int>, d: Seq<int>) -> Seq<int>
    decreases c.len(),
{
    if c.len() == 0 {
        d
    } else if d.len() == 0 {
        c
    } else {
        seq![c[0] + d[0]] + add_coeffs(c.drop_first(), d.drop_first())
    }
}

proof fn lemma_add_coeffs(c: Seq<int>, d: Seq<int>, x: int)
    ensures
        horner(add_coeffs(c, d), x) == horner(c, x) + horner(d, x),
        add_coeffs(c, d).len() <= if c.len() < d.len() { d.len() } else { c.len() },
    decreases c.len(),
{
    if c.len() == 0 {
        assert(horner(c, x) == 0);
    } else if d.len() == 0 {
        assert(horner(d, x) == 0);
    } else {
        let s = add_coeffs(c, d);
        lemma_add_coeffs(c.drop_first(), d.drop_first(), x);
        assert(s.drop_first() =~= add_coeffs(c.drop_first(), d.drop_first()));
        let (hc, hd) = (horner(c.drop_first(), x), horner(d.drop_first(), x));
        assert(x * (hc + hd) == x * hc + x * hd) by (nonlinear_arith);
    }
}

/// The coefficients of a polynomial multiplied by `k`.
pub open spec fn scale_coeffs(c: Seq<int>, k: int) -> Seq<int> {
    c.map_values(|v: int| k * v)
}

proof fn lemma_scale_coeffs(c: Seq<int>, k: int, x: int)
    ensures
        horner(scale_coeffs(c, k), x) == k * horner(c, x),
        scale_coeffs(c, k).len() == c.len(),
    decreases c.len(),
{
    if c.len() > 0 {
        lemma_scale_coeffs(c.drop_first(), k, x);
        assert(scale_coeffs(c, k).drop_first() =~= scale_coeffs(c.drop_first(), k));
        let h = horner(c.drop_first(), x);
        assert(k * c[0] + x * (k * h) == k * (c[0] + x * h)) by (nonlinear_arith);
    }
}

/// The coefficients of a polynomial multiplied by `X - a`.
pub open spec fn times_linear(c: Seq<int>, a: int) -> Seq<int>
    decreases c.len(),
{
    if c.len() == 0 {
        seq![]
    } else {
        seq![-a * c[0]] + add_coeffs(seq![c[0]], times_linear(c.drop_first(), a))
    }
}

proof fn lemma_times_linear(c: Seq<int>, a: int, x: int)
    ensures
        horner(times_linear(c, a), x) == (x - a) * horner(c, x),
        times_linear(c, a).len() <= c.len() + 1,
    decreases c.len(),
{
    if c.len() > 0 {
        let d = c.drop_first();
        let t = times_linear(d, a);
        lemma_times_linear(d, a, x);
        lemma_add_coeffs(seq![c[0]], t, x);
        assert(horner(seq![c[0]].drop_first(), x) == 0);
        assert(horner(seq![c[0]], x) == c[0]);
        let s = times_linear(c, a);
        assert(s.drop_first() =~= add_coeffs(seq![c[0]], t));
        let h = horner(d, x);
        assert(-a * c[0] + x * (c[0] + (x - a) * h) == (x - a) * (c[0] + x * h)) by (nonlinear_arith);
    }
}

/// The product of `z - x_j` over the first `n` points but the `i`-th.
pub open spec fn basis_value(p: Seq<(nat, nat)>, i: int, n: nat, z: int) -> int
    decreases n,
{
    if n == 0 {
        1
    } else if n - 1 == i {
        basis_value(p, i, (n - 1) as nat, z)
    } else {
        basis_value(p, i, (n - 1) as nat, z) * (z - p[n - 1].0)
    }
}

/// The coefficients of the product of `X - x_j` over the first `n` points
/// but the `i`-th.
pub open spec fn basis_coeffs(p: Seq<(nat, nat)>, i: int, n: nat) -> Seq<int>
    decreases n,
{
    if n == 0 {
        seq![1]
    } else if n - 1 == i {
        basis_coeffs(p, i, (n - 1) as nat)
    } else {
        times_linear(basis_coeffs(p, i, (n - 1) as nat), p[n - 1].0 as int)
    }
}

proof fn lemma_basis(p: Seq<(nat, nat)>, i: int, n: nat, z: int)
    requires
        n <= p.len(),
        i >= 0,
    ensures
        horner(basis_coeffs(p, i, n), z) == basis_value(p, i, n, z),
        basis_coeffs(p, i, n).len() <= if i < n { n as int } else { n + 1int },
        numerator(p, i, n) == basis_value(p, i, n, 0),
        i < p.len() ==> denominator(p, i, n) == basis_value(p, i, n, p[i].0 as int),
    decreases n,
{
    if n == 0 {
        let one = seq![1int];
        assert(one.drop_first() =~= Seq::<int>::empty());
        assert(horner(one.drop_first(), z) == 0);
        assert(horner(one, z) == 1 + z * 0);
    } else {
        lemma_basis(p, i, (n - 1) as nat, z);
        if n - 1 != i {
            lemma_times_linear(basis_coeffs(p, i, (n - 1) as nat), p[n - 1].0 as int, z);
            let (b, f) = (basis_value(p, i, (n - 1) as nat, z), z - p[n - 1].0);
            assert(f * b == b * f) by (nonlinear_arith);
        }
    }
}

/// A basis product vanishes at every point it runs over.
proof fn lemma_basis_vanishes(p: Seq<(nat, nat)>, i: int, n: nat, k: int)
    requires
        n <= p.len(),
        0 <= k < n,
        k != i,
    ensures
        basis_value(p, i, n, p[k].0 as int) == 0,
    decreases n,
{
    let prev = basis_value(p, i, (n - 1) as nat, p[k].0 as int);
    if k < n - 1 {
        lemma_basis_vanishes(p, i, (n - 1) as nat, k);
        assert(prev == 0);
        assert(prev * (p[k].0 as int - p[n - 1].0) == 0);
    } else {
        assert(prev * (p[k].0 as int - p[n - 1].0) == prev * 0);
    }
}

/// An inverse exists where `a` and `m` are coprime.
pub proof fn lemma_inverse_exists(a: nat, m: nat)
    requires
        m > 0,
        gcd(a, m) == 1,
    ensures
        is_inverse_mod(a, inverse_mod(a, m), m),
{
    let mi = m as int;
    let (x, y) = crate::modular::lemma_bezout(a, m);
    let w = x % mi;
    lemma_mod_bound(x, mi);
    vstd::arithmetic::div_mod::lemma_mul_mod_noop_right(a as int, x, mi);
    vstd::arithmetic::div_mod::lemma_mod_multiples_vanish(-y, 1, mi);
    assert(a * x == mi * (-y) + 1) by (nonlinear_arith)
        requires
            a * x + mi * y == 1,
    ;
    assert(is_inverse_mod(a, w as nat, m));
}

/// The weight of the `i`-th basis polynomial: `y_i` over its denominator.
pub open spec fn weight(p: Seq<(nat, nat)>, i: int, m: nat) -> int {
    (p[i].1 * inverse_mod(reduced_denominator(p, i, m), m)) as int
}

/// The coefficients of the sum of the first `cnt` weighted basis polynomials.
pub open spec fn interpolant(p: Seq<(nat, nat)>, cnt: nat, m: nat) -> Seq<int>
    decreases cnt,
{
    if cnt == 0 {
        seq![]
    } else {
        add_coeffs(
            interpolant(p, (cnt - 1) as nat, m),
            scale_coeffs(basis_coeffs(p, cnt - 1, p.len()), weight(p, cnt - 1, m)),
        )
    }
}

/// The value at `z` of the sum of the first `cnt` weighted basis polynomials.
pub open spec fn interpolant_value(p: Seq<(nat, nat)>, cnt: nat, m: nat, z: int) -> int
    decreases cnt,
{
    if cnt == 0 {
        0
    } else {
        interpolant_value(p, (cnt - 1) as nat, m, z) + weight(p, cnt - 1, m) * basis_value(
            p,
            cnt - 1,
            p.len(),
            z,
        )
    }
}

proof fn lemma_interpolant(p: Seq<(nat, nat)>, cnt: nat, m: nat, z: int)
    requires
        cnt <= p.len(),
    ensures
        horner(interpolant(p, cnt, m), z) == interpolant_value(p, cnt, m, z),
        interpolant(p, cnt, m).len() <= p.len(),
        interpolant_value(p, cnt, m, 0) == lagrange_sum(p, cnt, m),
    decreases cnt,
{
    if cnt > 0 {
        let i = cnt - 1;
        lemma_interpolant(p, (cnt - 1) as nat, m, z);
        lemma_basis(p, i, p.len(), z);
        lemma_basis(p, i, p.len(), 0);
        lemma_scale_coeffs(basis_coeffs(p, i, p.len()), weight(p, i, m), z);
        lemma_add_coeffs(
            interpolant(p, (cnt - 1) as nat, m),
            scale_coeffs(basis_coeffs(p, i, p.len()), weight(p, i, m)),
            z,
        );
        let (y, inv, num) = (p[i].1 as int, inverse_mod(reduced_denominator(p, i, m), m) as int, numerator(p, i, p.len()));
        assert(y * inv * num == y * num * inv) by (nonlinear_arith);
    } else {
        assert(horner(Seq::<int>::empty(), z) == 0);
    }
}

/// At the `k`-th point only the `k`-th basis polynomial is not zero.
proof fn lemma_interpolant_at_point(p: Seq<(nat, nat)>, cnt: nat, m: nat, k: int)
    requires
        cnt <= p.len(),
        0 <= k < p.len(),
    ensures
        interpolant_value(p, cnt, m, p[k].0 as int) == if k < cnt {
            weight(p, k, m) * denominator(p, k, p.len())
        } else {
            0
        },
    decreases cnt,
{
    if cnt > 0 {
        let i = cnt - 1;
        lemma_interpolant_at_point(p, (cnt - 1) as nat, m, k);
        if i != k {
            lemma_basis_vanishes(p, i, p.len(), k);
        } else {
            lemma_basis(p, k, p.len(), 0);
        }
    }
}

/// Shares of a polynomial with at most as many coefficients as there are
/// shares, at indices distinct modulo a prime, interpolate to its constant
/// term: reconstruction succeeds and gives back the secret, when the secret
/// is below the modulus.
pub proof fn lemma_reconstruction_recovers_secret(c: Seq<nat>, p: Seq<(nat, nat)>, m: nat)
    requires
        is_prime(m),
        1 <= c.len() <= p.len(),
        c[0] < m,
        forall|i: int, j: int|
            0 <= i < p.len() && 0 <= j < p.len() && i != j ==> #[trigger] (p[i].0 % m) != #[trigger] (p[j].0
                % m),
        forall|i: int| 0 <= i < p.len() ==> #[trigger] p[i].1 == poly_eval(c, p[i].0 as int) % (m as int),
    ensures
        denominators_invertible(p, m),
        lagrange_sum(p, p.len(), m) % (m as int) == c[0],
{
    let mi = m as int;
    let n = p.len();
    lemma_distinct_points_invertible(p, m);
    let pc = as_ints(c);
    let diff = add_coeffs(interpolant(p, n, m), scale_coeffs(pc, -1));
    let xs = p.map_values(|q: (nat, nat)| q.0 as int);
    lemma_small_mod(1, m);
    assert forall|k: int| 0 <= k < xs.len() implies #[trigger] horner(diff, xs[k]) % mi == 0 by {
        let x = p[k].0 as int;
        assert(xs[k] == x);
        lemma_interpolant(p, n, m, x);
        lemma_interpolant_at_point(p, n, m, k);
        lemma_scale_coeffs(pc, -1, x);
        lemma_add_coeffs(interpolant(p, n, m), scale_coeffs(pc, -1), x);
        lemma_poly_eval_horner(c, x);
        // the weight times the denominator is y_k modulo m
        let r = reduced_denominator(p, k, m);
        assert(gcd(r, m) == 1);
        lemma_inverse_exists(r, m);
        let inv = inverse_mod(r, m) as int;
        let d = denominator(p, k, n);
        let y = p[k].1 as int;
        lemma_mul_mod_noop(d, inv, mi);
        lemma_mod_twice(inv, mi);
        lemma_small_mod(inv as nat, m);
        assert((d * inv) % mi == 1);
        lemma_mul_mod_noop(y, d * inv, mi);
        assert(y * inv * d == y * (d * inv)) by (nonlinear_arith);
        lemma_mod_bound(y, mi);
        lemma_small_mod(y as nat, m);
        assert((y * inv * d) % mi == y);
        // so the difference is zero modulo m
        let pv = poly_eval(c, x);
        assert(horner(diff, x) == y * inv * d - pv);
        vstd::arithmetic::div_mod::lemma_sub_mod_noop(y * inv * d, pv, mi);
        lemma_mod_twice(pv, mi);
        lemma_small_mod(0, m);
    }
    assert forall|i: int, j: int|
        0 <= i < xs.len() && 0 <= j < xs.len() && i != j implies #[trigger] (xs[i] % mi) != #[trigger] (xs[j]
        % mi) by {
        assert((p[i].0 % m) != (p[j].0 % m));
    }
    lemma_interpolant(p, n, m, 0);
    lemma_scale_coeffs(pc, -1, 0);
    lemma_add_coeffs(interpolant(p, n, m), scale_coeffs(pc, -1), 0);
    lemma_roots_vanish(diff, xs, m, 0);
    // the sharing polynomial is its constant term at zero
    assert(pc.drop_first().len() == c.len() - 1);
    assert(horner(pc, 0) == c[0] + 0 * horner(pc.drop_first(), 0));
    let s = lagrange_sum(p, n, m);
    vstd::arithmetic::div_mod::lemma_sub_mod_noop(s, c[0] as int, mi);
    lemma_small_mod(c[0], m);
    lemma_mod_bound(s, mi);
    lemma_small_mod(0, m);
    vstd::arithmetic::div_mod::lemma_mod_equivalence(s, c[0] as int, mi);
}

} // verus!
