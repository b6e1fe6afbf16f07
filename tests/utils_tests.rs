use vsss_rust::bignum::{Integer, Natural};
use vsss_rust::utils::{egcd, gen_rand, lagrange_interpolation_zero, mod_exp, mod_inv, Polynomial};

fn n(v: u64) -> Natural {
    Natural::from_u64(v)
}

fn i(v: i64) -> Integer {
    Integer::from_i64(v)
}

#[test]
fn test_polynomial_to_string() {
    let poly = Polynomial { coefficients: vec![n(1), n(2), n(3)] };
    let expected = "1 + 2x + 3x^2".to_string();
    assert_eq!(poly.to_string(), expected);
}

#[test]
fn test_mod_exp() {
    let base = n(2);
    let exponent = n(10);
    let modulus = n(1000);
    let result = mod_exp(&base, &exponent, &modulus);
    assert_eq!(result, n(24));
}

#[test]
fn test_mod_inv() {
    let a = n(3);
    let m = n(11);
    let inv = mod_inv(&a, &m).unwrap();
    assert_eq!(inv, n(4));
}

#[test]
fn test_lagrange_interpolation_zero() {
    let points = vec![(n(1), n(4)), (n(2), n(7)), (n(3), n(2))];
    let modulus = n(11);
    let secret = lagrange_interpolation_zero(&points, &modulus).unwrap();
    assert_eq!(secret, n(4));
}

#[test]
fn polynomial_to_string_edge_cases() {
    assert_eq!(Polynomial { coefficients: vec![] }.to_string(), "");
    assert_eq!(Polynomial { coefficients: vec![n(5)] }.to_string(), "5");
    let big = Natural::from_limbs(vec![0, 1]);
    let poly = Polynomial { coefficients: vec![n(0), big, n(0), n(7)] };
    assert_eq!(poly.to_string(), "0 + 4294967296x + 0x^2 + 7x^3");
}

#[test]
fn polynomial_evaluate_is_unreduced_sum() {
    let poly = Polynomial { coefficients: vec![n(1), n(2), n(3)] };
    assert_eq!(poly.evaluate(&n(2)), n(17));
    assert_eq!(poly.evaluate(&n(0)), n(1));
    let wide = Polynomial { coefficients: vec![n(0), n(u64::MAX)] };
    assert_eq!(wide.evaluate(&n(2)).limbs(), vec![u32::MAX - 1, u32::MAX, 1]);
    assert_eq!(Polynomial { coefficients: vec![] }.evaluate(&n(9)), n(0));
}

#[test]
fn polynomial_evaluate_is_deterministic() {
    let poly = Polynomial { coefficients: vec![n(1234), n(166), n(94)] };
    let first = poly.evaluate(&n(5));
    let second = poly.evaluate(&n(5));
    assert_eq!(first, second);
    assert_eq!(first, n(1234 + 166 * 5 + 94 * 25));
}

#[test]
fn polynomial_random_constructors() {
    let poly = Polynomial::new(4, 8);
    assert_eq!(poly.coefficients.len(), 5);
    for c in &poly.coefficients {
        assert!(!c.is_zero());
        assert!(c.bits() <= 8);
    }
    let shamir = Polynomial::new_for_shamir(2, 3, &n(42));
    assert_eq!(shamir.coefficients.len(), 3);
    assert_eq!(shamir.coefficients[0], n(42));
    for c in &shamir.coefficients[1..] {
        assert!(!c.is_zero());
        assert!(c.bits() <= 3);
    }
    let constant = Polynomial::new_for_shamir(0, 0, &n(9));
    assert_eq!(constant.coefficients.len(), 1);
    assert_eq!(constant.coefficients[0], n(9));
}

#[test]
fn gen_rand_stays_in_range() {
    for _ in 0..50 {
        let r = gen_rand(&n(3));
        assert!(r == n(1) || r == n(2));
    }
}

#[test]
fn mod_exp_values() {
    assert_eq!(mod_exp(&n(3), &n(0), &n(7)), n(1));
    assert_eq!(mod_exp(&n(3), &n(0), &n(1)), n(0));
    assert_eq!(mod_exp(&n(5), &n(3), &n(13)), n(8));
    assert_eq!(mod_exp(&n(2), &n(100), &n(1_000_000_007)), n(976371285));
}

#[test]
fn mod_inv_law_on_values() {
    for m in [2u64, 7, 11, 12, 97, 100] {
        for a in 0..(2 * m) {
            let r = mod_inv(&n(a), &n(m));
            let coprime = gcd(a, m) == 1;
            assert_eq!(r.is_some(), coprime, "a = {}, m = {}", a, m);
            if let Some(v) = r {
                assert_eq!(n(a).mul(&v).rem(&n(m)), n(1));
                assert!(v.bits() <= 64 && v.limbs().len() <= 2);
            }
        }
    }
    assert!(mod_inv(&n(6), &n(9)).is_none());
    assert_eq!(mod_inv(&n(5), &n(1)), Some(n(0)));
}

fn gcd(a: u64, b: u64) -> u64 {
    if a == 0 { b } else { gcd(b % a, a) }
}

#[test]
fn egcd_gives_bezout_coefficients() {
    let (g, x, y) = egcd(i(240), i(46));
    assert_eq!(g, i(2));
    assert_eq!(i(240).mul(&x).add(&i(46).mul(&y)), i(2));
    let (g, x, y) = egcd(i(0), i(5));
    assert_eq!((g, x, y), (i(5), i(0), i(1)));
    let (g, x, y) = egcd(i(-12), i(18));
    assert_eq!(g.mul(&g), i(36));
    assert_eq!(i(-12).mul(&x).add(&i(18).mul(&y)), g);
}

#[test]
fn lagrange_duplicate_x_has_no_result() {
    let points = vec![(n(1), n(4)), (n(1), n(7)), (n(3), n(2))];
    assert!(lagrange_interpolation_zero(&points, &n(11)).is_none());
}

#[test]
fn lagrange_edge_cases() {
    assert_eq!(lagrange_interpolation_zero(&[], &n(11)), Some(n(0)));
    assert_eq!(lagrange_interpolation_zero(&[(n(5), n(9))], &n(11)), Some(n(9)));
    // x-coordinates beyond the modulus are taken modulo it
    let points = vec![(n(12), n(4)), (n(2), n(7)), (n(3), n(2))];
    assert_eq!(lagrange_interpolation_zero(&points, &n(11)), Some(n(4)));
    // denominators sharing a factor with the modulus
    let points = vec![(n(1), n(1)), (n(3), n(2))];
    assert!(lagrange_interpolation_zero(&points, &n(10)).is_none());
}

#[test]
fn natural_arithmetic() {
    let a = Natural::from_limbs(vec![u32::MAX, u32::MAX]);
    assert_eq!(a, n(u64::MAX));
    assert_eq!(a.add(&n(1)).limbs(), vec![0, 0, 1]);
    assert_eq!(a.mul(&a).rem(&n(1_000_000_007)), n(((u64::MAX as u128 * u64::MAX as u128) % 1_000_000_007) as u64));
    assert_eq!(n(10).sub(&n(3)), n(7));
    assert_eq!(n(10).rem(&n(3)), n(1));
    assert_eq!(n(0).bits(), 0);
    assert_eq!(n(1234).bits(), 11);
    assert_eq!(Natural::power_of_two(40), n(1 << 40));
    assert_eq!(n(1234).to_string(), "1234");
    assert_eq!(n(0).to_string(), "0");
    assert_eq!(Natural::from_limbs(vec![5, 0, 0]), n(5));
    assert!(Natural::zero().is_zero());
    assert_eq!(n(7).modpow(&n(2), &n(10)), n(9));
    let r = Natural::random_range(&n(10), &n(12));
    assert!(r == n(10) || r == n(11));
    assert_eq!(n(77).duplicate(), n(77));
}

#[test]
fn integer_arithmetic() {
    assert_eq!(i(-7).div(&i(2)), i(-3));
    assert_eq!(i(-7).rem(&i(2)), i(-1));
    assert_eq!(i(7).div(&i(-2)), i(-3));
    assert_eq!(i(7).rem(&i(-2)), i(1));
    assert_eq!(i(-7).sub(&i(3)), i(-10));
    assert_eq!(i(-7).add(&i(10)), i(3));
    assert_eq!(i(-4).mul(&i(-5)), i(20));
    assert_eq!(i(i64::MIN).add(&i(i64::MAX)), i(-1));
    assert!(i(0).is_zero());
    assert_eq!(i(5).to_natural(), Some(n(5)));
    assert_eq!(i(-5).to_natural(), None);
    assert_eq!(Integer::from_natural(&n(8)), i(8));
    assert_eq!(i(-2).duplicate(), i(-2));
}
