use num_bigint::BigUint;
use num_prime::{PrimalityTestConfig, RandPrime};
use vsss_rust::bignum::Natural;
use vsss_rust::feldman_verifiability::{reconstruct_secret, verify_share, FeldmanVSSParams};
use vsss_rust::polynomial::Polynomial;
use vsss_rust::shamirs_secret_sharing::{
    generate_shares, reconstruct_secret as sss_reconstruct_secret, shares_from_polynomial,
};

fn n(v: u64) -> Natural {
    Natural::from_u64(v)
}

fn generate_prime(bit_size: usize) -> Natural {
    let p: BigUint = rand::thread_rng().gen_prime(bit_size, Some(PrimalityTestConfig::default()));
    Natural::from_limbs(p.to_u32_digits())
}

// 2^61 - 1, a prime
const MERSENNE_61: u64 = 2305843009213693951;

#[test]
fn test_share_generation_and_verification() {
    let secret = n(1234);
    let threshold = 3;
    let num_shares = 5;

    let g = n(2);
    let q = generate_prime(256);

    let params = FeldmanVSSParams::new(g, q);

    let (shares, commitments) = params.generate_shares(&secret, threshold, num_shares);

    for (i, &(ref x, ref y)) in shares.iter().enumerate() {
        assert!(verify_share(x, y, &commitments, &params), "Share {} failed verification", i + 1);
    }

    let reconstructed_secret = reconstruct_secret(&shares[..threshold], &params.q).unwrap();
    assert_eq!(secret, reconstructed_secret, "Reconstructed secret does not match the original secret.");
}

#[test]
fn test_generate_and_reconstruct_shares() {
    let secret = n(87985);
    let threshold = 3;
    let num_shares = 5;
    let modulus = n(678879987);

    let shares = generate_shares(&secret, threshold, num_shares, &modulus);

    let reconstructed_secret = sss_reconstruct_secret(&shares[..threshold], &modulus).unwrap();

    assert_eq!(secret, reconstructed_secret);
}

#[test]
fn round_trip_from_any_threshold_subset() {
    let secret = n(1234);
    let modulus = n(7919);
    let shares = generate_shares(&secret, 3, 5, &modulus);
    assert_eq!(shares.len(), 5);
    for (k, (x, _)) in shares.iter().enumerate() {
        assert_eq!(*x, n(k as u64 + 1));
    }
    let subsets: [[usize; 3]; 4] = [[0, 1, 2], [2, 3, 4], [0, 2, 4], [4, 1, 3]];
    for subset in subsets {
        let chosen: Vec<(Natural, Natural)> = subset.iter().map(|&k| shares[k].clone()).collect();
        assert_eq!(sss_reconstruct_secret(&chosen, &modulus), Some(secret.clone()));
    }
    // more shares than the threshold give the secret too
    assert_eq!(sss_reconstruct_secret(&shares, &modulus), Some(secret));
}

#[test]
fn round_trip_zero_secret_and_threshold_one() {
    let modulus = n(MERSENNE_61);
    let shares = generate_shares(&n(0), 3, 4, &modulus);
    assert_eq!(sss_reconstruct_secret(&shares[1..], &modulus), Some(n(0)));
    let single = generate_shares(&n(99), 1, 3, &modulus);
    for (_, y) in &single {
        assert_eq!(*y, n(99));
    }
    assert_eq!(sss_reconstruct_secret(&single[2..], &modulus), Some(n(99)));
}

#[test]
fn under_threshold_does_not_reliably_recover() {
    let secret = n(987654321);
    let modulus = n(MERSENNE_61);
    let mut mismatches = 0;
    for _ in 0..20 {
        let shares = generate_shares(&secret, 3, 5, &modulus);
        let guess = sss_reconstruct_secret(&shares[..2], &modulus).unwrap();
        if guess != secret {
            mismatches += 1;
        }
    }
    assert!(mismatches > 0);
}

#[test]
fn shares_of_fixed_polynomial() {
    let poly = Polynomial { coefficients: vec![n(4), n(5), n(6)] };
    let shares = shares_from_polynomial(&poly, 3, &n(11));
    let expected = vec![(n(1), n(4)), (n(2), n(5)), (n(3), n(7))];
    assert_eq!(shares, expected);
    assert_eq!(sss_reconstruct_secret(&shares, &n(11)), Some(n(4)));
}

#[test]
fn reconstruct_with_repeated_index_fails() {
    let shares = vec![(n(2), n(5)), (n(2), n(5))];
    assert!(sss_reconstruct_secret(&shares, &n(13)).is_none());
    assert!(reconstruct_secret(&shares, &n(13)).is_none());
}

#[test]
fn feldman_shares_and_commitments_of_fixed_polynomial() {
    let params = FeldmanVSSParams::new(n(3), n(1_000_003));
    let poly = Polynomial { coefficients: vec![n(7), n(2), n(5)] };
    let (shares, commitments) = params.shares_and_commitments(&poly, 4);
    assert_eq!(shares[1], (n(2), n(7 + 4 + 20)));
    assert_eq!(commitments, vec![n(3u64.pow(7) % 1_000_003), n(9), n(243)]);
    for (x, y) in &shares {
        assert!(verify_share(x, y, &commitments, &params));
    }
    assert_eq!(reconstruct_secret(&shares[1..], &params.q), Some(n(7)));
}

#[test]
fn commitments_are_deterministic() {
    let params = FeldmanVSSParams::new(n(2), n(1_000_003));
    let poly = Polynomial { coefficients: vec![n(1234), n(166), n(94)] };
    assert_eq!(params.generate_commitments(&poly), params.generate_commitments(&poly));
    assert_eq!(poly.evaluate(&n(3)), poly.evaluate(&n(3)));
}

#[test]
fn altered_share_fails_verification() {
    let q = generate_prime(128);
    let params = FeldmanVSSParams::new(n(2), q.clone());
    let (shares, commitments) = params.generate_shares(&n(4321), 3, 5);
    for (x, y) in &shares {
        let altered = y.add(&n(1)).rem(&q);
        assert!(verify_share(x, y, &commitments, &params));
        assert!(!verify_share(x, &altered, &commitments, &params));
    }
}

#[test]
fn verify_share_with_no_commitments() {
    let params = FeldmanVSSParams::new(n(2), n(11));
    assert!(verify_share(&n(1), &n(0), &[], &params));
    assert!(!verify_share(&n(1), &n(1), &[], &params));
}
