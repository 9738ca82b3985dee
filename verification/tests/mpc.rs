use ecc_engine::mpc::{
    additive_reconstruct, additive_share, beaver_triple_mul, shamir_reconstruct, shamir_share,
};

#[test]
fn test_shamir_roundtrip() {
    let secret = 42_u64;
    // threshold 3: a polynomial of degree 2, with two further coefficients
    let shares = shamir_share(secret, &[5, 7], 5, 97);
    assert_eq!(shares.len(), 5);
    // Any 3 shares should reconstruct the secret
    let reconstructed = shamir_reconstruct(&shares[0..3], 97);
    assert_eq!(reconstructed, secret);
    // Different subset of 3 should also work
    let reconstructed2 = shamir_reconstruct(&shares[2..5], 97);
    assert_eq!(reconstructed2, secret);
}

#[test]
fn test_shamir_insufficient_shares() {
    let secret = 42_u64;
    let shares = shamir_share(secret, &[5, 7], 5, 97);
    // Only 2 shares should NOT reconstruct correctly (with high probability)
    let wrong = shamir_reconstruct(&shares[0..2], 97);
    // We can't assert != because there's a small chance it's correct,
    // but for t=3 it almost certainly won't be.
    let _ = wrong; // Just verify it doesn't panic
}

#[test]
fn test_additive_roundtrip() {
    let secret = 12345_u64;
    let shares = additive_share(secret, &[11, u64::MAX, 1 << 40, 987_654_321]);
    assert_eq!(shares.len(), 5);
    let reconstructed = additive_reconstruct(&shares);
    assert_eq!(reconstructed, secret);
}

#[test]
fn shamir_share_exact_values() {
    // f(x) = 42 + 5x + 7x^2 modulo 97
    assert_eq!(
        shamir_share(42, &[5, 7], 5, 97),
        vec![(1, 54), (2, 80), (3, 23), (4, 77), (5, 48)]
    );
    assert_eq!(shamir_share(42, &[], 3, 97), vec![(1, 42), (2, 42), (3, 42)]);
    assert_eq!(shamir_share(42, &[5, 7], 0, 97), vec![]);
    assert_eq!(shamir_share(100, &[1], 2, 97), vec![(1, 4), (2, 5)]);
}

#[test]
fn shamir_reconstruct_exact_values() {
    assert_eq!(shamir_reconstruct(&[(1, 54), (2, 80), (3, 23)], 97), 42);
    assert_eq!(shamir_reconstruct(&[(5, 48), (1, 54), (4, 77)], 97), 42);
    // two shares of a parabola give the line through them: 54 - (80 - 54) = 28
    assert_eq!(shamir_reconstruct(&[(1, 54), (2, 80)], 97), 28);
    assert_eq!(shamir_reconstruct(&[(3, 23)], 97), 23);
    assert_eq!(shamir_reconstruct(&[], 97), 0);
    // abscissas are taken modulo the prime
    assert_eq!(shamir_reconstruct(&[(98, 54), (2, 80), (100, 23)], 97), 42);
}

#[test]
fn shamir_any_threshold_subset_reconstructs() {
    let prime = 2_305_843_009_213_693_951_u64; // 2^61 - 1
    let secret = 1_234_567_890_123_456_789_u64 % prime;
    let shares = shamir_share(secret, &[u64::MAX, 17, 1 << 62], 7, prime);
    for a in 0..7 {
        for b in (a + 1)..7 {
            for c in (b + 1)..7 {
                for d in (c + 1)..7 {
                    let subset = [shares[a], shares[b], shares[c], shares[d]];
                    assert_eq!(shamir_reconstruct(&subset, prime), secret);
                }
            }
        }
    }
}

#[test]
fn additive_share_exact_values() {
    assert_eq!(additive_share(10, &[3, 4]), vec![3, 4, 3]);
    assert_eq!(additive_share(10, &[]), vec![10]);
    assert_eq!(additive_share(1, &[2]), vec![2, u64::MAX]);
    assert_eq!(additive_share(0, &[u64::MAX, u64::MAX]), vec![u64::MAX, u64::MAX, 2]);
}

#[test]
fn additive_reconstruct_exact_values() {
    assert_eq!(additive_reconstruct(&[]), 0);
    assert_eq!(additive_reconstruct(&[3, 4, 3]), 10);
    assert_eq!(additive_reconstruct(&[2, u64::MAX]), 1);
}

#[test]
fn beaver_triple_mul_exact_values() {
    // w + e*u + d*v + d*e = 6 + 4*2 + 5*3 + 5*4 = 49 == 10 modulo 13
    assert_eq!(beaver_triple_mul(7, 7, 2, 3, 6, 5, 4, 13), 10);
    assert_eq!(beaver_triple_mul(0, 0, 2, 3, 6, 5, 4, 1), 0);
    assert_eq!(beaver_triple_mul(0, 0, 0, 0, 12, 0, 0, 13), 12);
    let m = u64::MAX;
    // every operand is 5 modulo 10: 5 + 25 + 25 + 25 == 0
    assert_eq!(beaver_triple_mul(m, m, m, m, m, m, m, 10), 0);
}

#[test]
fn beaver_triple_multiplies_shared_values() {
    // a = 9, b = 11 and the triple (u, v, w) = (3, 5, 15), all modulo 97,
    // shared between two parties
    let p = 97_u64;
    let (a1, a2) = (40_u64, 66_u64);
    let (b1, b2) = (90_u64, 18_u64);
    let (u1, u2) = (50_u64, 50_u64);
    let (v1, v2) = (1_u64, 4_u64);
    let (w1, w2) = (10_u64, 5_u64);
    let d = (9 + p - 3) % p;
    let e = (11 + p - 5) % p;
    // only one party adds d*e, so the other's share is corrected by it
    let s1 = beaver_triple_mul(a1, b1, u1, v1, w1, d, e, p);
    let s2 = (beaver_triple_mul(a2, b2, u2, v2, w2, d, e, p) + p - d * e % p) % p;
    assert_eq!((s1 + s2) % p, 9 * 11 % p);
}
