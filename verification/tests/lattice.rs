use ecc_engine::lattice::{
    gram_schmidt_scaled, lll_reduce_2d, lwe_decrypt, lwe_encrypt, lwe_keygen,
};
use ecc_engine::linalg::{column_of, dot_mod};

fn key() -> (Vec<Vec<i64>>, Vec<i64>, Vec<i64>) {
    let a: Vec<Vec<i64>> = (0..8).map(|i| (1..=4).map(|k| 4 * i + k).collect()).collect();
    let s = vec![3, 1, 4, 1];
    let e = [1, -1, 0, 2, -2, 1, 0, -1];
    lwe_keygen(a, s, &e, 97)
}

#[test]
fn test_lwe_roundtrip() {
    let q = 97;
    let (a, b, s) = key();
    let subset = [true, false, true, true, false, false, true, false];
    for msg in [0u8, 1u8] {
        let (u, v) = lwe_encrypt(&a, &b, msg, q, &subset);
        let decrypted = lwe_decrypt(&s, &u, v, q);
        assert_eq!(decrypted, msg, "LWE decrypt should recover the bit");
    }
}

#[test]
fn lwe_roundtrip_for_every_subset() {
    let q = 97;
    let (a, b, s) = key();
    for mask in 0..256_u32 {
        let subset: Vec<bool> = (0..8).map(|i| mask >> i & 1 == 1).collect();
        for msg in [0u8, 1u8] {
            let (u, v) = lwe_encrypt(&a, &b, msg, q, &subset);
            assert_eq!(lwe_decrypt(&s, &u, v, q), msg);
        }
    }
}

#[test]
fn lwe_keygen_exact_values() {
    let (a, b, s) = key();
    assert_eq!(a[7], vec![29, 30, 31, 32]);
    assert_eq!(s, vec![3, 1, 4, 1]);
    assert_eq!(b, vec![22, 56, 93, 34, 66, 8, 43, 78]);
    let (a0, b0, s0) = lwe_keygen(vec![], vec![1, 2], &[], 97);
    assert!(a0.is_empty() && b0.is_empty());
    assert_eq!(s0, vec![1, 2]);
}

#[test]
fn lwe_encrypt_exact_values() {
    let (a, b, _) = key();
    let subset = [true, false, true, true, false, false, true, false];
    assert_eq!(lwe_encrypt(&a, &b, 0, 97, &subset), (vec![48, 52, 56, 60], 95));
    assert_eq!(lwe_encrypt(&a, &b, 1, 97, &subset), (vec![48, 52, 56, 60], 46));
    assert_eq!(lwe_encrypt(&a, &b, 1, 97, &[false; 8]), (vec![0, 0, 0, 0], 48));
    assert_eq!(lwe_encrypt(&[], &[], 1, 97, &[]), (vec![], 48));
}

#[test]
fn lwe_decrypt_picks_the_nearer_of_zero_and_half() {
    // with an empty secret the inner product is 0 and v decides
    let q = 97; // q / 2 == 48
    let expected = |v: i64| -> u8 {
        let d = v.rem_euclid(q);
        let to_zero = d.min(q - d);
        let to_half = (d - q / 2).abs();
        (to_half < to_zero) as u8
    };
    for v in -200..200 {
        assert_eq!(lwe_decrypt(&[], &[], v, q), expected(v));
    }
    assert_eq!(lwe_decrypt(&[], &[], 0, q), 0);
    assert_eq!(lwe_decrypt(&[], &[], 24, q), 0); // a tie goes to 0
    assert_eq!(lwe_decrypt(&[], &[], 25, q), 1);
    assert_eq!(lwe_decrypt(&[], &[], 48, q), 1);
    assert_eq!(lwe_decrypt(&[], &[], 72, q), 1);
    assert_eq!(lwe_decrypt(&[], &[], 73, q), 0);
    assert_eq!(lwe_decrypt(&[], &[], 96, q), 0);
    assert_eq!(lwe_decrypt(&[2, 3], &[5, 7], 31 + 48, q), 1);
    assert_eq!(lwe_decrypt(&[2, 3], &[5, 7], 31, q), 0);
    assert_eq!(lwe_decrypt(&[2, 3], &[5, 7], 31, 1), 0);
}

#[test]
fn dot_mod_exact_values() {
    assert_eq!(dot_mod(&[], &[], 97), 0);
    assert_eq!(dot_mod(&[1, 2, 3], &[4, 5, 6], 97), 32);
    assert_eq!(dot_mod(&[1, 2, 3], &[4, 5, 6], 5), 2);
    assert_eq!(dot_mod(&[-1, 2], &[3, 4], 97), 5);
    assert_eq!(dot_mod(&[-1, -2], &[3, 4], 97), 86);
    assert_eq!(dot_mod(&[i64::MIN, i64::MAX], &[i64::MAX, i64::MIN], i64::MAX), 0);
    assert_eq!(dot_mod(&[i64::MIN; 4], &[i64::MIN; 4], i64::MAX), 4);
}

#[test]
fn column_of_picks_a_column() {
    let a = vec![vec![1, 2, 3], vec![4, 5, 6]];
    assert_eq!(column_of(&a, 0, 3), vec![1, 4]);
    assert_eq!(column_of(&a, 2, 3), vec![3, 6]);
    assert_eq!(column_of(&[], 2, 3), vec![]);
}

fn norm_sq(v: [i64; 2]) -> i128 {
    v[0] as i128 * v[0] as i128 + v[1] as i128 * v[1] as i128
}

fn dot(u: [i64; 2], v: [i64; 2]) -> i128 {
    u[0] as i128 * v[0] as i128 + u[1] as i128 * v[1] as i128
}

fn det(u: [i64; 2], v: [i64; 2]) -> i128 {
    u[0] as i128 * v[1] as i128 - u[1] as i128 * v[0] as i128
}

#[test]
fn test_lll_reduce_2d() {
    // A bad basis for the same lattice
    let (r1, r2) = lll_reduce_2d([1, 0], [100, 1]);
    // Reduced basis should have shorter vectors
    let norm_sq = |v: [i64; 2]| (v[0] * v[0] + v[1] * v[1]) as f64;
    assert!(norm_sq(r1) <= norm_sq([100, 1]) as f64);
    assert!(norm_sq(r2) <= norm_sq([100, 1]) as f64);
}

#[test]
fn lll_reduce_2d_exact_values() {
    assert_eq!(lll_reduce_2d([1, 0], [100, 1]), ([1, 0], [0, 1]));
    assert_eq!(lll_reduce_2d([100, 1], [1, 0]), ([1, 0], [0, 1]));
    assert_eq!(lll_reduce_2d([1, 0], [0, 1]), ([1, 0], [0, 1]));
    assert_eq!(lll_reduce_2d([0, 0], [0, 0]), ([0, 0], [0, 0]));
    assert_eq!(lll_reduce_2d([0, 0], [3, 4]), ([0, 0], [3, 4]));
    assert_eq!(lll_reduce_2d([3, 4], [0, 0]), ([0, 0], [3, 4]));
    // one vector is a multiple of the other
    assert_eq!(lll_reduce_2d([2, 4], [3, 6]), ([0, 0], [-1, -2]));
}

#[test]
fn lll_reduce_2d_gives_a_reduced_basis_of_the_same_lattice() {
    let big = 1_i64 << 40;
    let bases = [
        ([1_i64, 0_i64], [100_i64, 1_i64]),
        ([201, 37], [1648, 297]),
        ([-7, 3], [12, -5]),
        ([big, big], [big, big - 1]),
        ([big, -big], [-big, big - 1]),
        ([123_456_789_012, 987_654_321_098], [555_555_555_555, -444_444_444_443]),
        ([6, 8], [9, 12]),
    ];
    for (b1, b2) in bases {
        let (r1, r2) = lll_reduce_2d(b1, b2);
        assert!(norm_sq(r1) <= norm_sq(r2));
        assert!(2 * dot(r1, r2).abs() <= norm_sq(r1));
        // the same lattice: the same area of the fundamental cell, and the
        // given vectors are integer combinations of the reduced ones
        assert_eq!(det(r1, r2).abs(), det(b1, b2).abs());
        let d = det(r1, r2);
        if d != 0 {
            for b in [b1, b2] {
                assert_eq!(det(b, r2) % d, 0);
                assert_eq!(det(r1, b) % d, 0);
            }
        }
    }
    assert_eq!(lll_reduce_2d([201, 37], [1648, 297]), ([1, 32], [40, 1]));
}

#[test]
fn test_gram_schmidt_2d() {
    // the second vector comes scaled by the squared length of the first
    let (scaled, n) = gram_schmidt_scaled([3, 1], [2, 2]);
    let (b1s, b2s) = ([3.0_f64, 1.0_f64], [scaled[0] as f64 / n as f64, scaled[1] as f64 / n as f64]);
    // b1* should be unchanged
    assert!((b1s[0] - 3.0).abs() < 1e-10);
    assert!((b1s[1] - 1.0).abs() < 1e-10);
    // b2* should be orthogonal to b1*
    let dot = b1s[0] * b2s[0] + b1s[1] * b2s[1];
    assert!(dot.abs() < 1e-10, "Should be orthogonal");
}

#[test]
fn gram_schmidt_scaled_exact_values() {
    // n = 10, d = 8: 10 * (2, 2) - 8 * (3, 1) = (-4, 12)
    assert_eq!(gram_schmidt_scaled([3, 1], [2, 2]), ([-4, 12], 10));
    assert_eq!(gram_schmidt_scaled([1, 0], [5, 7]), ([0, 7], 1));
    assert_eq!(gram_schmidt_scaled([0, 0], [5, 7]), ([0, 0], 0));
    assert_eq!(gram_schmidt_scaled([2, 0], [0, 3]), ([0, 12], 4));
    let big = 1_i64 << 40;
    let (w, n) = gram_schmidt_scaled([big, -big], [-big, big - 1]);
    assert_eq!(n, 2 * (big as i128) * (big as i128));
    assert_eq!(big as i128 * w[0] - big as i128 * w[1], 0);
}
