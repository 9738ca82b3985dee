use ecc_engine::number_theory::{
    euler_totient, extended_gcd, mod_inverse, rsa_encrypt_decrypt, rsa_keygen,
};

#[test]
fn test_extended_gcd_basic() {
    let (g, x, y) = extended_gcd(35, 15);
    assert_eq!(g, 5);
    assert_eq!(35 * x + 15 * y, 5);
}

#[test]
fn test_extended_gcd_coprime() {
    let (g, x, y) = extended_gcd(17, 13);
    assert_eq!(g, 1);
    assert_eq!(17 * x + 13 * y, 1);
}

#[test]
fn test_mod_inverse_exists() {
    assert_eq!(mod_inverse(3, 7), Some(5)); // 3*5 = 15 ≡ 1 mod 7
}

#[test]
fn test_mod_inverse_none() {
    assert_eq!(mod_inverse(6, 9), None); // gcd(6,9) = 3
}

#[test]
fn test_euler_totient() {
    assert_eq!(euler_totient(7), 6); // prime
    assert_eq!(euler_totient(12), 4); // 12 = 2²×3, φ = 12(1-1/2)(1-1/3) = 4
    assert_eq!(euler_totient(15), 8); // 15 = 3×5, φ = (3-1)(5-1) = 8
}

#[test]
fn test_rsa_roundtrip() {
    let (n, e, d) = rsa_keygen(61, 53);
    assert_eq!(n, 3233);

    let plaintext = 42_u64;
    let ciphertext = rsa_encrypt_decrypt(plaintext, e, n);
    let decrypted = rsa_encrypt_decrypt(ciphertext, d, n);
    assert_eq!(decrypted, plaintext);
}

#[test]
fn extended_gcd_exact_values() {
    assert_eq!(extended_gcd(35, 15), (5, 1, -2));
    assert_eq!(extended_gcd(-35, 15), (-5, 1, 2));
    assert_eq!(extended_gcd(35, -15), (5, 1, 2));
    assert_eq!(extended_gcd(7, 0), (7, 1, 0));
    assert_eq!(extended_gcd(-7, 0), (-7, 1, 0));
    assert_eq!(extended_gcd(0, 7), (7, 0, 1));
    assert_eq!(extended_gcd(0, 0), (0, 1, 0));
}

#[test]
fn extended_gcd_bezout_identity_holds_widely() {
    let vals = [
        i64::MIN + 1,
        -1_000_000_007,
        -12,
        -1,
        0,
        1,
        2,
        18,
        1_000_000_007,
        i64::MAX - 1,
        i64::MAX,
    ];
    for &a in &vals {
        for &b in &vals {
            let (g, x, y) = extended_gcd(a, b);
            assert_eq!(a as i128 * x as i128 + b as i128 * y as i128, g as i128);
            if a != 0 || b != 0 {
                assert!(g != 0 && a % g == 0 && b % g == 0);
            }
        }
    }
}

#[test]
fn mod_inverse_edge_cases() {
    assert_eq!(mod_inverse(5, 1), Some(0));
    assert_eq!(mod_inverse(0, 1), Some(0));
    assert_eq!(mod_inverse(0, 7), None);
    assert_eq!(mod_inverse(1, 7), Some(1));
    assert_eq!(mod_inverse(10, 7), Some(5));
    assert_eq!(mod_inverse(65537, 3120), Some(2753));
    assert_eq!(mod_inverse(u64::MAX - 1, u64::MAX), Some(u64::MAX - 1));
    assert_eq!(mod_inverse(2, u64::MAX), Some(1 << 63));
    assert_eq!(mod_inverse(3, u64::MAX), None);
}

#[test]
fn mod_inverse_is_there_exactly_for_coprime_numbers() {
    for m in 1..40_u64 {
        for a in 0..80_u64 {
            let coprime = ecc_engine::modular::gcd(a, m) == 1;
            match mod_inverse(a, m) {
                Some(x) => {
                    assert!(coprime);
                    assert!(x < m);
                    assert_eq!(a * x % m, 1 % m);
                }
                None => assert!(!coprime),
            }
        }
    }
}

#[test]
fn euler_totient_edge_cases() {
    assert_eq!(euler_totient(0), 0);
    assert_eq!(euler_totient(1), 1);
    assert_eq!(euler_totient(2), 1);
    assert_eq!(euler_totient(36), 12);
    assert_eq!(euler_totient(97), 96);
    assert_eq!(euler_totient(3233), 3120);
}

#[test]
fn rsa_keygen_exact_values() {
    assert_eq!(rsa_keygen(61, 53), (3233, 65537, 2753));
    let (n, e, d) = rsa_keygen(1_000_003, 1_000_033);
    assert_eq!(n, 1_000_036_000_099);
    assert_eq!(e, 65537);
    let phi = 1_000_002_u128 * 1_000_032;
    assert_eq!(e as u128 * d as u128 % phi, 1);
    for msg in [0_u64, 1, 2, 42, 999_999_999_999] {
        let c = rsa_encrypt_decrypt(msg, e, n);
        assert_eq!(rsa_encrypt_decrypt(c, d, n), msg);
    }
}

#[test]
fn rsa_encrypt_decrypt_exact_values() {
    assert_eq!(rsa_encrypt_decrypt(65, 17, 3233), 2790);
    assert_eq!(rsa_encrypt_decrypt(2790, 2753, 3233), 65);
    assert_eq!(rsa_encrypt_decrypt(5, 0, 1), 1);
}
