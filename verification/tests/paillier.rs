use ecc_engine::paillier::{
    mod_exp_u128, mul_mod_u128, paillier_add, paillier_decrypt, paillier_encrypt, paillier_keygen,
    paillier_scalar_mul,
};

#[test]
fn test_paillier_roundtrip() {
    let (pk, sk) = paillier_keygen(13, 17);
    let m = 42_u128;
    let r = 77_u128; // random, coprime to n
    let c = paillier_encrypt(&pk, m, r);
    let decrypted = paillier_decrypt(&sk, c);
    assert_eq!(decrypted, m);
}

#[test]
fn test_paillier_additive_homomorphism() {
    let (pk, sk) = paillier_keygen(13, 17);
    let m1 = 20_u128;
    let m2 = 30_u128;
    let c1 = paillier_encrypt(&pk, m1, 53);
    let c2 = paillier_encrypt(&pk, m2, 79);
    let c_sum = paillier_add(&pk, c1, c2);
    let decrypted = paillier_decrypt(&sk, c_sum);
    assert_eq!(decrypted, (m1 + m2) % pk.n);
}

#[test]
fn paillier_keygen_exact_values() {
    let (pk, sk) = paillier_keygen(13, 17);
    assert_eq!((pk.n, pk.g, pk.n_sq), (221, 222, 48841));
    assert_eq!((sk.lambda, sk.mu, sk.n, sk.n_sq), (48, 198, 221, 48841));
    let (pk1, sk1) = paillier_keygen(1, 1);
    assert_eq!((pk1.n, pk1.g, pk1.n_sq), (1, 2, 1));
    assert_eq!((sk1.lambda, sk1.mu), (0, 0));
}

#[test]
fn paillier_exact_ciphertexts() {
    let (pk, sk) = paillier_keygen(13, 17);
    assert_eq!(paillier_encrypt(&pk, 42, 77), 3561);
    assert_eq!(paillier_encrypt(&pk, 20, 53), 13547);
    assert_eq!(paillier_encrypt(&pk, 30, 79), 34347);
    assert_eq!(paillier_add(&pk, 13547, 34347), 39443);
    assert_eq!(paillier_decrypt(&sk, 39443), 50);
    assert_eq!(paillier_scalar_mul(&pk, 13547, 5), 42043);
    assert_eq!(paillier_decrypt(&sk, 42043), 100);
    assert_eq!(paillier_scalar_mul(&pk, 13547, 0), 1);
    assert_eq!(paillier_decrypt(&sk, 1), 0);
}

#[test]
fn paillier_with_a_modulus_of_64_bits() {
    let (pk, sk) = paillier_keygen(4_294_967_291, 4_294_967_279);
    assert_eq!(pk.n, 18_446_743_979_220_271_189);
    assert_eq!(sk.lambda, 9_223_371_985_315_168_310);
    assert_eq!(sk.mu, 6_836_905_111_059_402_125);
    let m = 123_456_789_012_345_678_u128;
    let c = paillier_encrypt(&pk, m, 987_654_321_987_654_321);
    assert_eq!(c, 3_788_674_759_830_624_837_815_459_505_685_047_391);
    assert_eq!(paillier_decrypt(&sk, c), m);
    let doubled = paillier_add(&pk, c, c);
    assert_eq!(paillier_decrypt(&sk, doubled), 2 * m);
    let tripled = paillier_scalar_mul(&pk, c, 3);
    assert_eq!(paillier_decrypt(&sk, tripled), 3 * m);
}

#[test]
fn mul_mod_u128_does_not_overflow() {
    let max = u128::MAX;
    assert_eq!(mul_mod_u128(max, max, max - 2), 4);
    assert_eq!(mul_mod_u128(max, max, max), 0);
    assert_eq!(mul_mod_u128(max - 1, max - 1, max), 1);
    assert_eq!(mul_mod_u128(0, max, 7), 0);
    assert_eq!(mul_mod_u128(6, 7, 1), 0);
    assert_eq!(mul_mod_u128(6, 7, 5), 2);
    assert_eq!(mul_mod_u128(1 << 127, 2, max), 1);
}

#[test]
fn mod_exp_u128_exact_values() {
    let max = u128::MAX;
    assert_eq!(mod_exp_u128(2, 10, 1000), 24);
    assert_eq!(mod_exp_u128(max - 1, max, max), max - 1);
    assert_eq!(mod_exp_u128(2, 128, max), 1);
    assert_eq!(mod_exp_u128(5, 0, 1), 1);
    assert_eq!(mod_exp_u128(5, 3, 1), 0);
    assert_eq!(mod_exp_u128(3, 100, 1_000_000_007), 886_041_711);
}
