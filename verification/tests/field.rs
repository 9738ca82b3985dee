use ecc_engine::field::{add_mod, mod_inv, mod_pow, mul_mod, reduce, sub_mod};

#[test]
fn reduce_gives_the_least_residue() {
    assert_eq!(reduce(0, 97), 0);
    assert_eq!(reduce(100, 97), 3);
    assert_eq!(reduce(-1, 97), 96);
    assert_eq!(reduce(-97, 97), 0);
    assert_eq!(reduce(-98, 97), 96);
    assert_eq!(reduce(i64::MIN, 97), i64::MIN.rem_euclid(97));
    assert_eq!(reduce(i64::MIN, i64::MAX), i64::MAX - 1);
    assert_eq!(reduce(i64::MAX, i64::MAX), 0);
    assert_eq!(reduce(5, 1), 0);
}

#[test]
fn residues_add_subtract_and_multiply() {
    assert_eq!(add_mod(96, 5, 97), 4);
    assert_eq!(sub_mod(3, 5, 97), 95);
    assert_eq!(sub_mod(5, 3, 97), 2);
    assert_eq!(mul_mod(96, 96, 97), 1);
    let big = i64::MAX;
    assert_eq!(add_mod(big - 1, big - 1, big), big - 2);
    assert_eq!(sub_mod(0, big - 1, big), 1);
    assert_eq!(mul_mod(big - 1, big - 1, big), 1);
}

#[test]
fn mod_pow_exact_values() {
    assert_eq!(mod_pow(2, 10, 1000), 24);
    assert_eq!(mod_pow(3, 100, 1_000_000_007), 886_041_711);
    assert_eq!(mod_pow(5, 0, 13), 1);
    assert_eq!(mod_pow(0, 5, 13), 0);
    assert_eq!(mod_pow(0, 0, 13), 1);
    // a negative base is reduced first: -3 is 4 modulo 7
    assert_eq!(mod_pow(-3, 5, 7), 2);
    assert_eq!(mod_pow(i64::MIN, 3, 97), mod_pow(i64::MIN.rem_euclid(97), 3, 97));
}

#[test]
fn mod_pow_modulus_one() {
    assert_eq!(mod_pow(5, 0, 1), 1);
    assert_eq!(mod_pow(5, 1, 1), 0);
    assert_eq!(mod_pow(5, u64::MAX, 1), 0);
}

#[test]
fn mod_pow_does_not_overflow() {
    let p = i64::MAX; // 2^63 - 1 = 7^2 * 73 * 127 * 337 * 92737 * 649657
    assert_eq!(mod_pow(p - 1, 2, p), 1);
    assert_eq!(mod_pow(p - 1, u64::MAX, p), p - 1);
    assert_eq!(mod_pow(2, 63, p), 1);
}

#[test]
fn mod_inv_inverts_modulo_a_prime() {
    assert_eq!(mod_inv(3, 7), 5);
    assert_eq!(mod_inv(1, 2), 1);
    assert_eq!(mod_inv(-3, 7), 2);
    for a in 1..97_i64 {
        let inv = mod_inv(a, 97);
        assert!(0 < inv && inv < 97);
        assert_eq!(a * inv % 97, 1);
        assert_eq!(mod_inv(a - 970, 97), inv);
    }
    let p = 2_305_843_009_213_693_951_i64; // 2^61 - 1
    let inv = mod_inv(123_456_789, p);
    assert_eq!((123_456_789_i128 * inv as i128 % p as i128) as i64, 1);
}

#[test]
fn mod_inv_of_a_multiple_of_the_prime_is_zero() {
    assert_eq!(mod_inv(0, 97), 0);
    assert_eq!(mod_inv(194, 97), 0);
}
