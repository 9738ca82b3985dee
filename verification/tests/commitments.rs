use ecc_engine::commitments::{
    fiat_shamir, pedersen_commit, pedersen_verify, schnorr_prove, schnorr_verify,
};

#[test]
fn test_pedersen_commit_verify() {
    let p = 23;
    let g = 4;
    let h = 9;
    let m = 5;
    let r = 3;
    let c = pedersen_commit(g, h, m, r, p);
    assert!(pedersen_verify(g, h, m, r, c, p));
    // Wrong message should fail
    assert!(!pedersen_verify(g, h, m + 1, r, c, p));
}

#[test]
fn test_schnorr_roundtrip() {
    let p = 23;
    let g = 5;
    let x = 7; // secret key
    // pk = g^x mod p
    let pk = 5_u64.pow(7) % 23; // = 17
    let k = 3; // random nonce
    let challenge = 11;
    let (comm, ch, resp) = schnorr_prove(g, x, p, k, challenge);
    assert_eq!(ch, challenge);
    assert!(schnorr_verify(g, pk, comm, ch, resp, p));
}

#[test]
fn pedersen_commit_exact_values() {
    assert_eq!(pedersen_commit(4, 9, 5, 3, 23), 8);
    assert_eq!(pedersen_commit(4, 9, 0, 0, 23), 1);
    assert_eq!(pedersen_commit(4, 9, 0, 0, 1), 0);
    assert_eq!(pedersen_commit(0, 9, 5, 3, 23), 0);
    assert_eq!(pedersen_commit(u64::MAX, u64::MAX, u64::MAX, u64::MAX, u64::MAX), 0);
}

#[test]
fn pedersen_commitments_multiply() {
    let (g, h, p) = (4_u64, 9_u64, 23_u64);
    for (m1, r1, m2, r2) in [(5_u64, 3_u64, 7_u64, 11_u64), (0, 0, 1, 1), (20, 21, 22, 19)] {
        let c1 = pedersen_commit(g, h, m1, r1, p);
        let c2 = pedersen_commit(g, h, m2, r2, p);
        assert_eq!(c1 * c2 % p, pedersen_commit(g, h, m1 + m2, r1 + r2, p));
    }
}

#[test]
fn pedersen_verify_rejects_an_unreduced_commitment() {
    assert!(pedersen_verify(4, 9, 5, 3, 8, 23));
    assert!(!pedersen_verify(4, 9, 5, 3, 8 + 23, 23));
    assert!(!pedersen_verify(4, 9, 5, 4, 8, 23));
}

#[test]
fn schnorr_prove_exact_values() {
    assert_eq!(schnorr_prove(5, 7, 23, 3, 11), (10, 11, 14));
    // k - x*c == 100 - 0 == 100 == 12 modulo 22
    assert_eq!(schnorr_prove(5, 0, 23, 100, 11), (18, 11, 12));
    assert_eq!(schnorr_prove(5, u64::MAX, 23, 0, u64::MAX), (1, u64::MAX, 17));
    assert_eq!(schnorr_prove(5, 7, 2, 3, 11), (1, 11, 0));
}

#[test]
fn schnorr_honest_proofs_verify() {
    let p = 1_000_000_007_u64;
    let g = 5_u64;
    for (x, k, c) in [(7_u64, 3_u64, 11_u64), (123_456_789, 987_654_321, 55_555), (u64::MAX, u64::MAX - 1, u64::MAX - 2), (0, 0, 0)] {
        let pk = ecc_engine::modular::mod_exp(g, x, p);
        let (comm, ch, resp) = schnorr_prove(g, x, p, k, c);
        assert!(schnorr_verify(g, pk, comm, ch, resp, p));
        assert!(!schnorr_verify(g, pk, comm, ch, resp + 1, p));
        assert!(!schnorr_verify(g, pk, (comm + 1) % p, ch, resp, p));
    }
}

#[test]
fn schnorr_verify_compares_modulo_p() {
    assert!(schnorr_verify(5, 17, 10, 11, 14, 23));
    assert!(schnorr_verify(5, 17, 10 + 23, 11, 14, 23));
    assert!(!schnorr_verify(5, 17, 11, 11, 14, 23));
    assert!(!schnorr_verify(5, 18, 10, 11, 14, 23));
}

#[test]
fn fiat_shamir_exact_values() {
    assert_eq!(fiat_shamir(5, 17, 10, b"hello"), 9_025_810_447_434_073_609);
    assert_eq!(fiat_shamir(0, 0, 0, b""), 9_354_609_568_656_401_157);
    assert_eq!(fiat_shamir(u64::MAX, 1, 2, &[0x00, 0xff]), 8_276_864_481_987_635_743);
}

#[test]
fn fiat_shamir_depends_on_every_part_of_the_transcript() {
    let base = fiat_shamir(5, 17, 10, b"hello");
    assert_eq!(base, fiat_shamir(5, 17, 10, b"hello"));
    assert_ne!(base, fiat_shamir(6, 17, 10, b"hello"));
    assert_ne!(base, fiat_shamir(5, 18, 10, b"hello"));
    assert_ne!(base, fiat_shamir(5, 17, 11, b"hello"));
    assert_ne!(base, fiat_shamir(5, 17, 10, b"hellp"));
    assert_ne!(base, fiat_shamir(5, 17, 10, b"hello "));
    assert_ne!(base, fiat_shamir(17, 5, 10, b"hello"));
}

#[test]
fn schnorr_with_a_derived_challenge() {
    let p = 1_000_000_007_u64;
    let g = 5_u64;
    let x = 424_242_u64;
    let pk = ecc_engine::modular::mod_exp(g, x, p);
    let k = 31_337_u64;
    let commitment = ecc_engine::modular::mod_exp(g, k, p);
    let challenge = fiat_shamir(g, pk, commitment, b"a message");
    let (comm, ch, resp) = schnorr_prove(g, x, p, k, challenge);
    assert_eq!(comm, commitment);
    assert!(schnorr_verify(g, pk, comm, ch, resp, p));
    assert!(!schnorr_verify(g, pk, comm, ch ^ 1, resp, p));
}
