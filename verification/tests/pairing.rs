use ecc_engine::pairing::{
    bls_aggregate_sigs, bls_aggregate_verify, bls_sign, bls_verify, pairing_values_agree,
    GroupElement,
};

// Toy "pairing": simple multiplication (NOT cryptographically meaningful).
fn toy_pairing(a: GroupElement, b: GroupElement) -> GroupElement {
    a.wrapping_mul(b)
}

#[test]
fn test_bls_sign() {
    let sig = bls_sign(42, 7);
    assert_ne!(sig, 0);
}

#[test]
fn test_bls_aggregate_sigs() {
    let sigs = vec![10, 20, 30];
    let agg = bls_aggregate_sigs(&sigs);
    assert_ne!(agg, 0);
}

#[test]
fn bls_sign_exact_values() {
    assert_eq!(bls_sign(42, 7), 294);
    assert_eq!(bls_sign(0, 7), 0);
    assert_eq!(bls_sign(u64::MAX, 2), u64::MAX - 1);
    assert_eq!(bls_sign(1 << 63, 2), 0);
}

#[test]
fn bls_aggregate_sigs_exact_values() {
    assert_eq!(bls_aggregate_sigs(&[10, 20, 30]), 60);
    assert_eq!(bls_aggregate_sigs(&[]), 0);
    assert_eq!(bls_aggregate_sigs(&[u64::MAX, 5]), 4);
}

#[test]
fn bls_verify_accepts_an_honest_signature() {
    let g2 = 5;
    let sk = 1234567;
    let pk = bls_sign(sk, g2);
    let h = 987654321;
    let sig = bls_sign(sk, h);
    assert!(bls_verify(sig, g2, h, pk, toy_pairing));
    assert!(!bls_verify(sig + 1, g2, h, pk, toy_pairing));
    assert!(!bls_verify(sig, g2, h + 1, pk, toy_pairing));
    assert!(bls_verify(sig, g2, h, pk, |a: u64, b: u64| a.wrapping_mul(b)));
}

#[test]
fn bls_aggregate_verify_accepts_honest_signatures() {
    let g2 = 3;
    let sks = [11_u64, 22, u64::MAX - 4];
    let hs = [1000_u64, 2000, 3001];
    let pks: Vec<u64> = sks.iter().map(|&sk| bls_sign(sk, g2)).collect();
    let sigs: Vec<u64> = sks.iter().zip(hs.iter()).map(|(&sk, &h)| bls_sign(sk, h)).collect();
    let agg = bls_aggregate_sigs(&sigs);
    assert!(bls_aggregate_verify(agg, g2, &hs, &pks, toy_pairing));
    assert!(!bls_aggregate_verify(agg + 1, g2, &hs, &pks, toy_pairing));
    assert!(!bls_aggregate_verify(agg, g2, &[1000, 2000, 3002], &pks, toy_pairing));
    assert!(bls_aggregate_verify(0, g2, &[], &[], toy_pairing));
    assert!(!bls_aggregate_verify(1, g2, &[], &[], toy_pairing));
}

#[test]
fn pairing_values_agree_compares() {
    assert!(pairing_values_agree(7, 7));
    assert!(!pairing_values_agree(7, 8));
}
