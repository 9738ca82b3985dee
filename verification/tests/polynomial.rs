use ecc_engine::irreducible::is_irreducible_mod_p;
use ecc_engine::polynomial::{poly_add, poly_div_rem, poly_eval, poly_mul, trim_poly};

#[test]
fn test_poly_eval_basic() {
    assert_eq!(poly_eval(&[1, 2, 3], 5, 7), 2);
}

#[test]
fn test_poly_eval_constant() {
    assert_eq!(poly_eval(&[42], 999, 7), 0);
}

#[test]
fn test_poly_add_same_degree() {
    assert_eq!(poly_add(&[1, 2, 3], &[4, 5, 6], 7), vec![5, 0, 2]);
}

#[test]
fn test_poly_add_different_degree() {
    assert_eq!(poly_add(&[1, 2], &[3, 0, 1], 7), vec![4, 2, 1]);
}

#[test]
fn test_poly_mul_linear() {
    assert_eq!(poly_mul(&[1, 1], &[1, 1], 7), vec![1, 2, 1]);
}

#[test]
fn test_poly_mul_mod() {
    assert_eq!(poly_mul(&[3, 4], &[2, 5], 7), vec![6, 2, 6]);
}

#[test]
fn poly_eval_edge_cases() {
    assert_eq!(poly_eval(&[], 5, 7), 0);
    assert_eq!(poly_eval(&[1, 2, 3], 5, 1), 0);
    assert_eq!(poly_eval(&[1, 2, 3], 0, 7), 1);
    assert_eq!(poly_eval(&[u64::MAX, u64::MAX], u64::MAX, u64::MAX), 0);
    // 2^64 - 1 is 5 modulo 10: 5 + 5 * 5 = 30
    assert_eq!(poly_eval(&[u64::MAX, u64::MAX], u64::MAX, 10), 0);
    assert_eq!(poly_eval(&[3, 0, 2], 4, 1_000), 35);
}

#[test]
fn trim_poly_removes_trailing_zeros() {
    let mut v = vec![1, 0, 2, 0, 0];
    trim_poly(&mut v);
    assert_eq!(v, vec![1, 0, 2]);
    let mut zero = vec![0, 0, 0];
    trim_poly(&mut zero);
    assert_eq!(zero, vec![0]);
    let mut empty: Vec<u64> = vec![];
    trim_poly(&mut empty);
    assert_eq!(empty, Vec::<u64>::new());
    let mut one = vec![0];
    trim_poly(&mut one);
    assert_eq!(one, vec![0]);
}

#[test]
fn poly_add_trims_the_sum() {
    assert_eq!(poly_add(&[1, 2, 3], &[6, 5, 4], 7), vec![0]);
    assert_eq!(poly_add(&[1, 2, 3], &[1, 5, 4], 7), vec![2]);
    assert_eq!(poly_add(&[], &[], 7), Vec::<u64>::new());
    assert_eq!(poly_add(&[], &[3, 9], 7), vec![3, 2]);
    assert_eq!(poly_add(&[u64::MAX], &[u64::MAX], u64::MAX), vec![0]);
}

#[test]
fn poly_mul_edge_cases() {
    assert_eq!(poly_mul(&[], &[1, 1], 7), Vec::<u64>::new());
    assert_eq!(poly_mul(&[1, 1], &[], 7), Vec::<u64>::new());
    assert_eq!(poly_mul(&[0], &[1, 1], 7), vec![0]);
    // (1 + x)^2 == 1 + x^2 modulo 2
    assert_eq!(poly_mul(&[1, 1], &[1, 1], 2), vec![1, 0, 1]);
    // (2 + 3x)(4 + 3x) == 8 + 18x + 9x^2 == 8 modulo 9, with 18 == 0 and 9 == 0
    assert_eq!(poly_mul(&[2, 3], &[4, 3], 9), vec![8]);
    assert_eq!(poly_mul(&[1, 2, 3], &[4, 5], 1_000), vec![4, 13, 22, 15]);
    assert_eq!(poly_mul(&[u64::MAX, 1], &[u64::MAX, 1], 10), vec![5, 0, 1]);
}

#[test]
fn poly_mul_agrees_with_evaluation() {
    let a = [3_u64, 1, 4, 1, 5];
    let b = [9_u64, 2, 6];
    let p = 101;
    let prod = poly_mul(&a, &b, p);
    for x in 0..p {
        assert_eq!(poly_eval(&prod, x, p), poly_eval(&a, x, p) * poly_eval(&b, x, p) % p);
    }
}

#[test]
fn test_poly_div_rem_exact() {
    let (q, r) = poly_div_rem(&[1, 2, 1], &[1, 1], 7);
    assert_eq!(q, vec![1, 1]);
    assert_eq!(r, vec![0]);
}

#[test]
fn poly_div_rem_exact_values() {
    // x^2 + 1 = (x + 1)(x - 1) + 2 modulo 7
    assert_eq!(poly_div_rem(&[1, 0, 1], &[1, 1], 7), (vec![6, 1], vec![2]));
    // a divisor of higher degree leaves the dividend as the remainder
    assert_eq!(poly_div_rem(&[3, 9], &[1, 1, 1], 7), (vec![0], vec![3, 2]));
    assert_eq!(poly_div_rem(&[], &[1, 1], 7), (vec![0], vec![0]));
    // division by a constant multiplies by its inverse: 3 * 5 == 1 modulo 7
    assert_eq!(poly_div_rem(&[1, 2, 3], &[3], 7), (vec![5, 3, 1], vec![0]));
    // the leading coefficient of the divisor is the last one that 7 does not divide
    assert_eq!(poly_div_rem(&[1, 2, 1], &[1, 1, 7, 14], 7), (vec![1, 1], vec![0]));
    assert_eq!(poly_div_rem(&[1, 2, 1], &[8, 15], 7), (vec![1, 1], vec![0]));
    // modulo 2: x^3 + x + 1 = (x^2 + x + 1)(x + 1) + x
    assert_eq!(poly_div_rem(&[1, 1, 0, 1], &[1, 1, 1], 2), (vec![1, 1], vec![0, 1]));
}

#[test]
fn poly_div_rem_gives_back_the_dividend() {
    let p = 101_u64;
    let dividends: [&[u64]; 4] = [&[3, 1, 4, 1, 5, 9, 2, 6], &[0, 0, 0, 7], &[100, 100], &[5]];
    let divisors: [&[u64]; 4] = [&[9, 2, 6], &[1], &[0, 0, 50], &[17, 0, 0, 0, 3, 202]];
    for a in dividends {
        for b in divisors {
            let (q, r) = poly_div_rem(a, b, p);
            let back = poly_add(&poly_mul(&q, b, p), &r, p);
            let mut want: Vec<u64> = a.iter().map(|c| c % p).collect();
            trim_poly(&mut want);
            assert_eq!(back, want);
            let mut reduced: Vec<u64> = b.iter().map(|c| c % p).collect();
            trim_poly(&mut reduced);
            assert!(r.len() < reduced.len() || r == vec![0]);
            assert!(q.iter().all(|&c| c < p) && r.iter().all(|&c| c < p));
        }
    }
}

#[test]
fn test_irreducible_true() {
    assert!(is_irreducible_mod_p(&[1, 1, 1], 2));
}

#[test]
fn test_irreducible_false() {
    assert!(!is_irreducible_mod_p(&[1, 0, 1], 2));
}

#[test]
fn irreducible_edge_cases() {
    // constants and the zero polynomial are not irreducible
    assert!(!is_irreducible_mod_p(&[], 7));
    assert!(!is_irreducible_mod_p(&[5], 7));
    assert!(!is_irreducible_mod_p(&[0, 0, 0], 7));
    assert!(!is_irreducible_mod_p(&[5, 7, 14], 7));
    // every polynomial of degree 1 is
    assert!(is_irreducible_mod_p(&[0, 3], 7));
    assert!(is_irreducible_mod_p(&[4, 3, 7], 7));
}

#[test]
fn irreducible_quadratics_have_no_root() {
    // x^2 - 2 has the root 3 modulo 7, x^2 - 3 has none
    assert!(!is_irreducible_mod_p(&[5, 0, 1], 7));
    assert!(is_irreducible_mod_p(&[4, 0, 1], 7));
    for p in [2_u64, 3, 5, 7, 11, 13] {
        for c0 in 0..p {
            for c1 in 0..p {
                let f = [c0, c1, 1];
                let has_root = (0..p).any(|x| poly_eval(&f, x, p) == 0);
                assert_eq!(is_irreducible_mod_p(&f, p), !has_root);
            }
        }
    }
}

#[test]
fn irreducible_higher_degrees() {
    // x^4 + x + 1 is irreducible modulo 2, x^4 + x^2 + 1 is (x^2 + x + 1)^2
    assert!(is_irreducible_mod_p(&[1, 1, 0, 0, 1], 2));
    assert!(!is_irreducible_mod_p(&[1, 0, 1, 0, 1], 2));
    assert!(is_irreducible_mod_p(&[1, 1, 0, 1], 2));
    assert!(!is_irreducible_mod_p(&[1, 0, 0, 1], 2));
    assert!(is_irreducible_mod_p(&[1, 0, 0, 0, 0, 0, 1, 1], 2));
    assert!(is_irreducible_mod_p(&[2, 0, 0, 0, 0, 0, 1], 7));
    assert!(is_irreducible_mod_p(&[1, 2, 1, 2, 1], 5));
    // the leading coefficient need not be 1: 3x^2 + 3x + 3 = 3(x - 2)(x - 4) modulo 7
    assert!(!is_irreducible_mod_p(&[3, 3, 3, 7], 7));
    // a product of two irreducible cubics
    let product = poly_mul(&[1, 1, 0, 1], &[1, 0, 1, 1], 2);
    assert!(!is_irreducible_mod_p(&product, 2));
}
