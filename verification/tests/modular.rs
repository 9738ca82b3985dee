use ecc_engine::modular::{
    element_order, find_all_generators, gcd, is_generator, mod_exp, mul_mod_u64, sum_words,
};

#[test]
fn test_mod_exp_basic() {
    assert_eq!(mod_exp(2, 10, 1000), 24);
}

#[test]
fn test_mod_exp_edge_cases() {
    assert_eq!(mod_exp(5, 0, 13), 1);
    assert_eq!(mod_exp(0, 5, 13), 0);
}

#[test]
fn test_gcd_basic() {
    assert_eq!(gcd(48, 18), 6);
    assert_eq!(gcd(100, 75), 25);
}

#[test]
fn test_gcd_coprime() {
    assert_eq!(gcd(17, 13), 1);
}

#[test]
fn test_gcd_with_zero() {
    assert_eq!(gcd(42, 0), 42);
    assert_eq!(gcd(0, 42), 42);
}

#[test]
fn test_is_generator_true() {
    assert!(is_generator(3, 7));
}

#[test]
fn test_is_generator_false() {
    assert!(!is_generator(2, 7));
}

#[test]
fn test_element_order_generator() {
    assert_eq!(element_order(3, 7), Some(6));
}

#[test]
fn test_element_order_non_generator() {
    assert_eq!(element_order(2, 7), Some(3));
}

#[test]
fn test_element_order_not_in_group() {
    assert_eq!(element_order(4, 8), None);
}

#[test]
fn test_find_all_generators_7() {
    assert_eq!(find_all_generators(7), vec![3, 5]);
}

#[test]
fn test_find_all_generators_13() {
    assert_eq!(find_all_generators(13), vec![2, 6, 7, 11]);
}

#[test]
fn mod_exp_of_a_large_power() {
    // 3^100 = 515377520732011331036461129765621272702107522001
    assert_eq!(mod_exp(3, 100, 1_000_000_007), 886_041_711);
    assert_eq!(mod_exp(3, 100, 1_000_000_000), 107_522_001);
}

#[test]
fn mod_exp_wide_operands() {
    let m = u64::MAX; // 2^64 - 1
    assert_eq!(mod_exp(m - 1, 2, m), 1);
    assert_eq!(mod_exp(2, 64, m), 1);
    assert_eq!(mod_exp(7, 0, 1), 1);
    assert_eq!(mod_exp(7, 3, 1), 0);
    assert_eq!(mul_mod_u64(m - 1, m - 1, m), 1);
    assert_eq!(mul_mod_u64(u64::MAX, u64::MAX, 10), 5);
}

#[test]
fn gcd_edge_cases() {
    assert_eq!(gcd(0, 0), 0);
    assert_eq!(gcd(u64::MAX, u64::MAX), u64::MAX);
    assert_eq!(gcd(u64::MAX, 1), 1);
    assert_eq!(gcd(1 << 63, 1 << 40), 1 << 40);
}

#[test]
fn gcd_is_the_greatest_common_divisor() {
    for a in 0..60_u64 {
        for b in 0..60_u64 {
            let g = gcd(a, b);
            if a == 0 && b == 0 {
                assert_eq!(g, 0);
                continue;
            }
            assert!(a % g == 0 && b % g == 0);
            for d in (g + 1)..=60 {
                assert!(a % d != 0 || b % d != 0);
            }
        }
    }
}

#[test]
fn element_order_edge_cases() {
    assert_eq!(element_order(1, 7), Some(1));
    assert_eq!(element_order(6, 7), Some(2));
    assert_eq!(element_order(0, 7), None);
    assert_eq!(element_order(7, 7), None);
    assert_eq!(element_order(5, 1), Some(1));
    assert_eq!(element_order(3, 8), Some(2));
    assert_eq!(element_order(10, 7), Some(6));
}

#[test]
fn generators_are_the_elements_of_full_order() {
    for p in [2_u64, 3, 5, 7, 11, 13, 17, 19, 23, 29, 31, 97] {
        let gens = find_all_generators(p);
        for g in 1..p {
            let full = element_order(g, p) == Some(p - 1);
            assert_eq!(is_generator(g, p), full);
            assert_eq!(gens.contains(&g), full);
        }
        assert!(gens.windows(2).all(|w| w[0] < w[1]));
    }
}

#[test]
fn is_generator_rejects_multiples_of_the_prime() {
    assert!(!is_generator(0, 7));
    assert!(!is_generator(14, 7));
    assert!(is_generator(10, 7));
    assert!(is_generator(1, 2));
    assert!(!is_generator(1, 3));
}

#[test]
fn find_all_generators_small_moduli() {
    assert_eq!(find_all_generators(0), Vec::<u64>::new());
    assert_eq!(find_all_generators(1), Vec::<u64>::new());
    assert_eq!(find_all_generators(2), vec![1]);
    assert_eq!(find_all_generators(3), vec![2]);
}

#[test]
fn sum_words_wraps() {
    assert_eq!(sum_words(&[]), 0);
    assert_eq!(sum_words(&[1, 2, 3]), 6);
    assert_eq!(sum_words(&[u64::MAX, 2]), 1);
    assert_eq!(sum_words(&[u64::MAX, u64::MAX, u64::MAX]), u64::MAX - 2);
}
