use ecc_engine::fri::fri_fold;
use ecc_engine::polynomial::poly_eval;

#[test]
fn fri_fold_exact_values() {
    // modulo 17 the number 4 has order 4; p(x) = 1 + 2x + 3x^2 + 4x^3 is
    // folded with the challenge 5 into 1 + 3y + 5 * (2 + 4y) = 11 + 6y
    let p = 17_i64;
    let omega = 4_i64;
    let poly = [1_u64, 2, 3, 4];
    let points = [1_u64, 4, 16, 13];
    let evals: Vec<i64> = points.iter().map(|&x| poly_eval(&poly, x, 17) as i64).collect();
    assert_eq!(evals, vec![10, 7, 15, 6]);
    let folded = fri_fold(&evals, 5, p, omega);
    // at y = 1 and y = 16
    assert_eq!(folded, vec![0, 5]);
}

#[test]
fn fri_fold_edge_cases() {
    assert_eq!(fri_fold(&[], 5, 17, 4), Vec::<i64>::new());
    // a constant polynomial folds to itself
    assert_eq!(fri_fold(&[9, 9], 5, 17, 16), vec![9]);
    assert_eq!(fri_fold(&[9 - 17, 9 + 34], -12, 17, -1), vec![9]);
    // p(x) = x at 1 and -1 folds to the challenge
    assert_eq!(fri_fold(&[1, 16], 5, 17, 16), vec![5]);
}

#[test]
fn fri_fold_halves_the_degree() {
    let p = 97_u64;
    let omega = 64_u64; // of order 8 modulo 97
    let poly = [3_u64, 1, 4, 1, 5, 9, 2, 6];
    let alpha = 29_u64;
    let mut x = 1_u64;
    let mut points = vec![];
    for _ in 0..8 {
        points.push(x);
        x = x * omega % p;
    }
    assert_eq!(x, 1);
    let evals: Vec<i64> = points.iter().map(|&x| poly_eval(&poly, x, p) as i64).collect();
    let folded = fri_fold(&evals, alpha as i64, p as i64, omega as i64);
    // the folded polynomial has the coefficients even[i] + alpha * odd[i]
    let half: Vec<u64> = (0..4).map(|i| (poly[2 * i] + alpha * poly[2 * i + 1]) % p).collect();
    for i in 0..4 {
        let y = points[i] * points[i] % p;
        assert_eq!(folded[i] as u64, poly_eval(&half, y, p));
    }
}
