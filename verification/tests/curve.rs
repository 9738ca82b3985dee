use ecc_engine::curve::{point_add, point_double, scalar_mul, CurveParams, Point};
use ecc_engine::protocol::{ecdh_shared_secret, ecdsa_verify};

fn test_curve() -> CurveParams {
    // y^2 = x^3 + 2x + 3 over GF(97)
    CurveParams { a: 2, b: 3, p: 97 }
}

fn on_curve(pt: Point, c: &CurveParams) -> bool {
    match pt {
        Point::Infinity => true,
        Point::Affine(x, y) => {
            (y * y).rem_euclid(c.p) == (x * x * x + c.a * x + c.b).rem_euclid(c.p)
        }
    }
}

/// All points of the curve, the identity included.
fn all_points(c: &CurveParams) -> Vec<Point> {
    let mut pts = vec![Point::Infinity];
    for x in 0..c.p {
        for y in 0..c.p {
            if on_curve(Point::Affine(x, y), c) {
                pts.push(Point::Affine(x, y));
            }
        }
    }
    pts
}

#[test]
fn test_point_add_basic() {
    let c = test_curve();
    let p1 = Point::Affine(3, 6);
    let p2 = Point::Affine(80, 10);
    let sum = point_add(p1, p2, &c);
    // Verify the result is on the curve
    if let Point::Affine(x, y) = sum {
        let lhs = (y * y).rem_euclid(c.p);
        let rhs = (x * x * x + c.a * x + c.b).rem_euclid(c.p);
        assert_eq!(lhs, rhs, "Result should be on the curve");
    }
}

#[test]
fn test_point_add_infinity() {
    let c = test_curve();
    let p1 = Point::Affine(3, 6);
    assert_eq!(point_add(p1, Point::Infinity, &c), p1);
    assert_eq!(point_add(Point::Infinity, p1, &c), p1);
}

#[test]
fn test_point_double() {
    let c = test_curve();
    let p1 = Point::Affine(3, 6);
    let doubled = point_double(p1, &c);
    if let Point::Affine(x, y) = doubled {
        let lhs = (y * y).rem_euclid(c.p);
        let rhs = (x * x * x + c.a * x + c.b).rem_euclid(c.p);
        assert_eq!(lhs, rhs, "Doubled point should be on the curve");
    }
}

#[test]
fn test_scalar_mul_identity() {
    let c = test_curve();
    let p1 = Point::Affine(3, 6);
    assert_eq!(scalar_mul(1, p1, &c), p1);
}

#[test]
fn test_ecdh() {
    let c = test_curve();
    let g = Point::Affine(3, 6);
    let (a, b) = (7_u64, 11_u64);
    let pk_a = scalar_mul(a, g, &c);
    let pk_b = scalar_mul(b, g, &c);
    let shared_a = ecdh_shared_secret(a, pk_b, &c);
    let shared_b = ecdh_shared_secret(b, pk_a, &c);
    assert_eq!(shared_a, shared_b, "Both parties should derive same shared secret");
}

#[test]
fn point_add_exact_values() {
    let c = test_curve();
    assert_eq!(point_add(Point::Affine(3, 6), Point::Affine(80, 10), &c), Point::Affine(80, 87));
    assert_eq!(point_add(Point::Affine(3, 6), Point::Affine(3, 6), &c), Point::Affine(80, 10));
    assert_eq!(point_add(Point::Affine(80, 87), Point::Affine(3, 6), &c), Point::Affine(3, 91));
    assert_eq!(point_add(Point::Infinity, Point::Infinity, &c), Point::Infinity);
}

#[test]
fn point_double_exact_values() {
    let c = test_curve();
    assert_eq!(point_double(Point::Affine(3, 6), &c), Point::Affine(80, 10));
    assert_eq!(point_double(Point::Affine(80, 10), &c), Point::Affine(3, 91));
    assert_eq!(point_double(Point::Infinity, &c), Point::Infinity);
}

#[test]
fn point_double_vertical_tangent_is_infinity() {
    // y^2 = x^3 - x over GF(97) holds (0, 0), (1, 0) and (96, 0)
    let c = CurveParams { a: -1, b: 0, p: 97 };
    assert_eq!(point_double(Point::Affine(0, 0), &c), Point::Infinity);
    assert_eq!(point_double(Point::Affine(1, 0), &c), Point::Infinity);
    assert_eq!(point_double(Point::Affine(1, 97), &c), Point::Infinity);
    assert_eq!(point_add(Point::Affine(96, 0), Point::Affine(-1, 0), &c), Point::Infinity);
}

#[test]
fn coordinates_are_reduced_on_every_path() {
    let c = test_curve();
    let p1 = Point::Affine(3 + 97, 6 - 97);
    assert_eq!(point_add(p1, Point::Infinity, &c), Point::Affine(3, 6));
    assert_eq!(point_add(Point::Infinity, p1, &c), Point::Affine(3, 6));
    assert_eq!(point_double(p1, &c), Point::Affine(80, 10));
    assert_eq!(point_add(p1, Point::Affine(80 - 2 * 97, 10 + 97), &c), Point::Affine(80, 87));
    assert_eq!(point_add(p1, Point::Affine(3, 6), &c), Point::Affine(80, 10));
    assert_eq!(point_add(p1, Point::Affine(3, -6), &c), Point::Infinity);
    assert_eq!(scalar_mul(1, p1, &c), Point::Affine(3, 6));
    assert_eq!(scalar_mul(3, p1, &c), Point::Affine(80, 87));
}

#[test]
fn extreme_coordinates_do_not_overflow() {
    let c = CurveParams { a: i64::MIN, b: i64::MAX, p: i64::MAX };
    let p1 = Point::Affine(i64::MIN, i64::MAX);
    let p2 = Point::Affine(i64::MAX - 1, i64::MIN + 1);
    for pt in [point_add(p1, p2, &c), point_double(p1, &c), scalar_mul(u64::MAX, p2, &c)] {
        if let Point::Affine(x, y) = pt {
            assert!(0 <= x && x < c.p);
            assert!(0 <= y && y < c.p);
        }
    }
}

#[test]
fn group_identity_for_every_point() {
    let c = test_curve();
    for pt in all_points(&c) {
        assert_eq!(point_add(Point::Infinity, pt, &c), pt);
        assert_eq!(point_add(pt, Point::Infinity, &c), pt);
    }
}

#[test]
fn inverse_for_every_point() {
    let c = test_curve();
    for pt in all_points(&c) {
        if let Point::Affine(x, y) = pt {
            let mirror = Point::Affine(x, (-y).rem_euclid(c.p));
            assert_eq!(point_add(pt, mirror, &c), Point::Infinity);
        }
    }
}

#[test]
fn addition_commutes_on_the_curve() {
    let c = test_curve();
    let pts = all_points(&c);
    assert_eq!(pts.len(), 100);
    for &p1 in &pts {
        for &p2 in &pts {
            assert_eq!(point_add(p1, p2, &c), point_add(p2, p1, &c));
        }
    }
}

#[test]
fn addition_off_the_curve_need_not_commute() {
    let c = test_curve();
    // (3, 7) is not on the curve and lies over the same abscissa as (3, 6)
    let p1 = Point::Affine(3, 6);
    let p2 = Point::Affine(3, 7);
    assert_eq!(point_add(p1, p2, &c), Point::Affine(91, 91));
    assert_eq!(point_add(p2, p1, &c), Point::Affine(91, 90));
}

#[test]
fn adding_a_point_to_itself_doubles_it() {
    let c = test_curve();
    for pt in all_points(&c) {
        assert_eq!(point_add(pt, pt, &c), point_double(pt, &c));
    }
}

#[test]
fn sums_and_doubles_stay_on_the_curve() {
    let c = test_curve();
    let pts = all_points(&c);
    for &p1 in &pts {
        assert!(on_curve(point_double(p1, &c), &c));
        for &p2 in &pts {
            assert!(on_curve(point_add(p1, p2, &c), &c));
        }
    }
}

#[test]
fn addition_is_associative_on_the_curve() {
    let c = test_curve();
    let pts = all_points(&c);
    for &p1 in pts.iter().step_by(3) {
        for &p2 in &pts {
            for &p3 in pts.iter().step_by(2) {
                let left = point_add(point_add(p1, p2, &c), p3, &c);
                let right = point_add(p1, point_add(p2, p3, &c), &c);
                assert_eq!(left, right);
            }
        }
    }
}

#[test]
fn scalar_mul_is_the_repeated_sum() {
    let c = test_curve();
    for g in [Point::Affine(3, 6), Point::Affine(0, 10), Point::Affine(1, 43)] {
        assert!(on_curve(g, &c));
        let mut sum = Point::Infinity;
        for k in 0..220_u64 {
            assert_eq!(scalar_mul(k, g, &c), sum);
            sum = point_add(sum, g, &c);
        }
    }
}

#[test]
fn scalar_mul_small_multiples() {
    let c = test_curve();
    let g = Point::Affine(3, 6);
    let expected = [
        Point::Infinity,
        Point::Affine(3, 6),
        Point::Affine(80, 10),
        Point::Affine(80, 87),
        Point::Affine(3, 91),
        Point::Infinity,
        Point::Affine(3, 6),
    ];
    for (k, want) in expected.iter().enumerate() {
        assert_eq!(scalar_mul(k as u64, g, &c), *want);
    }
    assert_eq!(scalar_mul(0, Point::Infinity, &c), Point::Infinity);
    assert_eq!(scalar_mul(12345, Point::Infinity, &c), Point::Infinity);
}

#[test]
fn scalar_mul_is_additive_in_the_scalar() {
    let c = CurveParams { a: 2, b: 25, p: 1009 };
    let g = Point::Affine(0, 5);
    for k1 in 0..40_u64 {
        for k2 in [0_u64, 1, 2, 3, 17, 500, 990, 991, 992, 4000] {
            let lhs = scalar_mul(k1 + k2, g, &c);
            let rhs = point_add(scalar_mul(k1, g, &c), scalar_mul(k2, g, &c), &c);
            assert_eq!(lhs, rhs);
        }
    }
}

#[test]
fn scalar_mul_by_the_order_is_infinity() {
    let c = CurveParams { a: 2, b: 25, p: 1009 };
    let g = Point::Affine(0, 5);
    assert_eq!(scalar_mul(991, g, &c), Point::Infinity);
    assert_eq!(scalar_mul(123, g, &c), Point::Affine(427, 561));
}

#[test]
fn ecdh_agreement_exact_value() {
    let c = test_curve();
    let g = Point::Affine(3, 6);
    let pk_a = scalar_mul(7, g, &c);
    let pk_b = scalar_mul(11, g, &c);
    assert_eq!(pk_a, Point::Affine(80, 10));
    assert_eq!(pk_b, Point::Affine(3, 6));
    assert_eq!(ecdh_shared_secret(7, pk_b, &c), Point::Affine(80, 10));
    assert_eq!(ecdh_shared_secret(11, pk_a, &c), Point::Affine(80, 10));
    assert_eq!(scalar_mul(7, scalar_mul(11, g, &c), &c), scalar_mul(11, scalar_mul(7, g, &c), &c));
}

#[test]
fn concrete_vector_infinity_plus_point() {
    let c = test_curve();
    assert_eq!(point_add(Point::Infinity, Point::Affine(3, 6), &c), Point::Affine(3, 6));
}

// y^2 = x^3 + 2x + 25 over GF(1009) has 991 points, a prime; (0, 5) generates them.
// With the secret key 123 and the nonce 77 the hash 4321 is signed by (350, 834).
const Z: u64 = 4321;
const R: u64 = 350;
const S: u64 = 834;
const N: u64 = 991;

fn ecdsa_setup() -> (CurveParams, Point, Point) {
    let c = CurveParams { a: 2, b: 25, p: 1009 };
    let g = Point::Affine(0, 5);
    let pk = scalar_mul(123, g, &c);
    (c, g, pk)
}

#[test]
fn ecdsa_accepts_an_honest_signature() {
    let (c, g, pk) = ecdsa_setup();
    assert_eq!(pk, Point::Affine(427, 561));
    assert!(ecdsa_verify(Z, R, S, pk, g, N, &c));
}

#[test]
fn ecdsa_rejects_every_single_bit_flip() {
    let (c, g, pk) = ecdsa_setup();
    for bit in 0..64 {
        let flip = 1_u64 << bit;
        assert!(!ecdsa_verify(Z ^ flip, R, S, pk, g, N, &c));
        assert!(!ecdsa_verify(Z, R ^ flip, S, pk, g, N, &c));
        assert!(!ecdsa_verify(Z, R, S ^ flip, pk, g, N, &c));
    }
}

#[test]
fn ecdsa_rejects_out_of_range_values() {
    let (c, g, pk) = ecdsa_setup();
    assert!(!ecdsa_verify(Z, 0, S, pk, g, N, &c));
    assert!(!ecdsa_verify(Z, R, 0, pk, g, N, &c));
    assert!(!ecdsa_verify(Z, N, S, pk, g, N, &c));
    assert!(!ecdsa_verify(Z, R, N, pk, g, N, &c));
    assert!(!ecdsa_verify(Z, R + N, S, pk, g, N, &c));
    assert!(!ecdsa_verify(Z, R, S + N, pk, g, N, &c));
    assert!(!ecdsa_verify(Z, R, S, pk, g, 0, &c));
    assert!(!ecdsa_verify(Z, R, S, pk, g, 1, &c));
}

#[test]
fn ecdsa_rejects_the_identity_as_result() {
    let (c, g, _) = ecdsa_setup();
    // with the identity as public key and a hash that is a multiple of the
    // order, the point R is the identity
    assert!(!ecdsa_verify(N, R, S, Point::Infinity, g, N, &c));
}

#[test]
fn ecdsa_rejects_a_wrong_key() {
    let (c, g, _) = ecdsa_setup();
    let other = scalar_mul(124, g, &c);
    assert!(!ecdsa_verify(Z, R, S, other, g, N, &c));
}
