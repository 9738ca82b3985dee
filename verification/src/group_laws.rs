//! What holds of the group law: identity, inverses, commutativity, doubling,
//! closure of the curve, and the first multiples of a point.

use crate::algebra::{
    cubic, lemma_chord_point_on_curve, lemma_chord_third_root, lemma_cubic_cong,
    lemma_residue_cong, lemma_slope_relation, lemma_square_cong, lemma_tangent_third_root,
    lemma_zero_plus, lemma_zero_times, line_residual,
};
use crate::curve::{
    aligned, chord_point, chord_slope, ec_add, ec_double, ec_ladder, ec_mul, is_reduced, normalize,
    on_curve, tangent_slope, valid_curve, CurveModel, PointModel,
};
use crate::primes::{is_prime, lemma_prime_divides_product};
use vstd::arithmetic::div_mod::*;
use vstd::prelude::*;

verus! {

/// A point with reduced coordinates is its own normal form, and a normal
/// form is reduced.
pub proof fn lemma_normalize_reduced(pt: PointModel, c: CurveModel)
    requires
        c.p > 0,
    ensures
        is_reduced(normalize(pt, c), c),
        is_reduced(pt, c) ==> normalize(pt, c) == pt,
        normalize(normalize(pt, c), c) == normalize(pt, c),
{
    match pt {
        PointModel::Infinity => {},
        PointModel::Affine(x, y) => {
            lemma_mod_bound(x, c.p);
            lemma_mod_bound(y, c.p);
            lemma_mod_twice(x, c.p);
            lemma_mod_twice(y, c.p);
            if is_reduced(pt, c) {
                lemma_small_mod(x as nat, c.p as nat);
                lemma_small_mod(y as nat, c.p as nat);
            }
        },
    }
}

/// The point at infinity is the identity on both sides: adding it to a point
/// gives that point in reduced coordinates, so a reduced point comes back
/// unchanged.
pub proof fn lemma_add_identity(pt: PointModel, c: CurveModel)
    requires
        c.p > 0,
    ensures
        ec_add(PointModel::Infinity, pt, c) == normalize(pt, c),
        ec_add(pt, PointModel::Infinity, c) == normalize(pt, c),
        is_reduced(pt, c) ==> ec_add(PointModel::Infinity, pt, c) == pt && ec_add(
            pt,
            PointModel::Infinity,
            c,
        ) == pt,
{
    lemma_normalize_reduced(pt, c);
}

/// A point and its mirror image in the x-axis add up to the identity.
pub proof fn lemma_add_inverse(x: int, y: int, c: CurveModel)
    requires
        valid_curve(c),
    ensures
        ec_add(PointModel::Affine(x, y), PointModel::Affine(x, (-y) % c.p), c)
            == PointModel::Infinity,
{
    let p = c.p;
    let y1 = y % p;
    let y2 = ((-y) % p) % p;
    lemma_mod_bound(y, p);
    lemma_mod_twice(-y, p);
    assert((y1 + y2) % p == 0) by {
        lemma_add_mod_noop(y, -y, p);
        lemma_small_mod(0, p as nat);
    }
    if y1 == y2 {
        // Then 2*y1 is a multiple of the odd number p below 2p, so y1 is 0.
        assert(y1 == 0) by {
            if y1 != 0 {
                lemma_fundamental_div_mod(2 * y1, p);
                let q = (2 * y1) / p;
                assert(q == 1) by (nonlinear_arith)
                    requires
                        2 * y1 == p * q,
                        0 < y1 < p,
                ;
                lemma_prime_is_odd(p);
            }
        }
    }
}

/// A prime above 2 is odd.
pub proof fn lemma_prime_is_odd(p: int)
    requires
        is_prime(p),
        p > 2,
    ensures
        p % 2 == 1,
{
    assert(p % 2 != 0);
}

/// Adding a point to itself is doubling it.
pub proof fn lemma_add_self_is_double(pt: PointModel, c: CurveModel)
    ensures
        ec_add(pt, pt, c) == ec_double(pt, c),
{
}

/// The multiple by 0 is the identity.
pub proof fn lemma_mul_zero(pt: PointModel, c: CurveModel)
    ensures
        ec_mul(0, pt, c) == PointModel::Infinity,
{
}

/// The multiple by 1 is the point itself, in reduced coordinates.
pub proof fn lemma_mul_one(pt: PointModel, c: CurveModel)
    requires
        c.p > 0,
    ensures
        ec_mul(1, pt, c) == normalize(pt, c),
        is_reduced(pt, c) ==> ec_mul(1, pt, c) == pt,
{
    reveal_with_fuel(ec_ladder, 2);
    lemma_add_identity(pt, c);
}

/// Doubling gives a point with reduced coordinates, and so does adding.
pub proof fn lemma_results_reduced(p1: PointModel, p2: PointModel, c: CurveModel)
    requires
        c.p > 0,
    ensures
        is_reduced(ec_double(p1, c), c),
        is_reduced(ec_add(p1, p2, c), c),
{
    lemma_normalize_reduced(p1, c);
    lemma_normalize_reduced(p2, c);
    match normalize(p1, c) {
        PointModel::Infinity => {},
        PointModel::Affine(x, y) => {
            let lam = tangent_slope(x, y, c);
            lemma_mod_bound(lam * lam - x - x, c.p);
            lemma_mod_bound(lam * (x - (lam * lam - x - x) % c.p) - y, c.p);
        },
    }
    match (normalize(p1, c), normalize(p2, c)) {
        (PointModel::Affine(x1, y1), PointModel::Affine(x2, y2)) => {
            let lam = chord_slope(x1, y1, x2, y2, c.p);
            lemma_mod_bound(lam * lam - x1 - x2, c.p);
            lemma_mod_bound(lam * (x1 - (lam * lam - x1 - x2) % c.p) - y1, c.p);
        },
        _ => {},
    }
}

/// The multiple by 2 is the double.
pub proof fn lemma_mul_two(pt: PointModel, c: CurveModel)
    requires
        c.p > 0,
    ensures
        ec_mul(2, pt, c) == ec_double(pt, c),
{
    reveal_with_fuel(ec_ladder, 3);
    lemma_results_reduced(pt, pt, c);
    lemma_add_identity(ec_double(pt, c), c);
}

/// The multiple by 3 is the point plus its double.
pub proof fn lemma_mul_three(pt: PointModel, c: CurveModel)
    requires
        c.p > 0,
    ensures
        ec_mul(3, pt, c) == ec_add(pt, ec_double(pt, c), c),
{
    reveal_with_fuel(ec_ladder, 3);
    lemma_add_identity(pt, c);
    lemma_normalize_reduced(pt, c);
    lemma_add_sees_residues(pt, ec_double(pt, c), c);
}

/// The sum of two points depends on their residues alone.
pub proof fn lemma_add_sees_residues(p1: PointModel, p2: PointModel, c: CurveModel)
    requires
        c.p > 0,
    ensures
        ec_add(normalize(p1, c), p2, c) == ec_add(p1, p2, c),
        ec_add(p1, normalize(p2, c), c) == ec_add(p1, p2, c),
        ec_double(normalize(p1, c), c) == ec_double(p1, c),
{
    lemma_normalize_reduced(p1, c);
    lemma_normalize_reduced(p2, c);
}

/// Multiples add up as the scalars do, for scalars whose sum is at most 3:
/// `(k1 + k2) * P == k1 * P + k2 * P` for a point `P` of the curve.
pub proof fn lemma_mul_adds_up_to_three(k1: nat, k2: nat, pt: PointModel, c: CurveModel)
    requires
        valid_curve(c),
        on_curve(pt, c),
        k1 + k2 <= 3,
    ensures
        ec_mul(k1 + k2, pt, c) == ec_add(ec_mul(k1, pt, c), ec_mul(k2, pt, c), c),
{
    let dbl = ec_double(pt, c);
    let red = normalize(pt, c);
    lemma_mul_zero(pt, c);
    lemma_mul_one(pt, c);
    lemma_mul_two(pt, c);
    lemma_mul_three(pt, c);
    lemma_normalize_reduced(pt, c);
    lemma_results_reduced(pt, pt, c);
    lemma_results_reduced(pt, dbl, c);
    lemma_add_identity(red, c);
    lemma_add_identity(dbl, c);
    lemma_add_identity(ec_mul(3, pt, c), c);
    lemma_add_sees_residues(pt, pt, c);
    lemma_add_sees_residues(pt, red, c);
    lemma_add_sees_residues(pt, dbl, c);
    if k1 + k2 == 3 && k1 == 2 {
        lemma_double_on_curve(pt, c);
        lemma_add_commutes_on_curve(dbl, pt, c);
        lemma_add_sees_residues(pt, dbl, c);
        lemma_add_sees_residues(dbl, pt, c);
    }
    if k1 == 1 && k2 == 1 {
        lemma_add_self_is_double(red, c);
    }
}

/// Two different residues differ by no multiple of `p`.
proof fn lemma_distinct_residues(x1: int, x2: int, p: int)
    requires
        0 <= x1 < p,
        0 <= x2 < p,
        x1 != x2,
    ensures
        (x2 - x1) % p != 0,
{
    lemma_small_mod(x1 as nat, p as nat);
    lemma_small_mod(x2 as nat, p as nat);
    lemma_mod_equivalence(x2, x1, p);
}

/// The reduced form of a point of the curve is on the curve.
pub proof fn lemma_normalize_on_curve(pt: PointModel, c: CurveModel)
    requires
        c.p > 0,
        on_curve(pt, c),
    ensures
        on_curve(normalize(pt, c), c),
{
    match pt {
        PointModel::Infinity => {},
        PointModel::Affine(x, y) => {
            let p = c.p;
            lemma_residue_cong(x, p);
            lemma_residue_cong(y, p);
            lemma_cubic_cong(x % p, x, c.a, c.b, p);
            lemma_square_cong(y % p, y, p);
            lemma_mod_equivalence(y * y, cubic(x, c.a, c.b), p);
            lemma_zero_plus((y % p) * (y % p) - y * y, y * y - cubic(x, c.a, c.b), p);
            lemma_zero_plus(
                (y % p) * (y % p) - y * y + (y * y - cubic(x, c.a, c.b)),
                cubic(x % p, c.a, c.b) - cubic(x, c.a, c.b),
                p,
            );
            lemma_mod_equivalence((y % p) * (y % p), cubic(x % p, c.a, c.b), p);
        },
    }
}

/// Two points of the curve over the same abscissa are equal or opposite.
pub proof fn lemma_on_curve_aligned(p1: PointModel, p2: PointModel, c: CurveModel)
    requires
        valid_curve(c),
        on_curve(p1, c),
        on_curve(p2, c),
    ensures
        aligned(p1, p2, c),
{
    let p = c.p;
    lemma_normalize_on_curve(p1, c);
    lemma_normalize_on_curve(p2, c);
    lemma_normalize_reduced(p1, c);
    lemma_normalize_reduced(p2, c);
    match (normalize(p1, c), normalize(p2, c)) {
        (PointModel::Affine(x1, y1), PointModel::Affine(x2, y2)) => {
            if x1 == x2 {
                lemma_mod_equivalence(y1 * y1, y2 * y2, p);
                assert(y1 * y1 - y2 * y2 == (y1 - y2) * (y1 + y2)) by (nonlinear_arith);
                lemma_prime_divides_product(y1 - y2, y1 + y2, p);
                if (y1 - y2) % p == 0 {
                    lemma_mod_equivalence(y1, y2, p);
                    lemma_small_mod(y1 as nat, p as nat);
                    lemma_small_mod(y2 as nat, p as nat);
                }
            }
        },
        _ => {},
    }
}

/// Doubling a point of the curve gives a point of the curve.
pub proof fn lemma_double_on_curve(pt: PointModel, c: CurveModel)
    requires
        valid_curve(c),
        on_curve(pt, c),
    ensures
        on_curve(ec_double(pt, c), c),
{
    let p = c.p;
    lemma_normalize_on_curve(pt, c);
    lemma_normalize_reduced(pt, c);
    match normalize(pt, c) {
        PointModel::Infinity => {},
        PointModel::Affine(x, y) => {
            if y != 0 {
                let lam = tangent_slope(x, y, c);
                assert((2 * y) % p != 0) by {
                    if (2 * y) % p == 0 {
                        lemma_prime_divides_product(2, y, p);
                        lemma_small_mod(2, p as nat);
                        lemma_small_mod(y as nat, p as nat);
                    }
                }
                lemma_slope_relation(3 * x * x + c.a, 2 * y, p);
                assert(lam * (x - x) + y == y) by (nonlinear_arith);
                lemma_mod_equivalence(y * y, cubic(x, c.a, c.b), p);
                lemma_zero_times(y * y - cubic(x, c.a, c.b), -1, p);
                assert(line_residual(x, lam, x, y, c.a, c.b) == (y * y - cubic(x, c.a, c.b)) * (-1));
                lemma_tangent_third_root(lam, x, y, c.a, c.b, p);
                lemma_chord_point_on_curve(lam, x, y, x, c);
            }
        },
    }
}

/// Adding two points of the curve gives a point of the curve.
pub proof fn lemma_add_on_curve(p1: PointModel, p2: PointModel, c: CurveModel)
    requires
        valid_curve(c),
        on_curve(p1, c),
        on_curve(p2, c),
    ensures
        on_curve(ec_add(p1, p2, c), c),
{
    let p = c.p;
    lemma_normalize_on_curve(p1, c);
    lemma_normalize_on_curve(p2, c);
    lemma_normalize_reduced(p1, c);
    lemma_normalize_reduced(p2, c);
    lemma_on_curve_aligned(p1, p2, c);
    match (normalize(p1, c), normalize(p2, c)) {
        (PointModel::Affine(x1, y1), PointModel::Affine(x2, y2)) => {
            if x1 == x2 && y1 == y2 {
                lemma_double_on_curve(p1, c);
            } else if x1 == x2 && (y1 + y2) % p == 0 {
            } else {
                let lam = chord_slope(x1, y1, x2, y2, p);
                let d = x2 - x1;
                lemma_distinct_residues(x1, x2, p);
                lemma_slope_relation(y2 - y1, d, p);
                // over x1 the line passes through (x1, y1)
                assert(lam * (x1 - x1) + y1 == y1) by (nonlinear_arith);
                lemma_mod_equivalence(y1 * y1, cubic(x1, c.a, c.b), p);
                lemma_zero_times(y1 * y1 - cubic(x1, c.a, c.b), -1, p);
                assert(line_residual(x1, lam, x1, y1, c.a, c.b) == (y1 * y1 - cubic(x1, c.a, c.b))
                    * (-1));
                // over x2 it passes through (x2, y2)
                let h = lam * d + y1;
                lemma_square_cong(h, y2, p);
                lemma_mod_equivalence(y2 * y2, cubic(x2, c.a, c.b), p);
                lemma_zero_plus(h * h - y2 * y2, y2 * y2 - cubic(x2, c.a, c.b), p);
                lemma_zero_times(h * h - y2 * y2 + (y2 * y2 - cubic(x2, c.a, c.b)), -1, p);
                assert(line_residual(x2, lam, x1, y1, c.a, c.b) == (h * h - y2 * y2 + (y2 * y2
                    - cubic(x2, c.a, c.b))) * (-1));
                lemma_chord_third_root(lam, x1, y1, x2, c.a, c.b, p);
                lemma_chord_point_on_curve(lam, x1, y1, x2, c);
            }
        },
        _ => {},
    }
}

/// Every multiple of a point of the curve is a point of the curve.
pub proof fn lemma_mul_on_curve(k: nat, pt: PointModel, c: CurveModel)
    requires
        valid_curve(c),
        on_curve(pt, c),
    ensures
        on_curve(ec_mul(k, pt, c), c),
{
    lemma_ladder_on_curve(k, PointModel::Infinity, pt, c);
}

/// The ladder stays on the curve when it starts there.
pub proof fn lemma_ladder_on_curve(k: nat, acc: PointModel, run: PointModel, c: CurveModel)
    requires
        valid_curve(c),
        on_curve(acc, c),
        on_curve(run, c),
    ensures
        on_curve(ec_ladder(k, acc, run, c), c),
    decreases k,
{
    if k != 0 {
        lemma_add_on_curve(acc, run, c);
        lemma_double_on_curve(run, c);
        lemma_ladder_on_curve(
            k / 2,
            if k % 2 == 1 { ec_add(acc, run, c) } else { acc },
            ec_double(run, c),
            c,
        );
    }
}

/// Addition is commutative on points that are aligned; all points of the
/// curve are.
pub proof fn lemma_add_commutes(p1: PointModel, p2: PointModel, c: CurveModel)
    requires
        valid_curve(c),
        aligned(p1, p2, c),
    ensures
        ec_add(p1, p2, c) == ec_add(p2, p1, c),
{
    let p = c.p;
    lemma_normalize_reduced(p1, c);
    lemma_normalize_reduced(p2, c);
    match (normalize(p1, c), normalize(p2, c)) {
        (PointModel::Affine(x1, y1), PointModel::Affine(x2, y2)) => {
            if x1 == x2 && y1 == y2 {
            } else if x1 == x2 && (y1 + y2) % p == 0 {
            } else {
                let lam = chord_slope(x1, y1, x2, y2, p);
                let mu = chord_slope(x2, y2, x1, y1, p);
                let d = x2 - x1;
                let e = y2 - y1;
                lemma_distinct_residues(x1, x2, p);
                lemma_distinct_residues(x2, x1, p);
                lemma_slope_relation(e, d, p);
                lemma_slope_relation(-e, -d, p);
                assert(y1 - y2 == -e && x1 - x2 == -d);
                // both slopes times d are e, so the slopes agree
                lemma_zero_times(mu * (-d) - (-e), -1, p);
                assert((mu * (-d) - (-e)) * (-1) == mu * d - e) by (nonlinear_arith);
                lemma_zero_plus(lam * d - e, mu * d - e, p);
                assert(lam * d - e - (mu * d - e) == (lam - mu) * d) by (nonlinear_arith);
                lemma_prime_divides_product(lam - mu, d, p);
                lemma_mod_equivalence(lam, mu, p);
                lemma_mod_bound(e * crate::field::spec_mod_inv(d, p), p);
                lemma_mod_bound((-e) * crate::field::spec_mod_inv(-d, p), p);
                lemma_small_mod(lam as nat, p as nat);
                lemma_small_mod(mu as nat, p as nat);
                assert(lam == mu);
                // the ordinates of the two third points are congruent
                let x3 = (lam * lam - x1 - x2) % p;
                assert((lam * lam - x2 - x1) % p == x3);
                let v1 = lam * (x1 - x3) - y1;
                let v2 = lam * (x2 - x3) - y2;
                lemma_zero_times(lam * d - e, -1, p);
                assert(v1 - v2 == (lam * d - e) * (-1)) by (nonlinear_arith)
                    requires
                        v1 == lam * (x1 - x3) - y1,
                        v2 == lam * (x2 - x3) - y2,
                        d == x2 - x1,
                        e == y2 - y1,
                ;
                lemma_mod_equivalence(v1, v2, p);
            }
        },
        _ => {},
    }
}

/// Addition is commutative on the curve.
pub proof fn lemma_add_commutes_on_curve(p1: PointModel, p2: PointModel, c: CurveModel)
    requires
        valid_curve(c),
        on_curve(p1, c),
        on_curve(p2, c),
    ensures
        ec_add(p1, p2, c) == ec_add(p2, p1, c),
{
    lemma_on_curve_aligned(p1, p2, c);
    lemma_add_commutes(p1, p2, c);
}

/// Addition is associative on the points of the curve.
pub open spec fn associative_on_curve(c: CurveModel) -> bool {
    forall|x: PointModel, y: PointModel, z: PointModel|
        on_curve(x, c) && on_curve(y, c) && on_curve(z, c) ==> #[trigger] ec_add(
            ec_add(x, y, c),
            z,
            c,
        ) == ec_add(x, ec_add(y, z, c), c)
}

/// Every multiple of a point has reduced coordinates.
pub proof fn lemma_mul_reduced(k: nat, pt: PointModel, c: CurveModel)
    requires
        c.p > 0,
    ensures
        is_reduced(ec_mul(k, pt, c), c),
{
    lemma_ladder_reduced(k, PointModel::Infinity, pt, c);
}

/// The ladder ends in a reduced point when its accumulator starts as one.
pub proof fn lemma_ladder_reduced(k: nat, acc: PointModel, run: PointModel, c: CurveModel)
    requires
        c.p > 0,
        is_reduced(acc, c),
    ensures
        is_reduced(ec_ladder(k, acc, run, c), c),
    decreases k,
{
    if k != 0 {
        lemma_results_reduced(acc, run, c);
        lemma_ladder_reduced(
            k / 2,
            if k % 2 == 1 { ec_add(acc, run, c) } else { acc },
            ec_double(run, c),
            c,
        );
    }
}

/// Where addition is associative, the ladder adds the multiple of its
/// running point to its accumulator.
pub proof fn lemma_ladder_adds_multiple(k: nat, acc: PointModel, run: PointModel, c: CurveModel)
    requires
        valid_curve(c),
        associative_on_curve(c),
        on_curve(acc, c),
        is_reduced(acc, c),
        on_curve(run, c),
    ensures
        ec_ladder(k, acc, run, c) == ec_add(acc, ec_mul(k, run, c), c),
    decreases k,
{
    let inf = PointModel::Infinity;
    lemma_add_identity(acc, c);
    if k != 0 {
        let j = k / 2;
        let dbl = ec_double(run, c);
        let sub = ec_mul(j, dbl, c);
        lemma_double_on_curve(run, c);
        lemma_mul_on_curve(j, dbl, c);
        lemma_mul_reduced(j, dbl, c);
        lemma_add_identity(sub, c);
        lemma_add_sees_residues(acc, sub, c);
        if k % 2 == 1 {
            let red = ec_add(inf, run, c);
            lemma_add_identity(run, c);
            lemma_normalize_on_curve(run, c);
            lemma_normalize_reduced(run, c);
            lemma_add_on_curve(acc, run, c);
            lemma_results_reduced(acc, run, c);
            lemma_ladder_adds_multiple(j, ec_add(acc, run, c), dbl, c);
            lemma_ladder_adds_multiple(j, red, dbl, c);
            lemma_add_sees_residues(run, sub, c);
            lemma_add_on_curve(run, sub, c);
            assert(ec_add(ec_add(acc, run, c), sub, c) == ec_add(acc, ec_add(run, sub, c), c));
        } else {
            lemma_ladder_adds_multiple(j, acc, dbl, c);
            lemma_ladder_adds_multiple(j, inf, dbl, c);
        }
    }
}

/// Where addition is associative, a multiple is built from the multiple of
/// the double by half the scalar, plus the point itself for an odd scalar.
pub proof fn lemma_mul_halves(k: nat, pt: PointModel, c: CurveModel)
    requires
        valid_curve(c),
        associative_on_curve(c),
        on_curve(pt, c),
        k > 0,
    ensures
        ec_mul(k, pt, c) == if k % 2 == 1 {
            ec_add(pt, ec_mul(k / 2, ec_double(pt, c), c), c)
        } else {
            ec_mul(k / 2, ec_double(pt, c), c)
        },
{
    let inf = PointModel::Infinity;
    let dbl = ec_double(pt, c);
    let sub = ec_mul(k / 2, dbl, c);
    lemma_double_on_curve(pt, c);
    lemma_mul_reduced(k / 2, dbl, c);
    lemma_add_identity(sub, c);
    lemma_add_identity(pt, c);
    lemma_normalize_on_curve(pt, c);
    lemma_normalize_reduced(pt, c);
    lemma_add_sees_residues(pt, sub, c);
    if k % 2 == 1 {
        lemma_ladder_adds_multiple(k / 2, ec_add(inf, pt, c), dbl, c);
    } else {
        lemma_ladder_adds_multiple(k / 2, inf, dbl, c);
    }
}

/// Where addition is associative on the curve, multiples add up as the
/// scalars do: `(k1 + k2) * P == k1 * P + k2 * P` for a point `P` of the
/// curve.
pub proof fn lemma_mul_adds_where_associative(k1: nat, k2: nat, pt: PointModel, c: CurveModel)
    requires
        valid_curve(c),
        associative_on_curve(c),
        on_curve(pt, c),
    ensures
        ec_mul(k1 + k2, pt, c) == ec_add(ec_mul(k1, pt, c), ec_mul(k2, pt, c), c),
    decreases k1 + k2,
{
    let m1 = ec_mul(k1, pt, c);
    let m2 = ec_mul(k2, pt, c);
    lemma_mul_reduced(k1, pt, c);
    lemma_mul_reduced(k2, pt, c);
    lemma_add_identity(m1, c);
    lemma_add_identity(m2, c);
    if k1 != 0 && k2 != 0 {
        let dbl = ec_double(pt, c);
        let j1 = k1 / 2;
        let j2 = k2 / 2;
        let a = ec_mul(j1, dbl, c);
        let b = ec_mul(j2, dbl, c);
        let ab = ec_mul(j1 + j2, dbl, c);
        lemma_double_on_curve(pt, c);
        lemma_mul_on_curve(j1, dbl, c);
        lemma_mul_on_curve(j2, dbl, c);
        lemma_mul_on_curve(j1 + j2, dbl, c);
        lemma_mul_halves(k1, pt, c);
        lemma_mul_halves(k2, pt, c);
        lemma_mul_halves(k1 + k2, pt, c);
        lemma_mul_adds_where_associative(j1, j2, dbl, c);
        lemma_add_on_curve(a, b, c);
        lemma_add_on_curve(pt, a, c);
        lemma_add_on_curve(pt, b, c);
        assert((k1 + k2) / 2 == j1 + j2 + if k1 % 2 == 1 && k2 % 2 == 1 { 1int } else { 0int });
        if k1 % 2 == 1 && k2 % 2 == 1 {
            // (P + A) + (P + B) == (P + P) + (A + B)
            lemma_add_commutes_on_curve(a, pt, c);
            lemma_add_on_curve(a, ec_add(pt, b, c), c);
            lemma_add_on_curve(pt, ab, c);
            assert(ec_add(ec_add(pt, a, c), ec_add(pt, b, c), c) == ec_add(
                pt,
                ec_add(a, ec_add(pt, b, c), c),
                c,
            ));
            assert(ec_add(a, ec_add(pt, b, c), c) == ec_add(ec_add(a, pt, c), b, c));
            assert(ec_add(ec_add(pt, a, c), b, c) == ec_add(pt, ab, c));
            assert(ec_add(pt, ec_add(pt, ab, c), c) == ec_add(ec_add(pt, pt, c), ab, c));
            lemma_add_self_is_double(pt, c);
            // and the sum of the scalars is twice j1 + j2 + 1
            lemma_mul_adds_where_associative(1, j1 + j2, dbl, c);
            lemma_mul_one(dbl, c);
            lemma_results_reduced(pt, pt, c);
            lemma_normalize_reduced(dbl, c);
        } else if k1 % 2 == 1 {
            assert(ec_add(ec_add(pt, a, c), b, c) == ec_add(pt, ab, c));
        } else if k2 % 2 == 1 {
            // A + (P + B) == P + (A + B)
            lemma_add_commutes_on_curve(a, pt, c);
            assert(ec_add(a, ec_add(pt, b, c), c) == ec_add(ec_add(a, pt, c), b, c));
            assert(ec_add(ec_add(pt, a, c), b, c) == ec_add(pt, ab, c));
        }
    }
}

/// The sum of `k` copies of a point, added one after the other.
pub open spec fn repeated_sum(k: nat, pt: PointModel, c: CurveModel) -> PointModel
    decreases k,
{
    if k == 0 {
        PointModel::Infinity
    } else {
        ec_add(repeated_sum((k - 1) as nat, pt, c), pt, c)
    }
}

/// Where addition is associative on the curve, double-and-add computes the
/// sum of `k` copies of the point.
pub proof fn lemma_mul_is_repeated_sum_where_associative(k: nat, pt: PointModel, c: CurveModel)
    requires
        valid_curve(c),
        associative_on_curve(c),
        on_curve(pt, c),
    ensures
        ec_mul(k, pt, c) == repeated_sum(k, pt, c),
    decreases k,
{
    if k > 0 {
        let j = (k - 1) as nat;
        lemma_mul_is_repeated_sum_where_associative(j, pt, c);
        lemma_mul_adds_where_associative(j, 1, pt, c);
        lemma_mul_one(pt, c);
        lemma_add_sees_residues(ec_mul(j, pt, c), pt, c);
    }
}

/// Where addition is associative on the curve, a multiple of a multiple is
/// the multiple by the product of the scalars.
pub proof fn lemma_mul_multiplies_where_associative(
    a: nat,
    b: nat,
    pt: PointModel,
    c: CurveModel,
)
    requires
        valid_curve(c),
        associative_on_curve(c),
        on_curve(pt, c),
    ensures
        ec_mul(a, ec_mul(b, pt, c), c) == ec_mul(a * b, pt, c),
    decreases a,
{
    let inner = ec_mul(b, pt, c);
    lemma_mul_on_curve(b, pt, c);
    lemma_mul_reduced(b, pt, c);
    if a == 0 {
        assert(a * b == 0) by (nonlinear_arith)
            requires
                a == 0,
        ;
    } else {
        let j = (a - 1) as nat;
        lemma_mul_multiplies_where_associative(j, b, pt, c);
        lemma_mul_adds_where_associative(j, 1, inner, c);
        lemma_mul_one(inner, c);
        lemma_mul_adds_where_associative(j * b, b, pt, c);
        assert(j * b + b == a * b) by (nonlinear_arith)
            requires
                j == a - 1,
        ;
    }
}

/// Where addition is associative on the curve, the two sides of a
/// Diffie-Hellman exchange arrive at the same point: `a * (b * G)` is
/// `b * (a * G)`.
pub proof fn lemma_key_agreement_where_associative(a: nat, b: nat, g: PointModel, c: CurveModel)
    requires
        valid_curve(c),
        associative_on_curve(c),
        on_curve(g, c),
    ensures
        ec_mul(a, ec_mul(b, g, c), c) == ec_mul(b, ec_mul(a, g, c), c),
{
    lemma_mul_multiplies_where_associative(a, b, g, c);
    lemma_mul_multiplies_where_associative(b, a, g, c);
    assert(a * b == b * a) by (nonlinear_arith);
}

} // verus!
