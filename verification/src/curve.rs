//! Points on a short-Weierstrass curve `y^2 = x^3 + a*x + b` over `GF(p)`
//! and the group law on them.
//!
//! Callers may hand in coordinates that are any representatives of their
//! residues.  Every point that leaves this module has its coordinates in
//! `[0, p)`, so equal points are equal values.

use crate::field::{
    add_mod, lemma_sub_reduced, mod_inv, mul_mod, reduce, spec_mod_inv, sub_mod,
};
use crate::group_laws::{lemma_add_on_curve, lemma_double_on_curve};
use crate::primes::is_prime;
use vstd::arithmetic::div_mod::*;
use vstd::prelude::*;

verus! {

/// A point of the curve: the identity, or a pair of coordinates.
#[derive(Debug, Clone, Copy, PartialEq, Eq, Structural)]
pub enum Point {
    /// The point at infinity, the identity of the group.
    Infinity,
    /// The affine point `(x, y)`; each coordinate stands for its residue.
    Affine(i64, i64),
}

/// The parameters `a`, `b` and the modulus `p` of `y^2 = x^3 + a*x + b`.
#[derive(Debug, Clone, Copy)]
pub struct CurveParams {
    pub a: i64,
    pub b: i64,
    pub p: i64,
}

/// A point with coordinates in the integers.
pub enum PointModel {
    Infinity,
    Affine(int, int),
}

/// Curve parameters in the integers.
pub struct CurveModel {
    pub a: int,
    pub b: int,
    pub p: int,
}

impl View for Point {
    type V = PointModel;

    open spec fn view(&self) -> PointModel {
        match *self {
            Point::Infinity => PointModel::Infinity,
            Point::Affine(x, y) => PointModel::Affine(x as int, y as int),
        }
    }
}

impl View for CurveParams {
    type V = CurveModel;

    open spec fn view(&self) -> CurveModel {
        CurveModel { a: self.a as int, b: self.b as int, p: self.p as int }
    }
}

/// The modulus is an odd prime, so the residues form a field in which 2 can
/// be inverted.
pub open spec fn valid_curve(c: CurveModel) -> bool {
    is_prime(c.p) && c.p > 2
}

/// The point with both coordinates replaced by their residues in `[0, p)`.
pub open spec fn normalize(pt: PointModel, c: CurveModel) -> PointModel {
    match pt {
        PointModel::Infinity => PointModel::Infinity,
        PointModel::Affine(x, y) => PointModel::Affine(x % c.p, y % c.p),
    }
}

/// Both coordinates lie in `[0, p)`.
pub open spec fn is_reduced(pt: PointModel, c: CurveModel) -> bool {
    match pt {
        PointModel::Infinity => true,
        PointModel::Affine(x, y) => 0 <= x < c.p && 0 <= y < c.p,
    }
}

/// The point satisfies the curve equation modulo `p`; the identity does.
pub open spec fn on_curve(pt: PointModel, c: CurveModel) -> bool {
    match pt {
        PointModel::Infinity => true,
        PointModel::Affine(x, y) => (y * y) % c.p == (x * x * x + c.a * x + c.b) % c.p,
    }
}

/// Two affine points over the same abscissa are equal or opposite.  Any two
/// points of the curve are so; a point off the curve need not be.
pub open spec fn aligned(p1: PointModel, p2: PointModel, c: CurveModel) -> bool {
    match (normalize(p1, c), normalize(p2, c)) {
        (PointModel::Affine(x1, y1), PointModel::Affine(x2, y2)) => x1 == x2 ==> (y1 == y2 || (y1
            + y2) % c.p == 0),
        _ => true,
    }
}

/// The third point of the curve on the line of slope `lam` through
/// `(x1, y1)` and a point with abscissa `x2`, reflected in the x-axis.
pub open spec fn chord_point(lam: int, x1: int, y1: int, x2: int, p: int) -> PointModel {
    let x3 = (lam * lam - x1 - x2) % p;
    let y3 = (lam * (x1 - x3) - y1) % p;
    PointModel::Affine(x3, y3)
}

/// The slope of the tangent at `(x, y)`: `(3x^2 + a) / (2y)`.
pub open spec fn tangent_slope(x: int, y: int, c: CurveModel) -> int {
    ((3 * x * x + c.a) * spec_mod_inv(2 * y, c.p)) % c.p
}

/// The slope of the chord through `(x1, y1)` and `(x2, y2)`:
/// `(y2 - y1) / (x2 - x1)`.
pub open spec fn chord_slope(x1: int, y1: int, x2: int, y2: int, p: int) -> int {
    ((y2 - y1) * spec_mod_inv(x2 - x1, p)) % p
}

/// Twice a point.  A point with `y = 0` has a vertical tangent and doubles
/// to the identity.
pub open spec fn ec_double(pt: PointModel, c: CurveModel) -> PointModel {
    match normalize(pt, c) {
        PointModel::Infinity => PointModel::Infinity,
        PointModel::Affine(x, y) => if y == 0 {
            PointModel::Infinity
        } else {
            chord_point(tangent_slope(x, y, c), x, y, x, c.p)
        },
    }
}

/// The sum of two points.  The cases are tried in this order: one of the
/// points is the identity; the points are equal; they are opposite; the
/// chord through them.
pub open spec fn ec_add(p1: PointModel, p2: PointModel, c: CurveModel) -> PointModel {
    match (normalize(p1, c), normalize(p2, c)) {
        (PointModel::Infinity, q) => q,
        (q, PointModel::Infinity) => q,
        (PointModel::Affine(x1, y1), PointModel::Affine(x2, y2)) => if x1 == x2 && y1 == y2 {
            ec_double(p1, c)
        } else if x1 == x2 && (y1 + y2) % c.p == 0 {
            PointModel::Infinity
        } else {
            chord_point(chord_slope(x1, y1, x2, y2, c.p), x1, y1, x2, c.p)
        },
    }
}

/// Double-and-add from the lowest bit of `k`: `acc` gathers the sum, `run`
/// is doubled in every round.
pub open spec fn ec_ladder(k: nat, acc: PointModel, run: PointModel, c: CurveModel) -> PointModel
    decreases k,
{
    if k == 0 {
        acc
    } else {
        ec_ladder(k / 2, if k % 2 == 1 { ec_add(acc, run, c) } else { acc }, ec_double(run, c), c)
    }
}

/// The multiple `k * pt`, as double-and-add computes it.
pub open spec fn ec_mul(k: nat, pt: PointModel, c: CurveModel) -> PointModel {
    ec_ladder(k, PointModel::Infinity, pt, c)
}

/// The point on the line of slope `lam`, from reduced operands.
fn third_point(lam: i64, x1: i64, y1: i64, x2: i64, m: i64) -> (r: Point)
    requires
        m > 0,
        0 <= lam < m,
        0 <= x1 < m,
        0 <= y1 < m,
        0 <= x2 < m,
    ensures
        r@ == chord_point(lam as int, x1 as int, y1 as int, x2 as int, m as int),
        r is Affine,
        0 <= r->0 < m,
        0 <= r->1 < m,
{
    let sq: i64 = mul_mod(lam, lam, m);
    let t: i64 = sub_mod(sq, x1, m);
    let x3: i64 = sub_mod(t, x2, m);
    let dx: i64 = sub_mod(x1, x3, m);
    let prod: i64 = mul_mod(lam, dx, m);
    let y3: i64 = sub_mod(prod, y1, m);
    proof {
        let p = m as int;
        lemma_sub_reduced(lam * lam, x1 as int, p);
        lemma_sub_reduced(lam * lam - x1, x2 as int, p);
        lemma_mul_mod_noop_right(lam as int, x1 - x3, p);
        lemma_sub_reduced(lam * (x1 - x3), y1 as int, p);
    }
    Point::Affine(x3, y3)
}

/// Doubles a point.
///
/// The identity and a point with `y = 0` double to the identity.  Any other
/// point doubles along its tangent.
pub fn point_double(p: Point, curve: &CurveParams) -> (r: Point)
    requires
        curve.p >= 2,
    ensures
        r@ == ec_double(p@, curve@),
        is_reduced(r@, curve@),
        valid_curve(curve@) && on_curve(p@, curve@) ==> on_curve(r@, curve@),
{
    proof {
        if valid_curve(curve@) && on_curve(p@, curve@) {
            lemma_double_on_curve(p@, curve@);
        }
    }
    match p {
        Point::Infinity => Point::Infinity,
        Point::Affine(x0, y0) => {
            let m: i64 = curve.p;
            let x: i64 = reduce(x0, m);
            let y: i64 = reduce(y0, m);
            if y == 0 {
                return Point::Infinity;
            }
            let xx: i64 = mul_mod(x, x, m);
            let three_xx: i64 = mul_mod(3, xx, m);
            let a: i64 = reduce(curve.a, m);
            let num: i64 = add_mod(three_xx, a, m);
            let den: i64 = add_mod(y, y, m);
            let inv: i64 = mod_inv(den, m);
            let lam: i64 = mul_mod(num, inv, m);
            proof {
                let pp = m as int;
                assert(3 * x * x == 3 * (x * x)) by (nonlinear_arith);
                lemma_mul_mod_noop_right(3, x * x, pp);
                lemma_add_mod_noop(3 * (x * x), curve.a as int, pp);
                lemma_mod_twice(3 * (x * x), pp);
                lemma_mod_twice(curve.a as int, pp);
                lemma_add_mod_noop((3 * (x * x)) % pp, (curve.a as int) % pp, pp);
                assert(num == (3 * x * x + curve.a) % pp);
                lemma_mod_twice(2 * y, pp);
                assert(inv == spec_mod_inv(2 * y, pp));
                lemma_mul_mod_noop_left(3 * x * x + curve.a, inv as int, pp);
                assert(lam == tangent_slope(x as int, y as int, curve@));
            }
            third_point(lam, x, y, x, m)
        },
    }
}

/// Adds two points.
///
/// The identity added to a point gives that point.  Equal points are
/// doubled.  Points with the same `x` and opposite `y` add up to the
/// identity.  Any other two points are joined by a chord.
pub fn point_add(p1: Point, p2: Point, curve: &CurveParams) -> (r: Point)
    requires
        curve.p >= 2,
    ensures
        r@ == ec_add(p1@, p2@, curve@),
        is_reduced(r@, curve@),
        valid_curve(curve@) && on_curve(p1@, curve@) && on_curve(p2@, curve@) ==> on_curve(
            r@,
            curve@,
        ),
{
    proof {
        if valid_curve(curve@) && on_curve(p1@, curve@) && on_curve(p2@, curve@) {
            lemma_add_on_curve(p1@, p2@, curve@);
        }
    }
    let m: i64 = curve.p;
    match (p1, p2) {
        (Point::Infinity, Point::Infinity) => Point::Infinity,
        (Point::Infinity, Point::Affine(x, y)) => Point::Affine(reduce(x, m), reduce(y, m)),
        (Point::Affine(x, y), Point::Infinity) => Point::Affine(reduce(x, m), reduce(y, m)),
        (Point::Affine(a1, b1), Point::Affine(a2, b2)) => {
            let x1: i64 = reduce(a1, m);
            let y1: i64 = reduce(b1, m);
            let x2: i64 = reduce(a2, m);
            let y2: i64 = reduce(b2, m);
            if x1 == x2 && y1 == y2 {
                return point_double(p1, curve);
            }
            if x1 == x2 && add_mod(y1, y2, m) == 0 {
                return Point::Infinity;
            }
            let dy: i64 = sub_mod(y2, y1, m);
            let dx: i64 = sub_mod(x2, x1, m);
            let inv: i64 = mod_inv(dx, m);
            let lam: i64 = mul_mod(dy, inv, m);
            proof {
                let pp = m as int;
                lemma_mod_twice(x2 - x1, pp);
                lemma_mul_mod_noop_left(y2 - y1, inv as int, pp);
                assert(lam == chord_slope(x1 as int, y1 as int, x2 as int, y2 as int, pp));
            }
            third_point(lam, x1, y1, x2, m)
        },
    }
}

/// Multiplies a point by a scalar with double-and-add.
///
/// The bits of `k` are read from the lowest up.  The running point is
/// doubled in every round and added to the accumulator where the bit is set.
pub fn scalar_mul(k: u64, p: Point, curve: &CurveParams) -> (r: Point)
    requires
        curve.p >= 2,
    ensures
        r@ == ec_mul(k as nat, p@, curve@),
        is_reduced(r@, curve@),
        valid_curve(curve@) && on_curve(p@, curve@) ==> on_curve(r@, curve@),
{
    let mut acc: Point = Point::Infinity;
    let mut run: Point = p;
    let mut n: u64 = k;
    while n > 0
        invariant
            curve.p >= 2,
            is_reduced(acc@, curve@),
            valid_curve(curve@) && on_curve(p@, curve@) ==> on_curve(acc@, curve@) && on_curve(
                run@,
                curve@,
            ),
            ec_ladder(n as nat, acc@, run@, curve@) == ec_mul(k as nat, p@, curve@),
        decreases n,
    {
        if n % 2 == 1 {
            acc = point_add(acc, run, curve);
        }
        run = point_double(run, curve);
        n = n / 2;
    }
    acc
}

} // verus!
