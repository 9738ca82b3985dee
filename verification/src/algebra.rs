//! Congruences between the polynomials of the chord-and-tangent
//! construction.

use crate::curve::{chord_point, on_curve, CurveModel, PointModel};
use crate::field::spec_mod_inv;
use crate::primes::{is_prime, lemma_mod_inv_inverts, lemma_prime_divides_product};
use vstd::arithmetic::div_mod::*;
use vstd::prelude::*;

verus! {

/// The right-hand side of the curve equation, `x^3 + a*x + b`.
pub open spec fn cubic(x: int, a: int, b: int) -> int {
    x * x * x + a * x + b
}

/// The cubic minus the square of the line of slope `lam` through `(x1, y1)`:
/// it vanishes modulo `p` at the abscissa of every common point.
pub open spec fn line_residual(x: int, lam: int, x1: int, y1: int, a: int, b: int) -> int {
    cubic(x, a, b) - (lam * (x - x1) + y1) * (lam * (x - x1) + y1)
}

/// A multiple of a multiple of `p` is a multiple of `p`.
pub proof fn lemma_zero_times(u: int, k: int, p: int)
    requires
        p > 0,
        u % p == 0,
    ensures
        (u * k) % p == 0,
        (k * u) % p == 0,
{
    lemma_mul_mod_noop_left(u, k, p);
    lemma_mul_mod_noop_right(k, u, p);
    assert(0 * k == 0 && k * 0 == 0);
    lemma_small_mod(0, p as nat);
}

/// Sums and differences of multiples of `p` are multiples of `p`.
pub proof fn lemma_zero_plus(u: int, v: int, p: int)
    requires
        p > 0,
        u % p == 0,
        v % p == 0,
    ensures
        (u + v) % p == 0,
        (u - v) % p == 0,
{
    lemma_add_mod_noop(u, v, p);
    lemma_sub_mod_noop(u, v, p);
    lemma_small_mod(0, p as nat);
}

/// Congruent numbers have congruent squares.
pub proof fn lemma_square_cong(u: int, v: int, p: int)
    requires
        p > 0,
        (u - v) % p == 0,
    ensures
        (u * u - v * v) % p == 0,
{
    assert(u * u - v * v == (u - v) * (u + v)) by (nonlinear_arith);
    lemma_zero_times(u - v, u + v, p);
}

/// The cubic takes congruent values at congruent arguments.
pub proof fn lemma_cubic_cong(x: int, z: int, a: int, b: int, p: int)
    requires
        p > 0,
        (x - z) % p == 0,
    ensures
        (cubic(x, a, b) - cubic(z, a, b)) % p == 0,
{
    assert(cubic(x, a, b) - cubic(z, a, b) == (x - z) * (x * x + x * z + z * z + a))
        by (nonlinear_arith);
    lemma_zero_times(x - z, x * x + x * z + z * z + a, p);
}

/// A number and its residue differ by a multiple of `p`.
pub proof fn lemma_residue_cong(u: int, p: int)
    requires
        p > 0,
    ensures
        (u % p - u) % p == 0,
        (u - u % p) % p == 0,
{
    lemma_mod_twice(u, p);
    lemma_mod_equivalence(u % p, u, p);
    lemma_mod_equivalence(u, u % p, p);
}

/// Dividing by `den` modulo a prime and multiplying by it again gives the
/// numerator back.
pub proof fn lemma_slope_relation(num: int, den: int, p: int)
    requires
        is_prime(p),
        den % p != 0,
    ensures
        (((num * spec_mod_inv(den, p)) % p) * den - num) % p == 0,
{
    let i = spec_mod_inv(den, p);
    let lam = (num * i) % p;
    lemma_mod_inv_inverts(den, p);
    assert((den * i - 1) % p == 0) by {
        lemma_small_mod(1, p as nat);
        lemma_mod_equivalence(den * i, 1, p);
    }
    lemma_residue_cong(num * i, p);
    lemma_zero_times(lam - num * i, den, p);
    lemma_zero_times(den * i - 1, num, p);
    assert(lam * den - num == (lam - num * i) * den + num * (den * i - 1)) by (nonlinear_arith);
    lemma_zero_plus((lam - num * i) * den, num * (den * i - 1), p);
}

/// The product of three root factors, multiplied out.
pub proof fn lemma_triple_product(x: int, r1: int, r2: int, r3: int)
    ensures
        (x - r1) * (x - r2) * (x - r3) == x * x * x - (r1 + r2 + r3) * (x * x) + (r1 * r2 + (r1
            + r2) * r3) * x - r1 * r2 * r3,
{
    let xx = x * x;
    let e1 = r1 + r2;
    let e2 = r1 * r2;
    let v = (x - r1) * (x - r2);
    assert(v == xx - e1 * x + e2) by (nonlinear_arith)
        requires
            v == (x - r1) * (x - r2),
            xx == x * x,
            e1 == r1 + r2,
            e2 == r1 * r2,
    ;
    assert(v * (x - r3) == xx * x - e1 * xx + e2 * x - xx * r3 + e1 * x * r3 - e2 * r3)
        by (nonlinear_arith)
        requires
            v == xx - e1 * x + e2,
            xx == x * x,
    ;
    assert((r1 + r2 + r3) * xx == e1 * xx + xx * r3) by (nonlinear_arith)
        requires
            e1 == r1 + r2,
    ;
    assert((e2 + e1 * r3) * x == e2 * x + e1 * x * r3) by (nonlinear_arith);
}

/// The cubic minus the squared line is the product of the three root factors
/// plus a linear rest, where the third root is `lam^2 - x1 - x2`.
pub proof fn lemma_residual_splits(x: int, lam: int, x1: int, y1: int, x2: int, a: int, b: int)
    ensures
        ({
            let x3 = lam * lam - x1 - x2;
            let s = a + 2 * (lam * lam) * x1 - 2 * lam * y1 - (x1 * x2 + (x1 + x2) * x3);
            let t = b - (lam * lam) * (x1 * x1) + 2 * lam * y1 * x1 - y1 * y1 + x1 * x2 * x3;
            line_residual(x, lam, x1, y1, a, b) == (x - x1) * (x - x2) * (x - x3) + s * x + t
        }),
{
    let l2 = lam * lam;
    let m = lam * y1;
    let x3 = l2 - x1 - x2;
    let u = x - x1;
    assert((lam * u + y1) * (lam * u + y1) == l2 * (u * u) + 2 * m * u + y1 * y1)
        by (nonlinear_arith)
        requires
            l2 == lam * lam,
            m == lam * y1,
    ;
    assert(l2 * (u * u) == l2 * (x * x) - 2 * l2 * x1 * x + l2 * (x1 * x1)) by (nonlinear_arith)
        requires
            u == x - x1,
    ;
    assert(2 * m * u == 2 * m * x - 2 * m * x1) by (nonlinear_arith)
        requires
            u == x - x1,
    ;
    lemma_triple_product(x, x1, x2, x3);
    assert((x1 + x2 + x3) * (x * x) == l2 * (x * x)) by (nonlinear_arith)
        requires
            x1 + x2 + x3 == l2,
    ;
    assert(2 * l2 * x1 * x == (2 * l2 * x1) * x) by (nonlinear_arith);
    assert(2 * lam * y1 == 2 * m && 2 * lam * y1 * x1 == 2 * m * x1) by (nonlinear_arith)
        requires
            m == lam * y1,
    ;
    let s = a + 2 * l2 * x1 - 2 * lam * y1 - (x1 * x2 + (x1 + x2) * x3);
    assert(s * x == a * x + (2 * l2 * x1) * x - 2 * m * x - (x1 * x2 + (x1 + x2) * x3) * x)
        by (nonlinear_arith)
        requires
            s == a + 2 * l2 * x1 - 2 * m - (x1 * x2 + (x1 + x2) * x3),
    ;
}

/// A line that meets the cubic over two different abscissas meets it over
/// `lam^2 - x1 - x2` as well.
pub proof fn lemma_chord_third_root(lam: int, x1: int, y1: int, x2: int, a: int, b: int, p: int)
    requires
        is_prime(p),
        (x2 - x1) % p != 0,
        line_residual(x1, lam, x1, y1, a, b) % p == 0,
        line_residual(x2, lam, x1, y1, a, b) % p == 0,
    ensures
        line_residual(lam * lam - x1 - x2, lam, x1, y1, a, b) % p == 0,
{
    let x3 = lam * lam - x1 - x2;
    let s = a + 2 * (lam * lam) * x1 - 2 * lam * y1 - (x1 * x2 + (x1 + x2) * x3);
    let t = b - (lam * lam) * (x1 * x1) + 2 * lam * y1 * x1 - y1 * y1 + x1 * x2 * x3;
    lemma_residual_splits(x1, lam, x1, y1, x2, a, b);
    lemma_residual_splits(x2, lam, x1, y1, x2, a, b);
    lemma_residual_splits(x3, lam, x1, y1, x2, a, b);
    lemma_root_factors_vanish(x1, x2, x3);
    let g1 = s * x1 + t;
    let g2 = s * x2 + t;
    lemma_zero_plus(g2, g1, p);
    assert(g2 - g1 == s * (x2 - x1)) by (nonlinear_arith)
        requires
            g1 == s * x1 + t,
            g2 == s * x2 + t,
    ;
    lemma_prime_divides_product(s, x2 - x1, p);
    lemma_linear_rest_vanishes(s, t, x1, x3, p);
}

/// A line that touches the cubic over `x1` meets it over `lam^2 - 2*x1` as
/// well.
pub proof fn lemma_tangent_third_root(lam: int, x1: int, y1: int, a: int, b: int, p: int)
    requires
        p > 0,
        line_residual(x1, lam, x1, y1, a, b) % p == 0,
        (lam * (2 * y1) - (3 * x1 * x1 + a)) % p == 0,
    ensures
        line_residual(lam * lam - x1 - x1, lam, x1, y1, a, b) % p == 0,
{
    let x3 = lam * lam - x1 - x1;
    let s = a + 2 * (lam * lam) * x1 - 2 * lam * y1 - (x1 * x1 + (x1 + x1) * x3);
    let t = b - (lam * lam) * (x1 * x1) + 2 * lam * y1 * x1 - y1 * y1 + x1 * x1 * x3;
    lemma_residual_splits(x1, lam, x1, y1, x1, a, b);
    lemma_residual_splits(x3, lam, x1, y1, x1, a, b);
    lemma_root_factors_vanish(x1, x1, x3);
    let u = lam * (2 * y1) - (3 * x1 * x1 + a);
    let l2 = lam * lam;
    assert((x1 + x1) * x3 == 2 * l2 * x1 - 4 * (x1 * x1)) by (nonlinear_arith)
        requires
            x3 == l2 - x1 - x1,
    ;
    assert(lam * (2 * y1) == 2 * lam * y1 && 3 * x1 * x1 == 3 * (x1 * x1)) by (nonlinear_arith);
    assert(s == u * (-1));
    lemma_zero_times(u, -1, p);
    lemma_linear_rest_vanishes(s, t, x1, x3, p);
}

/// The product of the root factors is zero at each root.
proof fn lemma_root_factors_vanish(r1: int, r2: int, r3: int)
    ensures
        (r1 - r1) * (r1 - r2) * (r1 - r3) == 0,
        (r2 - r1) * (r2 - r2) * (r2 - r3) == 0,
        (r3 - r1) * (r3 - r2) * (r3 - r3) == 0,
{
    assert((r1 - r1) * (r1 - r2) * (r1 - r3) == 0) by (nonlinear_arith);
    assert((r2 - r1) * (r2 - r2) * (r2 - r3) == 0) by (nonlinear_arith);
    assert((r3 - r1) * (r3 - r2) * (r3 - r3) == 0) by (nonlinear_arith);
}

/// A linear function whose slope is a multiple of `p` and which is a
/// multiple of `p` at one argument is one at every argument.
proof fn lemma_linear_rest_vanishes(s: int, t: int, x: int, z: int, p: int)
    requires
        p > 0,
        s % p == 0,
        (s * x + t) % p == 0,
    ensures
        (s * z + t) % p == 0,
{
    lemma_zero_times(s, x, p);
    lemma_zero_plus(s * x + t, s * x, p);
    lemma_zero_times(s, z, p);
    lemma_zero_plus(s * z, t, p);
}

/// Where the line of slope `lam` through `(x1, y1)` meets the cubic over
/// `lam^2 - x1 - x2`, the point built from that abscissa lies on the curve.
pub proof fn lemma_chord_point_on_curve(lam: int, x1: int, y1: int, x2: int, c: CurveModel)
    requires
        c.p > 0,
        line_residual(lam * lam - x1 - x2, lam, x1, y1, c.a, c.b) % c.p == 0,
    ensures
        on_curve(chord_point(lam, x1, y1, x2, c.p), c),
{
    let p = c.p;
    let big_x = lam * lam - x1 - x2;
    let x3 = big_x % p;
    let v = lam * (x1 - x3) - y1;
    let y3 = v % p;
    let w = lam * (big_x - x1) + y1;
    lemma_residue_cong(big_x, p);
    lemma_zero_times(big_x - x3, lam, p);
    assert(v - (-w) == lam * (big_x - x3)) by (nonlinear_arith)
        requires
            v == lam * (x1 - x3) - y1,
            w == lam * (big_x - x1) + y1,
    ;
    lemma_square_cong(v, -w, p);
    assert((-w) * (-w) == w * w) by (nonlinear_arith);
    lemma_residue_cong(v, p);
    lemma_square_cong(y3, v, p);
    lemma_cubic_cong(big_x, x3, c.a, c.b, p);
    lemma_zero_plus(y3 * y3 - v * v, v * v - w * w, p);
    lemma_zero_plus(cubic(big_x, c.a, c.b) - w * w, cubic(big_x, c.a, c.b) - cubic(x3, c.a, c.b), p);
    lemma_zero_plus(
        y3 * y3 - v * v + (v * v - w * w),
        cubic(big_x, c.a, c.b) - w * w - (cubic(big_x, c.a, c.b) - cubic(x3, c.a, c.b)),
        p,
    );
    lemma_mod_equivalence(y3 * y3, cubic(x3, c.a, c.b), p);
}

} // verus!
