//! Diffie-Hellman key agreement and ECDSA signature checking on a curve.

use crate::curve::{
    ec_add, ec_ladder, ec_mul, is_reduced, on_curve, point_add, scalar_mul, valid_curve,
    CurveModel, CurveParams, Point, PointModel,
};
use crate::field::spec_mod_inv;
use crate::group_laws::{
    associative_on_curve, lemma_add_identity, lemma_mul_adds_where_associative,
    lemma_mul_multiplies_where_associative, lemma_mul_on_curve, lemma_mul_reduced,
};
use crate::modular::{mod_exp, mul_mod_u64};
use crate::primes::{is_prime, lemma_mod_inv_inverts};
use vstd::arithmetic::div_mod::*;
use vstd::prelude::*;

verus! {

/// Whether `(r, s)` is accepted as a signature on the hash `z` under the
/// public key `pk`, for the base point `g` of order `n`.
///
/// A signature with `r` or `s` outside `[1, n)` is never accepted.
/// Otherwise, with `w = 1/s`, the point `R = (z*w)*g + (r*w)*pk` must not
/// be the identity and its abscissa must be `r` modulo `n`.
pub open spec fn ecdsa_accepts(
    z: nat,
    r: nat,
    s: nat,
    pk: PointModel,
    g: PointModel,
    n: nat,
    c: CurveModel,
) -> bool {
    if r == 0 || s == 0 || r >= n || s >= n {
        false
    } else {
        let w = spec_mod_inv(s as int, n as int);
        let u1 = (z * w) % (n as int);
        let u2 = (r * w) % (n as int);
        match ec_add(ec_mul(u1 as nat, g, c), ec_mul(u2 as nat, pk, c), c) {
            PointModel::Infinity => false,
            PointModel::Affine(x, _) => x % (n as int) == r,
        }
    }
}

/// The second half of an honest signature on the hash `z`: with the nonce
/// `k` and `r` from the point `k * g`, it is `(z + r * sk) / k` modulo `n`.
pub open spec fn ecdsa_s(z: nat, r: nat, sk: nat, k: nat, n: nat) -> int {
    (spec_mod_inv(k as int, n as int) * (z + r * sk)) % (n as int)
}

/// Every multiple of the identity is the identity.
pub proof fn lemma_mul_of_identity(k: nat, c: CurveModel)
    ensures
        ec_mul(k, PointModel::Infinity, c) == PointModel::Infinity,
{
    lemma_ladder_of_identity(k, c);
}

/// The ladder on the identity stays at the identity.
proof fn lemma_ladder_of_identity(k: nat, c: CurveModel)
    ensures
        ec_ladder(k, PointModel::Infinity, PointModel::Infinity, c) == PointModel::Infinity,
    decreases k,
{
    if k != 0 {
        lemma_ladder_of_identity(k / 2, c);
    }
}

/// Where addition is associative on the curve, an honest signature is
/// accepted: for a base point `g` whose multiple by the prime `n` is the
/// identity, the public key `sk * g` and a nonce `k` below `n`, the pair of
/// `r`, the abscissa of `k * g` modulo `n`, and `s = (z + r * sk) / k` is a
/// signature on `z`, unless one of the two is 0.
pub proof fn lemma_ecdsa_accepts_honest_signature(
    z: nat,
    sk: nat,
    k: nat,
    g: PointModel,
    n: nat,
    c: CurveModel,
)
    requires
        valid_curve(c),
        associative_on_curve(c),
        on_curve(g, c),
        is_prime(n as int),
        ec_mul(n, g, c) == PointModel::Infinity,
        0 < k < n,
        ec_mul(k, g, c) is Affine,
        ec_mul(k, g, c)->0 % (n as int) != 0,
        ecdsa_s(z, (ec_mul(k, g, c)->0 % (n as int)) as nat, sk, k, n) != 0,
    ensures
        ecdsa_accepts(
            z,
            (ec_mul(k, g, c)->0 % (n as int)) as nat,
            ecdsa_s(z, (ec_mul(k, g, c)->0 % (n as int)) as nat, sk, k, n) as nat,
            ec_mul(sk, g, c),
            g,
            n,
            c,
        ),
{
    let ni = n as int;
    let big_r = ec_mul(k, g, c);
    let pk = ec_mul(sk, g, c);
    lemma_mul_reduced(k, g, c);
    let r = (big_r->0 % ni) as nat;
    let h: int = (z + r * sk) as int;
    let kinv = spec_mod_inv(k as int, ni);
    let s = ecdsa_s(z, r, sk, k, n);
    lemma_mod_bound(big_r->0, ni);
    lemma_mod_bound(kinv * h, ni);
    lemma_small_mod(k, n);
    lemma_small_mod(s as nat, n);
    lemma_mod_inv_inverts(k as int, ni);
    lemma_mod_inv_inverts(s, ni);
    let w = spec_mod_inv(s, ni);
    let u1 = ((z * w) % ni) as nat;
    let u2 = ((r * w) % ni) as nat;
    lemma_mod_bound(z * w, ni);
    lemma_mod_bound(r * w, ni);
    // u1 * g + u2 * pk is the multiple of g by e = u1 + u2 * sk
    let e: nat = u1 + u2 * sk;
    lemma_mul_multiplies_where_associative(u2, sk, g, c);
    lemma_mul_adds_where_associative(u1, u2 * sk, g, c);
    // e is k modulo n: e == w * h and s * k == h, so e == w * s * k == k
    assert((e - w * h) % ni == 0) by {
        lemma_add_mod_noop(u1 as int, (u2 * sk) as int, ni);
        lemma_mod_twice(z * w, ni);
        lemma_mul_mod_noop_left(r * w, sk as int, ni);
        lemma_add_mod_noop(z * w, (r * w) * sk, ni);
        assert(z * w + (r * w) * sk == w * h) by (nonlinear_arith)
            requires
                h == z + r * sk,
        ;
        assert((e as int) % ni == (w * h) % ni);
        lemma_mod_equivalence(e as int, w * h, ni);
    }
    assert((s * k - h) % ni == 0) by {
        lemma_mul_mod_noop_left(kinv * h, k as int, ni);
        assert((kinv * h) * k == h * (k * kinv)) by (nonlinear_arith);
        lemma_mul_mod_noop_right(h, k * kinv, ni);
        assert(h * 1 == h);
        lemma_mod_equivalence(s * k, h, ni);
    }
    assert((e - k) % ni == 0) by {
        // w * h == w * s * k == k
        lemma_mul_mod_noop_right(w, h, ni);
        lemma_mul_mod_noop_right(w, s * k, ni);
        lemma_mod_equivalence(s * k, h, ni);
        assert(w * (s * k) == k * (s * w)) by (nonlinear_arith);
        lemma_mul_mod_noop_right(k as int, s * w, ni);
        assert(k * 1 == k);
        lemma_mod_equivalence(e as int, w * h, ni);
        lemma_mod_equivalence(e as int, k as int, ni);
    }
    // so e is k plus a multiple of n, which changes nothing
    lemma_mod_equivalence(e as int, k as int, ni);
    lemma_fundamental_div_mod(e as int, ni);
    let t = (e as int / ni) as nat;
    lemma_div_pos_is_pos(e as int, ni);
    assert(e == k + t * n) by (nonlinear_arith)
        requires
            e == ni * (e as int / ni) + k,
            t == e as int / ni,
            ni == n,
    ;
    lemma_mul_adds_where_associative(k, t * n, g, c);
    lemma_mul_multiplies_where_associative(t, n, g, c);
    lemma_mul_of_identity(t, c);
    lemma_add_identity(big_r, c);
}

/// The shared secret of a Diffie-Hellman exchange: the own secret scalar
/// times the other party's public point.
pub fn ecdh_shared_secret(sk: u64, pk: Point, curve: &CurveParams) -> (r: Point)
    requires
        curve.p >= 2,
    ensures
        r@ == ec_mul(sk as nat, pk@, curve@),
        is_reduced(r@, curve@),
        valid_curve(curve@) && on_curve(pk@, curve@) ==> on_curve(r@, curve@),
{
    scalar_mul(sk, pk, curve)
}

/// Checks an ECDSA signature `(r, s)` on the message hash `z`.
///
/// A malformed signature and a wrong one both give `false`.
pub fn ecdsa_verify(
    z: u64,
    r: u64,
    s: u64,
    pk: Point,
    g: Point,
    n: u64,
    curve: &CurveParams,
) -> (ok: bool)
    requires
        curve.p >= 2,
    ensures
        ok == ecdsa_accepts(z as nat, r as nat, s as nat, pk@, g@, n as nat, curve@),
{
    if r == 0 || s == 0 || r >= n || s >= n {
        return false;
    }
    let w: u64 = mod_exp(s, n - 2, n);
    let u1: u64 = mul_mod_u64(z, w, n);
    let u2: u64 = mul_mod_u64(r, w, n);
    let a: Point = scalar_mul(u1, g, curve);
    let b: Point = scalar_mul(u2, pk, curve);
    match point_add(a, b, curve) {
        Point::Infinity => false,
        Point::Affine(x, _) => (x as u64) % n == r,
    }
}

} // verus!
