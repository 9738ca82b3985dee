//! The extended Euclidean algorithm, modular inverses, Euler's totient and
//! textbook RSA.

use crate::field::spec_mod_pow;
use crate::modular::{gcd, mod_exp, spec_gcd};
use crate::primes::{is_prime, lemma_fermat_little, lemma_prime_divides_product};
use vstd::arithmetic::div_mod::*;
use vstd::arithmetic::power::*;
use vstd::prelude::*;

verus! {

/// The absolute value.
pub open spec fn magnitude(x: int) -> int {
    if x < 0 {
        -x
    } else {
        x
    }
}

/// The quotient rounded toward zero.
pub open spec fn trunc_div(a: int, b: int) -> int {
    if (a >= 0) == (b > 0) {
        magnitude(a) / magnitude(b)
    } else {
        -(magnitude(a) / magnitude(b))
    }
}

/// The remainder that goes with `trunc_div`; it has the sign of `a`.
pub open spec fn trunc_rem(a: int, b: int) -> int {
    if a >= 0 {
        magnitude(a) % magnitude(b)
    } else {
        -(magnitude(a) % magnitude(b))
    }
}

/// The extended Euclidean recursion: `(g, x, y)` with `a*x + b*y == g`,
/// where `g` is a greatest common divisor of `a` and `b` up to its sign.
pub open spec fn spec_extended_gcd(a: int, b: int) -> (int, int, int)
    decreases magnitude(b),
    via spec_extended_gcd_decreases
{
    if b == 0 {
        (a, 1, 0)
    } else {
        let (g, x, y) = spec_extended_gcd(b, trunc_rem(a, b));
        (g, y, x - trunc_div(a, b) * y)
    }
}

#[via_fn]
proof fn spec_extended_gcd_decreases(a: int, b: int) {
    if b != 0 {
        lemma_mod_bound(magnitude(a), magnitude(b));
    }
}

/// The number of `j` in `1..=k` that are coprime to `n`.
pub open spec fn coprime_count(n: nat, k: nat) -> nat
    decreases k,
{
    if k == 0 {
        0
    } else {
        coprime_count(n, (k - 1) as nat) + if spec_gcd(k, n) == 1 { 1nat } else { 0nat }
    }
}

/// Euler's totient: how many of `1..=n` are coprime to `n`.
pub open spec fn spec_totient(n: nat) -> nat {
    coprime_count(n, n)
}

/// Truncated division splits `a` into a multiple of `b` and a remainder of
/// smaller magnitude, and the magnitudes add up.
pub proof fn lemma_trunc_div_rem(a: int, b: int)
    requires
        b != 0,
    ensures
        a == trunc_div(a, b) * b + trunc_rem(a, b),
        magnitude(trunc_rem(a, b)) == magnitude(a) % magnitude(b),
        magnitude(trunc_rem(a, b)) < magnitude(b),
        magnitude(a) == magnitude(trunc_div(a, b)) * magnitude(b) + magnitude(trunc_rem(a, b)),
        magnitude(trunc_div(a, b)) == magnitude(a) / magnitude(b),
{
    let ua = magnitude(a);
    let ub = magnitude(b);
    let uq = ua / ub;
    let ur = ua % ub;
    lemma_fundamental_div_mod(ua, ub);
    lemma_mod_bound(ua, ub);
    lemma_div_pos_is_pos(ua, ub);
    assert(ub * uq == uq * ub) by (nonlinear_arith);
    assert((-uq) * b == -(uq * b) && uq * (-ub) == -(uq * ub) && (-uq) * (-ub) == uq * ub)
        by (nonlinear_arith)
        requires
            b == ub || b == -ub,
    ;
}

/// What the extended Euclidean recursion returns: a Bezout identity, the
/// greatest common divisor up to sign, and coefficients no larger than the
/// arguments.
pub proof fn lemma_extended_gcd(a: int, b: int)
    ensures
        ({
            let (g, x, y) = spec_extended_gcd(a, b);
            &&& a * x + b * y == g
            &&& magnitude(g) == spec_gcd(magnitude(a) as nat, magnitude(b) as nat)
            &&& magnitude(g) <= magnitude(a) || magnitude(g) <= magnitude(b)
            &&& b == 0 ==> x == 1 && y == 0
            &&& b != 0 ==> magnitude(x) <= magnitude(b) && (magnitude(y) <= magnitude(a)
                || magnitude(y) <= 1)
            &&& a >= 0 && b >= 0 ==> g >= 0
        }),
    decreases magnitude(b),
{
    if b == 0 {
        assert(a * 1 + 0 * 0 == a);
    } else {
        let q = trunc_div(a, b);
        let r = trunc_rem(a, b);
        lemma_trunc_div_rem(a, b);
        lemma_extended_gcd(b, r);
        let (g, x1, y1) = spec_extended_gcd(b, r);
        let y = x1 - q * y1;
        assert(a * y1 + b * y == g) by (nonlinear_arith)
            requires
                b * x1 + r * y1 == g,
                a == q * b + r,
                y == x1 - q * y1,
        ;
        if r == 0 {
            assert(q * 0 == 0);
        } else {
            assert(magnitude(q * y1) <= magnitude(q) * magnitude(b)) by (nonlinear_arith)
                requires
                    magnitude(y1) <= magnitude(b),
            ;
        }
    }
}

/// An inverse modulo `m` below `m` is unique.
pub proof fn lemma_inverse_unique(a: int, x: int, z: int, m: int)
    requires
        m > 0,
        0 <= x < m,
        0 <= z < m,
        (a * x) % m == 1int % m,
        (a * z) % m == 1int % m,
    ensures
        x == z,
{
    // x == x*(a*z) == (x*a)*z == z modulo m
    lemma_mul_mod_noop_right(x, a * z, m);
    lemma_mul_mod_noop_right(x, 1, m);
    lemma_mul_mod_noop_left(a * x, z, m);
    lemma_mul_mod_noop_left(1, z, m);
    assert(x * (a * z) == (a * x) * z) by (nonlinear_arith);
    assert(x * 1 == x && 1 * z == z);
    lemma_small_mod(x as nat, m as nat);
    lemma_small_mod(z as nat, m as nat);
}

/// Modulo a prime `p` a power of `m` whose exponent is 1 more than a multiple
/// of `p - 1` is `m`.
pub proof fn lemma_fermat_power(m: int, p: int, t: nat)
    requires
        is_prime(p),
    ensures
        pow(m, 1 + t * ((p - 1) as nat)) % p == m % p,
{
    let r = (p - 1) as nat;
    let rest = pow(m, t * r);
    lemma_pow_adds(m, 1, t * r);
    lemma_pow1(m);
    if m % p == 0 {
        lemma_mul_mod_noop_left(m, rest, p);
        assert(0 * rest == 0);
    } else {
        lemma_fermat_little(m, p);
        assert(t * r == r * t) by (nonlinear_arith);
        lemma_pow_multiplies(m, r, t);
        lemma_pow_mod_noop(pow(m, r), t, p);
        lemma1_pow(t);
        lemma_small_mod(1, p as nat);
        lemma_mul_mod_noop_right(m, rest, p);
        assert(m * 1 == m);
    }
}

/// A number that two different primes divide is divided by their product.
pub proof fn lemma_two_primes_divide(x: int, p: int, q: int)
    requires
        is_prime(p),
        is_prime(q),
        p != q,
        x % p == 0,
        x % q == 0,
    ensures
        x % (p * q) == 0,
{
    let y = x / p;
    lemma_fundamental_div_mod(x, p);
    assert(p % q != 0) by {
        if q > p {
            lemma_small_mod(p as nat, q as nat);
        }
    }
    lemma_prime_divides_product(p, y, q);
    let z = y / q;
    lemma_fundamental_div_mod(y, q);
    assert(p * q > 0) by (nonlinear_arith)
        requires
            p >= 2,
            q >= 2,
    ;
    assert(x == z * (p * q)) by (nonlinear_arith)
        requires
            x == p * y,
            y == q * z,
    ;
    lemma_mod_multiples_basic(z, p * q);
}

/// RSA decryption undoes encryption: for two different primes `p` and `q`
/// and exponents with `e * d == 1` modulo `(p-1)*(q-1)`, raising to the
/// power `e` and then to the power `d` modulo `p*q` gives the message back.
pub proof fn lemma_rsa_roundtrip(m: int, e: nat, d: nat, p: int, q: int)
    requires
        is_prime(p),
        is_prime(q),
        p != q,
        ((e * d) as int) % ((p - 1) * (q - 1)) == 1,
    ensures
        spec_mod_pow(spec_mod_pow(m, e, p * q), d, p * q) == m % (p * q),
{
    let n = p * q;
    let phi = (p - 1) * (q - 1);
    let big_e: nat = e * d;
    let k = (big_e as int) / phi;
    assert(n > 1 && phi > 0) by (nonlinear_arith)
        requires
            n == p * q,
            phi == (p - 1) * (q - 1),
            p >= 2,
            q >= 2,
    ;
    lemma_fundamental_div_mod(big_e as int, phi);
    lemma_div_pos_is_pos(big_e as int, phi);
    // what is computed is m^(e*d) modulo n
    let x = pow(m, big_e);
    assert(spec_mod_pow(spec_mod_pow(m, e, n), d, n) == x % n) by {
        lemma_pow_mod_noop(m, e, n);
        lemma_pow_mod_noop(pow(m, e), d, n);
        lemma_pow_mod_noop(pow(m, e) % n, d, n);
        lemma_mod_twice(pow(m, e), n);
        lemma_pow_multiplies(m, e, d);
        lemma_pow0(m);
        lemma_pow0(pow(m, e));
        lemma_pow0(m % n);
        lemma_small_mod(1, n as nat);
        if d == 0 || e == 0 {
            assert(big_e == 0) by (nonlinear_arith)
                requires
                    big_e == e * d,
                    d == 0 || e == 0,
            ;
        }
    }
    // it is m modulo p and modulo q
    let tp = (k * (q - 1)) as nat;
    let tq = (k * (p - 1)) as nat;
    assert(k * (q - 1) >= 0 && k * (p - 1) >= 0) by (nonlinear_arith)
        requires
            k >= 0,
            p >= 2,
            q >= 2,
    ;
    assert(big_e == 1 + tp * ((p - 1) as nat) && big_e == 1 + tq * ((q - 1) as nat))
        by (nonlinear_arith)
        requires
            big_e == phi * k + 1,
            phi == (p - 1) * (q - 1),
            tp == k * (q - 1),
            tq == k * (p - 1),
            p >= 2,
            q >= 2,
    ;
    lemma_fermat_power(m, p, tp);
    lemma_fermat_power(m, q, tq);
    lemma_mod_equivalence(x, m, p);
    lemma_mod_equivalence(x, m, q);
    lemma_two_primes_divide(x - m, p, q);
    lemma_mod_equivalence(x, m, n);
}

/// Quotient and remainder of the division that rounds toward zero.
fn trunc_div_rem(a: i128, b: i128) -> (qr: (i128, i128))
    requires
        b != 0,
        -0x1_0000_0000_0000_0000 < a < 0x1_0000_0000_0000_0000,
        -0x1_0000_0000_0000_0000 < b < 0x1_0000_0000_0000_0000,
    ensures
        qr.0 == trunc_div(a as int, b as int),
        qr.1 == trunc_rem(a as int, b as int),
{
    let ua: u128 = if a < 0 { (-a) as u128 } else { a as u128 };
    let ub: u128 = if b < 0 { (-b) as u128 } else { b as u128 };
    let uq: u128 = ua / ub;
    let ur: u128 = ua % ub;
    proof {
        lemma_div_is_ordered_by_denominator(ua as int, 1, ub as int);
        lemma_div_basics_3(ua as int);
        lemma_mod_bound(ua as int, ub as int);
    }
    let q: i128 = if (a >= 0) == (b > 0) { uq as i128 } else { -(uq as i128) };
    let r: i128 = if a >= 0 { ur as i128 } else { -(ur as i128) };
    (q, r)
}

/// The extended Euclidean algorithm on numbers of up to 64 bits and a sign.
fn extended_gcd_wide(a: i128, b: i128) -> (r: (i128, i128, i128))
    requires
        -0x1_0000_0000_0000_0000 < a < 0x1_0000_0000_0000_0000,
        -0x1_0000_0000_0000_0000 < b < 0x1_0000_0000_0000_0000,
    ensures
        (r.0 as int, r.1 as int, r.2 as int) == spec_extended_gcd(a as int, b as int),
    decreases magnitude(b as int),
{
    if b == 0 {
        return (a, 1, 0);
    }
    let (q, rem) = trunc_div_rem(a, b);
    proof {
        lemma_trunc_div_rem(a as int, b as int);
        lemma_extended_gcd(b as int, rem as int);
    }
    let (g, x1, y1) = extended_gcd_wide(b, rem);
    proof {
        assert(magnitude(q as int * y1 as int) <= magnitude(q as int) * magnitude(b as int))
            by (nonlinear_arith)
            requires
                magnitude(y1 as int) <= magnitude(b as int),
        ;
    }
    (g, y1, x1 - q * y1)
}

/// The extended Euclidean algorithm: `(g, x, y)` with `a*x + b*y == g`.
///
/// `g` is the greatest common divisor of `a` and `b`, with the sign that the
/// recursion on truncated remainders leaves it.  The least `i64` has no
/// absolute value and is not accepted.
pub fn extended_gcd(a: i64, b: i64) -> (r: (i64, i64, i64))
    requires
        a > i64::MIN,
        b > i64::MIN,
    ensures
        (r.0 as int, r.1 as int, r.2 as int) == spec_extended_gcd(a as int, b as int),
        a as int * r.1 as int + b as int * r.2 as int == r.0 as int,
        magnitude(r.0 as int) == spec_gcd(magnitude(a as int) as nat, magnitude(b as int) as nat),
{
    proof {
        lemma_extended_gcd(a as int, b as int);
    }
    let (g, x, y) = extended_gcd_wide(a as i128, b as i128);
    (g as i64, x as i64, y as i64)
}

/// The inverse of `a` modulo `m`, if there is one.
///
/// There is one exactly when `a` and `m` are coprime; it is the only `x`
/// below `m` with `a*x == 1` modulo `m`.
pub fn mod_inverse(a: u64, m: u64) -> (r: Option<u64>)
    requires
        m > 0,
    ensures
        r is Some <==> spec_gcd(a as nat, m as nat) == 1,
        r matches Some(x) ==> x < m && (a as int * x as int) % (m as int) == 1int % (m as int),
{
    proof {
        lemma_extended_gcd(a as int, m as int);
    }
    let (g, x, y) = extended_gcd_wide(a as i128, m as i128);
    if g != 1 {
        return None;
    }
    let mm: i128 = m as i128;
    let inv: i128 = (x + mm) % mm;
    proof {
        let ai = a as int;
        let mi = m as int;
        let xi = x as int;
        lemma_mod_add_multiples_vanish(xi, mi);
        assert(inv == xi % mi);
        assert(ai * xi == 1 + (-(y as int)) * mi) by (nonlinear_arith)
            requires
                ai * xi + mi * (y as int) == 1,
        ;
        lemma_mod_multiples_vanish(-(y as int), 1, mi);
        lemma_mul_mod_noop_right(ai, xi, mi);
    }
    Some(inv as u64)
}

/// Euler's totient, by counting the numbers up to `n` that are coprime to it.
pub fn euler_totient(n: u64) -> (r: u64)
    ensures
        r == spec_totient(n as nat),
{
    let mut count: u64 = 0;
    let mut k: u64 = 0;
    while k < n
        invariant
            k <= n,
            count <= k,
            count == coprime_count(n as nat, k as nat),
        decreases n - k,
    {
        k = k + 1;
        if gcd(k, n) == 1 {
            count = count + 1;
        }
    }
    count
}

/// The RSA key `(n, e, d)` for the primes `p` and `q`: the modulus `p*q`,
/// the public exponent 65537 and its inverse modulo `(p-1)*(q-1)`.
///
/// The public exponent must be coprime to `(p-1)*(q-1)`, and the modulus
/// must fit in 64 bits.
pub fn rsa_keygen(p: u64, q: u64) -> (r: (u64, u64, u64))
    requires
        p >= 1,
        q >= 1,
        p * q <= u64::MAX,
        spec_gcd(65537, ((p - 1) * (q - 1)) as nat) == 1,
    ensures
        r.0 == p * q,
        r.1 == 65537,
        r.2 < (p - 1) * (q - 1),
        (65537 * r.2) % ((p - 1) * (q - 1)) == 1int % ((p - 1) * (q - 1)),
{
    assert(0 <= (p - 1) * (q - 1) <= p * q) by (nonlinear_arith)
        requires
            p >= 1,
            q >= 1,
    ;
    let n: u64 = p * q;
    let phi: u64 = (p - 1) * (q - 1);
    let e: u64 = 65537;
    match mod_inverse(e, phi) {
        Some(d) => (n, e, d),
        None => vstd::pervasive::unreached(),
    }
}

/// RSA encryption and decryption alike: `msg^key mod n`.
pub fn rsa_encrypt_decrypt(msg: u64, key: u64, n: u64) -> (r: u64)
    requires
        n > 0,
    ensures
        r == spec_mod_pow(msg as int, key as nat, n as int),
{
    mod_exp(msg, key, n)
}

} // verus!
