//! Residues modulo a positive integer held in machine words.

use crate::primes::{is_prime, lemma_mod_inv_inverts};
use vstd::arithmetic::div_mod::*;
use vstd::arithmetic::power::*;
use vstd::prelude::*;

verus! {

/// `base^exp mod modulus`, the base taken by its residue.
///
/// With exponent 0 the value is 1 whatever the modulus, also for modulus 1,
/// where every other power is 0.
pub open spec fn spec_mod_pow(base: int, exp: nat, modulus: int) -> int {
    if exp == 0 {
        1
    } else {
        pow(base % modulus, exp) % modulus
    }
}

/// The inverse of `a` modulo a prime `p` as Fermat's little theorem gives it:
/// `a^(p-2) mod p`.
pub open spec fn spec_mod_inv(a: int, p: int) -> int {
    spec_mod_pow(a, (p - 2) as nat, p)
}

/// One round of square-and-multiply keeps `acc * b^e` unchanged modulo `m`.
pub proof fn lemma_square_multiply_step(acc: int, b: int, e: nat, m: int)
    requires
        m > 0,
        e > 0,
    ensures
        ({
            let acc2 = if e % 2 == 1 { (acc * b) % m } else { acc };
            let b2 = (b * b) % m;
            (acc2 * pow(b2, e / 2)) % m == (acc * pow(b, e)) % m
        }),
{
    let k: nat = e / 2;
    let b2 = (b * b) % m;
    let sq = pow(b * b, k);
    assert(pow(b, 2 * k) == sq) by {
        lemma_square_is_pow2(b);
        lemma_pow_multiplies(b, 2, k);
    }
    assert(pow(b2, k) % m == sq % m) by {
        lemma_pow_mod_noop(b * b, k, m);
    }
    if e % 2 == 1 {
        assert(pow(b, e) == b * sq) by {
            assert(e == 1 + 2 * k);
            lemma_pow_adds(b, 1, 2 * k);
            lemma_pow1(b);
        }
        let x = acc * b;
        assert(((x % m) * pow(b2, k)) % m == (x * sq) % m) by {
            lemma_mul_mod_noop_general(x % m, pow(b2, k), m);
            lemma_mul_mod_noop_general(x, sq, m);
            lemma_mod_twice(x, m);
        }
        assert(x * sq == acc * (b * sq)) by (nonlinear_arith)
            requires
                x == acc * b,
        ;
    } else {
        assert(e == 2 * k);
        assert((acc * pow(b2, k)) % m == (acc * sq) % m) by {
            lemma_mul_mod_noop_general(acc, pow(b2, k), m);
            lemma_mul_mod_noop_general(acc, sq, m);
        }
    }
}

/// The residue of `x` modulo `m`, in `[0, m)`.
pub fn reduce(x: i64, m: i64) -> (r: i64)
    requires
        m > 0,
    ensures
        r == (x as int) % (m as int),
        0 <= r < m,
{
    if x >= 0 {
        x % m
    } else {
        // -x may not fit in an i64, so the negation is taken in a wider type.
        let neg: i128 = -(x as i128);
        let r: i128 = neg % (m as i128);
        proof {
            let q: int = neg as int / m as int;
            lemma_fundamental_div_mod(neg as int, m as int);
            assert((-q) * m == -(m * q) && (-q - 1) * m == -(m * q) - m) by (nonlinear_arith);
            if r == 0 {
                lemma_fundamental_div_mod_converse(x as int, m as int, -q, 0);
            } else {
                lemma_fundamental_div_mod_converse(x as int, m as int, -q - 1, m as int - r as int);
            }
        }
        if r == 0 {
            0
        } else {
            (m as i128 - r) as i64
        }
    }
}

/// The product of two non-negative numbers, reduced modulo `m`.
///
/// The product is formed in 128 bits, so it cannot overflow.
pub fn mul_mod(a: i64, b: i64, m: i64) -> (r: i64)
    requires
        m > 0,
        0 <= a,
        0 <= b,
    ensures
        r == (a as int * b as int) % (m as int),
        0 <= r < m,
{
    assert(0 <= (a as int) * (b as int) < 0x4000_0000_0000_0000_0000_0000_0000_0000)
        by (nonlinear_arith)
        requires
            0 <= a < 0x8000_0000_0000_0000,
            0 <= b < 0x8000_0000_0000_0000,
    ;
    let wide: i128 = (a as i128) * (b as i128);
    (wide % (m as i128)) as i64
}

/// The sum of two residues, reduced again.
pub fn add_mod(a: i64, b: i64, m: i64) -> (r: i64)
    requires
        m > 0,
        0 <= a < m,
        0 <= b < m,
    ensures
        r == (a as int + b as int) % (m as int),
        0 <= r < m,
{
    let wide: i128 = (a as i128) + (b as i128);
    (wide % (m as i128)) as i64
}

/// The difference of two residues, reduced again.
pub fn sub_mod(a: i64, b: i64, m: i64) -> (r: i64)
    requires
        m > 0,
        0 <= a < m,
        0 <= b < m,
    ensures
        r == (a as int - b as int) % (m as int),
        0 <= r < m,
{
    let wide: i128 = (a as i128) - (b as i128) + (m as i128);
    proof {
        lemma_mod_add_multiples_vanish(a as int - b as int, m as int);
    }
    (wide % (m as i128)) as i64
}

/// Subtracting a residue from a reduced number gives what subtracting it
/// from the number itself gives.
pub proof fn lemma_sub_reduced(u: int, y: int, m: int)
    requires
        m > 0,
        0 <= y < m,
    ensures
        ((u % m) - y) % m == (u - y) % m,
{
    lemma_small_mod(y as nat, m as nat);
    lemma_sub_mod_noop(u, y, m);
}

/// Modular exponentiation by square-and-multiply.
///
/// The base may be any integer, negative too; it is reduced first.  Every
/// product is formed in a type twice as wide as the operands.
pub fn mod_pow(base: i64, exp: u64, modulus: i64) -> (r: i64)
    requires
        modulus > 0,
    ensures
        r == spec_mod_pow(base as int, exp as nat, modulus as int),
        exp > 0 ==> 0 <= r < modulus,
{
    let mut result: i64 = 1;
    let mut b: i64 = reduce(base, modulus);
    let mut e: u64 = exp;
    while e > 0
        invariant
            modulus > 0,
            e <= exp,
            0 <= b < modulus,
            result == 1 || 0 <= result < modulus,
            exp == 0 ==> result == 1,
            exp > 0 && e == 0 ==> 0 <= result < modulus,
            exp > 0 ==> (result as int * pow(b as int, e as nat)) % (modulus as int) == pow(
                (base as int) % (modulus as int),
                exp as nat,
            ) % (modulus as int),
        decreases e,
    {
        proof {
            lemma_square_multiply_step(result as int, b as int, e as nat, modulus as int);
        }
        if e % 2 == 1 {
            result = mul_mod(result, b, modulus);
        }
        e = e / 2;
        b = mul_mod(b, b, modulus);
    }
    proof {
        if exp > 0 {
            lemma_pow0(b as int);
            assert(result as int * 1 == result);
            lemma_small_mod(result as nat, modulus as nat);
        }
    }
    result
}

/// The modular inverse by Fermat's little theorem: `a^(p-2) mod p`.
///
/// The result is the inverse of `a` where `p` is prime and does not divide
/// `a`.  For other arguments it is still this power, but no inverse; for a
/// multiple of an odd prime it is 0.
pub fn mod_inv(a: i64, p: i64) -> (r: i64)
    requires
        p >= 2,
    ensures
        r == spec_mod_inv(a as int, p as int),
        0 <= r < p,
        is_prime(p as int) && a as int % (p as int) != 0 ==> (a as int * r as int) % (p as int)
            == 1,
{
    proof {
        lemma_mod_twice(a as int, p as int);
        if is_prime(p as int) && a as int % (p as int) != 0 {
            lemma_mod_inv_inverts(a as int, p as int);
        }
    }
    mod_pow(reduce(a, p), (p - 2) as u64, p)
}

} // verus!
