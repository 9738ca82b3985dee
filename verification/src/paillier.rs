//! The Paillier cryptosystem: encryption that is additive on plaintexts.
//!
//! A ciphertext lives modulo `n^2`, which may fill 128 bits, so products are
//! formed by doubling and adding instead of in a wider type.

use crate::field::{lemma_square_multiply_step, spec_mod_pow};
use crate::modular::{gcd, lemma_gcd_is_greatest, spec_gcd};
use crate::number_theory::mod_inverse;
use vstd::arithmetic::div_mod::*;
use vstd::arithmetic::power::*;
use vstd::prelude::*;

verus! {

/// A public key: the modulus `n`, the base `g` and `n^2`.
#[derive(Debug, Clone)]
pub struct PaillierPk {
    pub n: u128,
    pub g: u128,
    pub n_sq: u128,
}

/// A secret key: `lambda` and `mu`, with the modulus `n` and `n^2`.
#[derive(Debug, Clone)]
pub struct PaillierSk {
    pub lambda: u128,
    pub mu: u128,
    pub n: u128,
    pub n_sq: u128,
}

/// The least common multiple; 0 if one of the numbers is 0.
pub open spec fn spec_lcm(a: nat, b: nat) -> nat {
    if a == 0 || b == 0 {
        0
    } else {
        (a * b) / spec_gcd(a, b)
    }
}

/// The function `L(x) = (x - 1) / n` of the Paillier scheme.
pub open spec fn paillier_l(x: int, n: int) -> int {
    (x - 1) / n
}

/// The value that `mu` inverts modulo `n`: `L(g^lambda mod n^2)` for the
/// base `g = n + 1`.
pub open spec fn mu_inverse(n: int, lambda: nat) -> int {
    paillier_l(spec_mod_pow(n + 1, lambda, n * n), n)
}

/// The ciphertext of `m` with the random unit `r`: `g^m * r^n mod n^2`.
pub open spec fn spec_paillier_encrypt(pk: PaillierPk, m: nat, r: int) -> int {
    (pow(pk.g as int, m) * pow(r, pk.n as nat)) % (pk.n_sq as int)
}

/// The plaintext of `c`: `L(c^lambda mod n^2) * mu mod n`.
pub open spec fn spec_paillier_decrypt(sk: PaillierSk, c: int) -> int {
    (paillier_l(spec_mod_pow(c, sk.lambda as nat, sk.n_sq as int), sk.n as int) * sk.mu) % (
    sk.n as int)
}

/// Modulo `n^2` the power `(1 + n)^k` is `1 + k*n`.
pub proof fn lemma_power_of_one_plus_n(n: int, k: nat)
    requires
        n >= 1,
    ensures
        pow(1 + n, k) % (n * n) == (1 + k * n) % (n * n),
    decreases k,
{
    let sq = n * n;
    assert(sq >= 1) by (nonlinear_arith)
        requires
            sq == n * n,
            n >= 1,
    ;
    if k == 0 {
        lemma_pow0(1 + n);
        assert(0 * n == 0);
    } else {
        let j = (k - 1) as nat;
        lemma_power_of_one_plus_n(n, j);
        assert(pow(1 + n, k) == (1 + n) * pow(1 + n, j)) by {
            reveal(pow);
        }
        lemma_mul_mod_noop_right(1 + n, pow(1 + n, j), sq);
        lemma_mul_mod_noop_right(1 + n, 1 + j * n, sq);
        assert((1 + n) * (1 + j * n) == (1 + k * n) + j * sq) by (nonlinear_arith)
            requires
                k == j + 1,
                sq == n * n,
        ;
        lemma_mod_multiples_vanish(j as int, 1 + k * n, sq);
    }
}

/// For the base `n + 1` the function `L` recovers the exponent modulo `n`,
/// and the power is not 0 modulo `n^2`.
pub proof fn lemma_mu_inverse(n: int, lambda: nat)
    requires
        n >= 2,
    ensures
        spec_mod_pow(n + 1, lambda, n * n) >= 1,
        mu_inverse(n, lambda) == lambda % (n as nat),
{
    let sq = n * n;
    let a = lambda as int / n;
    let b = lambda as int % n;
    assert(sq >= 4) by (nonlinear_arith)
        requires
            sq == n * n,
            n >= 2,
    ;
    lemma_power_of_one_plus_n(n, lambda);
    lemma_pow_mod_noop(n + 1, lambda, sq);
    lemma_pow0(n + 1);
    lemma_small_mod(1, sq as nat);
    lemma_fundamental_div_mod(lambda as int, n);
    lemma_mod_bound(lambda as int, n);
    assert(1 + lambda * n == sq * a + (1 + b * n)) by (nonlinear_arith)
        requires
            lambda == n * a + b,
            sq == n * n,
    ;
    assert(0 <= b * n && 1 + b * n < sq) by (nonlinear_arith)
        requires
            0 <= b < n,
            sq == n * n,
            n >= 2,
    ;
    lemma_fundamental_div_mod_converse(1 + lambda * n, sq, a, 1 + b * n);
    assert(spec_mod_pow(n + 1, lambda, sq) == 1 + b * n);
    assert(b * n == n * b + 0) by (nonlinear_arith);
    lemma_fundamental_div_mod_converse(b * n, n, b, 0);
}

/// The sum of two residues modulo `m`, without leaving 128 bits.
fn add_mod_u128(x: u128, y: u128, m: u128) -> (r: u128)
    requires
        x < m,
        y < m,
    ensures
        r == (x + y) % (m as int),
        r < m,
{
    if x >= m - y {
        proof {
            lemma_mod_sub_multiples_vanish(x as int + y as int, m as int);
            lemma_small_mod((x + y - m) as nat, m as nat);
        }
        x - (m - y)
    } else {
        proof {
            lemma_small_mod((x + y) as nat, m as nat);
        }
        x + y
    }
}

/// The product of two numbers modulo `m` by doubling and adding.
pub fn mul_mod_u128(a: u128, b: u128, m: u128) -> (r: u128)
    requires
        m > 0,
    ensures
        r == (a as int * b as int) % (m as int),
        r < m,
{
    let mut result: u128 = 0;
    let mut x: u128 = a % m;
    let mut y: u128 = b;
    proof {
        lemma_small_mod(0, m as nat);
        lemma_mul_mod_noop_left(a as int, b as int, m as int);
    }
    while y > 0
        invariant
            m > 0,
            x < m,
            result < m,
            (result as int + x as int * y as int) % (m as int) == (a as int * b as int) % (
            m as int),
        decreases y,
    {
        let ghost old_result = result as int;
        let ghost old_x = x as int;
        let ghost old_y = y as int;
        if y % 2 == 1 {
            result = add_mod_u128(result, x, m);
        }
        x = add_mod_u128(x, x, m);
        y = y / 2;
        proof {
            let mi = m as int;
            let bit: int = old_y % 2;
            assert(old_x * old_y == (old_x + old_x) * (old_y / 2) + old_x * bit)
                by (nonlinear_arith)
                requires
                    old_y == 2 * (old_y / 2) + bit,
            ;
            assert(old_x * bit == if bit == 1 { old_x } else { 0 }) by (nonlinear_arith)
                requires
                    bit == 0 || bit == 1,
            ;
            let s = old_result + old_x * bit;
            let t = (old_x + old_x) * (y as int);
            lemma_mul_mod_noop_left(old_x + old_x, y as int, mi);
            lemma_add_mod_noop(s, t, mi);
            lemma_add_mod_noop(result as int, x as int * y as int, mi);
            lemma_mod_twice(s, mi);
            lemma_small_mod(result as nat, m as nat);
        }
    }
    proof {
        assert(x as int * 0 == 0);
        lemma_small_mod(result as nat, m as nat);
    }
    result
}

/// Modular exponentiation on 128-bit words.
pub fn mod_exp_u128(base: u128, exp: u128, modulus: u128) -> (r: u128)
    requires
        modulus > 0,
    ensures
        r == spec_mod_pow(base as int, exp as nat, modulus as int),
        exp > 0 ==> r < modulus,
{
    let mut result: u128 = 1;
    let mut b: u128 = base % modulus;
    let mut e: u128 = exp;
    while e > 0
        invariant
            modulus > 0,
            e <= exp,
            b < modulus,
            exp == 0 ==> result == 1,
            exp > 0 && e == 0 ==> result < modulus,
            exp > 0 ==> (result as int * pow(b as int, e as nat)) % (modulus as int) == pow(
                (base as int) % (modulus as int),
                exp as nat,
            ) % (modulus as int),
        decreases e,
    {
        proof {
            lemma_square_multiply_step(result as int, b as int, e as nat, modulus as int);
        }
        if e % 2 == 1 {
            result = mul_mod_u128(result, b, modulus);
        }
        e = e / 2;
        b = mul_mod_u128(b, b, modulus);
    }
    proof {
        if exp > 0 {
            lemma_pow0(b as int);
            assert(result as int * 1 == result);
            lemma_small_mod(result as nat, modulus as nat);
        }
    }
    result
}

/// The least common multiple of two words whose product fits in 128 bits.
fn lcm(a: u64, b: u64) -> (r: u128)
    ensures
        r == spec_lcm(a as nat, b as nat),
{
    if a == 0 || b == 0 {
        return 0;
    }
    let g: u64 = gcd(a, b);
    let k: u64 = a / g;
    proof {
        let gi = g as int;
        let ai = a as int;
        let bi = b as int;
        lemma_fundamental_div_mod(ai, gi);
        assert(ai * bi == gi * (k * bi)) by (nonlinear_arith)
            requires
                ai == gi * k,
        ;
        assert(ai * bi == (k * bi) * gi + 0) by (nonlinear_arith)
            requires
                ai * bi == gi * (k * bi),
        ;
        lemma_fundamental_div_mod_converse(ai * bi, gi, k * bi, 0);
        assert(0 <= k * bi < 0x1_0000_0000_0000_0000_0000_0000_0000_0000) by (nonlinear_arith)
            requires
                0 <= k < 0x1_0000_0000_0000_0000,
                0 <= bi < 0x1_0000_0000_0000_0000,
        ;
    }
    (k as u128) * (b as u128)
}

/// The key pair of the primes `p` and `q`: `n = p*q`, `g = n + 1`,
/// `lambda = lcm(p-1, q-1)`, and `mu` the inverse modulo `n` of
/// `L(g^lambda mod n^2)`, which is `lambda` modulo `n`.
///
/// The modulus must fit in 64 bits, so that its square fits in 128, and
/// `lambda` must be coprime to `n`, as it is for two different primes of the
/// same length.
pub fn paillier_keygen(p: u128, q: u128) -> (r: (PaillierPk, PaillierSk))
    requires
        p >= 1,
        q >= 1,
        p * q < 0x1_0000_0000_0000_0000,
        spec_gcd(spec_lcm((p - 1) as nat, (q - 1) as nat) % ((p * q) as nat), (p * q) as nat) == 1,
    ensures
        r.0.n == p * q,
        r.0.g == p * q + 1,
        r.0.n_sq == (p * q) * (p * q),
        r.1.n == r.0.n,
        r.1.n_sq == r.0.n_sq,
        r.1.lambda == spec_lcm((p - 1) as nat, (q - 1) as nat),
        r.1.mu < r.0.n,
        (r.1.mu * mu_inverse(r.0.n as int, r.1.lambda as nat)) % (r.0.n as int) == 1int % (
        r.0.n as int),
        (r.1.mu * r.1.lambda) % (r.0.n as int) == 1int % (r.0.n as int),
{
    assert(p < 0x1_0000_0000_0000_0000 && q < 0x1_0000_0000_0000_0000) by (nonlinear_arith)
        requires
            p >= 1,
            q >= 1,
            p * q < 0x1_0000_0000_0000_0000,
    ;
    let n: u128 = p * q;
    assert(n * n < 0x1_0000_0000_0000_0000_0000_0000_0000_0000) by (nonlinear_arith)
        requires
            0 <= n < 0x1_0000_0000_0000_0000,
    ;
    assert(n >= 1) by (nonlinear_arith)
        requires
            n == p * q,
            p >= 1,
            q >= 1,
    ;
    let n_sq: u128 = n * n;
    assert(n_sq >= 1) by (nonlinear_arith)
        requires
            n_sq == n * n,
            n >= 1,
    ;
    let g: u128 = n + 1;
    let lambda: u128 = lcm((p - 1) as u64, (q - 1) as u64);
    if n == 1 {
        // the ring of residues has one element
        return (PaillierPk { n, g, n_sq }, PaillierSk { lambda, mu: 0, n, n_sq });
    }
    proof {
        lemma_mu_inverse(n as int, lambda as nat);
    }
    let x: u128 = mod_exp_u128(g, lambda, n_sq);
    let l: u128 = (x - 1) / n;
    match mod_inverse(l as u64, n as u64) {
        Some(mu) => {
            proof {
                let ni = n as int;
                assert(l as int * mu as int == mu as int * l as int) by (nonlinear_arith);
                lemma_mul_mod_noop_right(mu as int, lambda as int, ni);
            }
            (PaillierPk { n, g, n_sq }, PaillierSk { lambda, mu: mu as u128, n, n_sq })
        },
        None => vstd::pervasive::unreached(),
    }
}

/// Encrypts the plaintext `m` with the random unit `r`:
/// `g^m * r^n mod n^2`.
pub fn paillier_encrypt(pk: &PaillierPk, m: u128, r: u128) -> (c: u128)
    requires
        pk.n_sq > 0,
    ensures
        c == spec_paillier_encrypt(*pk, m as nat, r as int),
{
    let gm: u128 = mod_exp_u128(pk.g, m, pk.n_sq);
    let rn: u128 = mod_exp_u128(r, pk.n, pk.n_sq);
    proof {
        let md = pk.n_sq as int;
        lemma_pow_mod_noop(pk.g as int, m as nat, md);
        lemma_pow_mod_noop(r as int, pk.n as nat, md);
        lemma_pow0(pk.g as int);
        lemma_pow0(r as int);
        lemma_mul_mod_noop_general(pow(pk.g as int, m as nat), pow(r as int, pk.n as nat), md);
        lemma_mul_mod_noop_general(gm as int, rn as int, md);
        lemma_mod_twice(pow(pk.g as int, m as nat), md);
        lemma_mod_twice(pow(r as int, pk.n as nat), md);
    }
    mul_mod_u128(gm, rn, pk.n_sq)
}

/// Adds two plaintexts under encryption: the product of the ciphertexts
/// modulo `n^2`.
pub fn paillier_add(pk: &PaillierPk, c1: u128, c2: u128) -> (c: u128)
    requires
        pk.n_sq > 0,
    ensures
        c == (c1 as int * c2 as int) % (pk.n_sq as int),
{
    mul_mod_u128(c1, c2, pk.n_sq)
}

/// Decrypts a ciphertext: `L(c^lambda mod n^2) * mu mod n`.
///
/// `c^lambda mod n^2` must not be 0, as it is not for a ciphertext that
/// `paillier_encrypt` made with a unit `r`.
pub fn paillier_decrypt(sk: &PaillierSk, c: u128) -> (m: u128)
    requires
        sk.n > 0,
        sk.n_sq > 0,
        spec_mod_pow(c as int, sk.lambda as nat, sk.n_sq as int) >= 1,
    ensures
        m == spec_paillier_decrypt(*sk, c as int),
{
    let x: u128 = mod_exp_u128(c, sk.lambda, sk.n_sq);
    let l: u128 = (x - 1) / sk.n;
    mul_mod_u128(l, sk.mu, sk.n)
}

/// Multiplies a plaintext by a constant under encryption: the power
/// `c^scalar mod n^2`.
pub fn paillier_scalar_mul(pk: &PaillierPk, c: u128, scalar: u128) -> (r: u128)
    requires
        pk.n_sq > 0,
    ensures
        r == spec_mod_pow(c as int, scalar as nat, pk.n_sq as int),
{
    mod_exp_u128(c, scalar, pk.n_sq)
}

} // verus!
