//! Pedersen commitments and the Schnorr proof of knowledge of a discrete
//! logarithm, in the units modulo a prime `p`.

use crate::field::spec_mod_pow;
use crate::modular::{mod_exp, mul_mod_u64};
use crate::primes::{is_prime, lemma_fermat_little};
use vstd::arithmetic::div_mod::*;
use vstd::arithmetic::power::*;
use vstd::prelude::*;

verus! {

/// The Pedersen commitment to `m` with the blinding factor `r`:
/// `g^m * h^r mod p`.
pub open spec fn spec_pedersen(g: int, h: int, m: nat, r: nat, p: int) -> int {
    (pow(g, m) * pow(h, r)) % p
}

/// The response of the Schnorr prover: `k - x * challenge` modulo `p - 1`.
pub open spec fn spec_schnorr_response(x: int, k: int, challenge: int, p: int) -> int {
    (k - x * challenge) % (p - 1)
}

/// What the Schnorr verifier checks: `g^response * pk^challenge` is the
/// commitment modulo `p`.
pub open spec fn schnorr_accepts(
    g: int,
    pk: int,
    commitment: int,
    challenge: nat,
    response: nat,
    p: int,
) -> bool {
    (pow(g, response) * pow(pk, challenge)) % p == commitment % p
}

/// The start value of the 64-bit FNV-1a hash.
pub const FNV_OFFSET: u64 = 0xcbf2_9ce4_8422_2325;

/// The multiplier of the 64-bit FNV-1a hash.
pub const FNV_PRIME: u64 = 0x0000_0100_0000_01b3;

/// One round of FNV-1a: the byte is mixed into the low bits, then the state
/// is multiplied by the FNV prime modulo `2^64`.
pub open spec fn fnv_step(h: u64, byte: u8) -> u64 {
    (((h ^ (byte as u64)) as int * FNV_PRIME as int) % 0x1_0000_0000_0000_0000) as u64
}

/// The FNV-1a state after the bytes, from the state `h`.
pub open spec fn fnv_fold(h: u64, bytes: Seq<u8>) -> u64
    decreases bytes.len(),
{
    if bytes.len() == 0 {
        h
    } else {
        fnv_step(fnv_fold(h, bytes.drop_last()), bytes.last())
    }
}

/// The eight bytes of a word, the lowest first.
pub open spec fn word_bytes(x: u64) -> Seq<u8> {
    Seq::new(8, |i: int| ((x >> ((8 * i) as u64)) & 0xff) as u8)
}

/// The transcript of a Schnorr proof: the base, the public key and the
/// commitment as words, then the message.
pub open spec fn transcript(g: u64, pk: u64, commitment: u64, message: Seq<u8>) -> Seq<u8> {
    word_bytes(g) + word_bytes(pk) + word_bytes(commitment) + message
}

/// The challenge of the Fiat-Shamir transform: the FNV-1a hash of the
/// transcript.
pub open spec fn spec_fiat_shamir(g: u64, pk: u64, commitment: u64, message: Seq<u8>) -> u64 {
    fnv_fold(FNV_OFFSET, transcript(g, pk, commitment, message))
}

/// Hashing two texts one after the other is hashing the joined text.
pub proof fn lemma_fnv_fold_concat(h: u64, a: Seq<u8>, b: Seq<u8>)
    ensures
        fnv_fold(h, a + b) == fnv_fold(fnv_fold(h, a), b),
    decreases b.len(),
{
    if b.len() == 0 {
        assert(a + b =~= a);
    } else {
        lemma_fnv_fold_concat(h, a, b.drop_last());
        assert((a + b).drop_last() =~= a + b.drop_last());
    }
}

/// The product of two modular powers is the product of the powers, reduced.
pub proof fn lemma_mod_pow_product(g: int, e: nat, h: int, f: nat, p: int)
    requires
        p > 0,
    ensures
        (spec_mod_pow(g, e, p) * spec_mod_pow(h, f, p)) % p == (pow(g, e) * pow(h, f)) % p,
{
    lemma_pow_mod_noop(g, e, p);
    lemma_pow_mod_noop(h, f, p);
    lemma_pow0(g);
    lemma_pow0(h);
    lemma_mul_mod_noop_general(pow(g, e), pow(h, f), p);
    lemma_mul_mod_noop_general(spec_mod_pow(g, e, p), spec_mod_pow(h, f, p), p);
    lemma_mod_twice(pow(g, e), p);
    lemma_mod_twice(pow(h, f), p);
}

/// Commitments multiply as the committed values and the blinding factors
/// add.
pub proof fn lemma_pedersen_homomorphic(g: int, h: int, m1: nat, r1: nat, m2: nat, r2: nat, p: int)
    requires
        p > 0,
    ensures
        (spec_pedersen(g, h, m1, r1, p) * spec_pedersen(g, h, m2, r2, p)) % p == spec_pedersen(
            g,
            h,
            m1 + m2,
            r1 + r2,
            p,
        ),
{
    let a1 = pow(g, m1);
    let b1 = pow(h, r1);
    let a2 = pow(g, m2);
    let b2 = pow(h, r2);
    lemma_pow_adds(g, m1, m2);
    lemma_pow_adds(h, r1, r2);
    lemma_mul_mod_noop_general(a1 * b1, a2 * b2, p);
    assert((a1 * b1) * (a2 * b2) == (a1 * a2) * (b1 * b2)) by (nonlinear_arith);
}

/// A power of `g` whose exponent is moved by a multiple of `p - 1` stays the
/// same modulo the prime `p`.
proof fn lemma_pow_exponent_shift(g: int, e: nat, t: nat, p: int)
    requires
        is_prime(p),
        g % p != 0,
    ensures
        pow(g, e + t * ((p - 1) as nat)) % p == pow(g, e) % p,
{
    let m = (p - 1) as nat;
    lemma_fermat_little(g, p);
    lemma_pow_adds(g, e, t * m);
    assert(t * m == m * t) by (nonlinear_arith);
    lemma_pow_multiplies(g, m, t);
    lemma_pow_mod_noop(pow(g, m), t, p);
    lemma1_pow(t);
    lemma_small_mod(1, p as nat);
    lemma_mul_mod_noop_right(pow(g, e), pow(g, t * m), p);
    assert(pow(g, e) * 1 == pow(g, e));
}

/// An honest Schnorr proof is accepted: with the public key `g^x` and the
/// commitment `g^k`, the response `k - x*c mod (p-1)` satisfies the equation
/// of the verifier.
pub proof fn lemma_schnorr_complete(g: int, x: nat, k: nat, c: nat, p: int)
    requires
        is_prime(p),
        g % p != 0,
    ensures
        spec_schnorr_response(x as int, k as int, c as int, p) >= 0,
        schnorr_accepts(
            g,
            pow(g, x) % p,
            pow(g, k) % p,
            c,
            spec_schnorr_response(x as int, k as int, c as int, p) as nat,
            p,
        ),
{
    let m = p - 1;
    let resp = spec_schnorr_response(x as int, k as int, c as int, p);
    let xc: nat = x * c;
    lemma_mod_bound(k - x * c, m);
    lemma_fundamental_div_mod(k - x * c, m);
    let q = (k - x * c) / m;
    // resp + x*c == k - q*m
    assert(resp + xc == k - m * q);
    // pk^c == g^(x*c) modulo p
    lemma_pow_mod_noop(pow(g, x), c, p);
    lemma_mod_twice(pow(g, x), p);
    lemma_pow_multiplies(g, x, c);
    lemma_pow_adds(g, resp as nat, xc);
    lemma_mul_mod_noop_right(pow(g, resp as nat), pow(pow(g, x) % p, c), p);
    lemma_mul_mod_noop_right(pow(g, resp as nat), pow(g, xc), p);
    assert((pow(g, resp as nat) * pow(pow(g, x) % p, c)) % p == pow(g, (resp + xc) as nat) % p);
    if q <= 0 {
        let t = (-q) as nat;
        assert(resp + xc == k + t * (m as nat)) by (nonlinear_arith)
            requires
                resp + xc == k - m * q,
                t == -q,
                m >= 0,
        ;
        lemma_pow_exponent_shift(g, k, t, p);
    } else {
        let t = q as nat;
        assert(k == (resp + xc) + t * (m as nat)) by (nonlinear_arith)
            requires
                resp + xc == k - m * q,
                t == q,
                m >= 0,
        ;
        lemma_pow_exponent_shift(g, (resp + xc) as nat, t, p);
    }
    lemma_mod_twice(pow(g, k), p);
}

/// Commits to `m` with the blinding factor `r`: `g^m * h^r mod p`.
pub fn pedersen_commit(g: u64, h: u64, m: u64, r: u64, p: u64) -> (c: u64)
    requires
        p > 0,
    ensures
        c == spec_pedersen(g as int, h as int, m as nat, r as nat, p as int),
{
    proof {
        lemma_mod_pow_product(g as int, m as nat, h as int, r as nat, p as int);
    }
    mul_mod_u64(mod_exp(g, m, p), mod_exp(h, r, p), p)
}

/// Checks the opening `(m, r)` of a commitment.
pub fn pedersen_verify(g: u64, h: u64, m: u64, r: u64, commitment: u64, p: u64) -> (ok: bool)
    requires
        p > 0,
    ensures
        ok == (commitment == spec_pedersen(g as int, h as int, m as nat, r as nat, p as int)),
{
    commitment == pedersen_commit(g, h, m, r, p)
}

/// The Schnorr prover for the secret `x`, the nonce `k` and a given
/// challenge: the commitment `g^k mod p`, the challenge itself, and the
/// response `k - x * challenge mod (p - 1)`.
pub fn schnorr_prove(g: u64, x: u64, p: u64, k: u64, challenge: u64) -> (r: (u64, u64, u64))
    requires
        p >= 2,
    ensures
        r.0 == pow(g as int, k as nat) % (p as int),
        r.1 == challenge,
        r.2 == spec_schnorr_response(x as int, k as int, challenge as int, p as int),
{
    let m: u64 = p - 1;
    let commitment: u64 = mod_exp(g, k, p);
    let xc: u64 = mul_mod_u64(x, challenge, m);
    let kk: u64 = k % m;
    let wide: u128 = (kk as u128 + m as u128 - xc as u128) % (m as u128);
    proof {
        let mi = m as int;
        lemma_pow_mod_noop(g as int, k as nat, p as int);
        lemma_pow0(g as int);
        lemma_small_mod(1, p as nat);
        lemma_sub_mod_noop(k as int, x as int * challenge as int, mi);
        lemma_mod_add_multiples_vanish(kk as int - xc as int, mi);
    }
    (commitment, challenge, wide as u64)
}

/// The Schnorr verifier: whether `g^response * pk^challenge` is the
/// commitment modulo `p`.
pub fn schnorr_verify(
    g: u64,
    pk: u64,
    commitment: u64,
    challenge: u64,
    response: u64,
    p: u64,
) -> (ok: bool)
    requires
        p > 0,
    ensures
        ok == schnorr_accepts(
            g as int,
            pk as int,
            commitment as int,
            challenge as nat,
            response as nat,
            p as int,
        ),
{
    proof {
        lemma_mod_pow_product(g as int, response as nat, pk as int, challenge as nat, p as int);
    }
    let lhs: u64 = mul_mod_u64(mod_exp(g, response, p), mod_exp(pk, challenge, p), p);
    lhs == commitment % p
}

/// Mixes bytes into an FNV-1a state.
fn absorb(h: u64, bytes: &[u8]) -> (r: u64)
    ensures
        r == fnv_fold(h, bytes@),
{
    let mut state: u64 = h;
    let mut i: usize = 0;
    assert(bytes@.take(0) =~= Seq::<u8>::empty());
    while i < bytes.len()
        invariant
            i <= bytes.len(),
            state == fnv_fold(h, bytes@.take(i as int)),
        decreases bytes.len() - i,
    {
        assert(bytes@.take(i + 1).drop_last() =~= bytes@.take(i as int));
        let mixed: u64 = state ^ (bytes[i] as u64);
        assert(0 <= (mixed as int) * (FNV_PRIME as int) < 0x1_0000_0000_0000_0000_0000_0000_0000_0000)
            by (nonlinear_arith)
            requires
                0 <= mixed < 0x1_0000_0000_0000_0000,
                FNV_PRIME == 0x0000_0100_0000_01b3,
        ;
        let wide: u128 = (mixed as u128) * (FNV_PRIME as u128);
        state = (wide % 0x1_0000_0000_0000_0000u128) as u64;
        i = i + 1;
    }
    assert(bytes@.take(bytes.len() as int) =~= bytes@);
    state
}

/// The eight bytes of a word, the lowest first.
fn bytes_of_word(x: u64) -> (r: [u8; 8])
    ensures
        r@ == word_bytes(x),
{
    let r: [u8; 8] = [
        (x & 0xff) as u8,
        ((x >> 8) & 0xff) as u8,
        ((x >> 16) & 0xff) as u8,
        ((x >> 24) & 0xff) as u8,
        ((x >> 32) & 0xff) as u8,
        ((x >> 40) & 0xff) as u8,
        ((x >> 48) & 0xff) as u8,
        ((x >> 56) & 0xff) as u8,
    ];
    proof {
        assert(x >> 0 == x) by (bit_vector);
        assert(r@ =~= word_bytes(x));
    }
    r
}

/// The challenge of a non-interactive Schnorr proof: the 64-bit FNV-1a hash
/// of the base, the public key, the commitment and the message.
pub fn fiat_shamir(g: u64, pk: u64, commitment: u64, message: &[u8]) -> (challenge: u64)
    ensures
        challenge == spec_fiat_shamir(g, pk, commitment, message@),
{
    let b1: [u8; 8] = bytes_of_word(g);
    let b2: [u8; 8] = bytes_of_word(pk);
    let b3: [u8; 8] = bytes_of_word(commitment);
    let h1: u64 = absorb(FNV_OFFSET, b1.as_slice());
    let h2: u64 = absorb(h1, b2.as_slice());
    let h3: u64 = absorb(h2, b3.as_slice());
    proof {
        lemma_fnv_fold_concat(FNV_OFFSET, word_bytes(g), word_bytes(pk));
        lemma_fnv_fold_concat(FNV_OFFSET, word_bytes(g) + word_bytes(pk), word_bytes(commitment));
        lemma_fnv_fold_concat(
            FNV_OFFSET,
            word_bytes(g) + word_bytes(pk) + word_bytes(commitment),
            message@,
        );
    }
    absorb(h3, message)
}

} // verus!
