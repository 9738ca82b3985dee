//! One round of FRI folding of polynomial evaluations modulo a prime.

use crate::field::{add_mod, mod_inv, mul_mod, reduce, spec_mod_inv, sub_mod};
use vstd::arithmetic::div_mod::*;
use vstd::arithmetic::power::*;
use vstd::prelude::*;

verus! {

/// The folded value from the evaluations `e` at `x` and `f` at `-x`:
/// `(e + f) / 2 + alpha * (e - f) / (2x)` modulo `p`.
pub open spec fn fold_value(e: int, f: int, alpha: int, x: int, p: int) -> int {
    ((e + f) * spec_mod_inv(2, p) + alpha * (e - f) * spec_mod_inv(2 * x, p)) % p
}

/// The inverse modulo `p` depends on the residue alone.
pub proof fn lemma_mod_inv_of_residue(a: int, p: int)
    requires
        p > 0,
    ensures
        spec_mod_inv(a % p, p) == spec_mod_inv(a, p),
{
    lemma_mod_twice(a, p);
}

/// Folds the evaluations of a polynomial at the powers of `omega`, a root of
/// unity whose order is the number of evaluations, into the evaluations at
/// the squares of these points, with the challenge `alpha`.
///
/// The point `-omega^i` is `omega^(i + n/2)`, so the value `i` of the result
/// comes from the evaluations `i` and `i + n/2`.
pub fn fri_fold(evaluations: &[i64], challenge: i64, modulus: i64, omega: i64) -> (r: Vec<i64>)
    requires
        modulus >= 2,
        evaluations.len() % 2 == 0,
    ensures
        r.len() == evaluations.len() / 2,
        forall|i: int|
            0 <= i < r.len() ==> #[trigger] r[i] == fold_value(
                evaluations[i] as int,
                evaluations[i + r.len()] as int,
                challenge as int,
                pow(omega as int, i as nat),
                modulus as int,
            ),
{
    let half: usize = evaluations.len() / 2;
    let alpha: i64 = reduce(challenge, modulus);
    let inv2: i64 = mod_inv(2, modulus);
    let mut x: i64 = reduce(1, modulus);
    let w: i64 = reduce(omega, modulus);
    let mut out: Vec<i64> = Vec::new();
    let mut i: usize = 0;
    proof {
        lemma_pow0(omega as int);
    }
    while i < half
        invariant
            modulus >= 2,
            half == evaluations.len() / 2,
            evaluations.len() % 2 == 0,
            i <= half,
            out.len() == i,
            alpha == challenge as int % (modulus as int),
            inv2 == spec_mod_inv(2, modulus as int),
            w == omega as int % (modulus as int),
            0 <= inv2 < modulus,
            x == pow(omega as int, i as nat) % (modulus as int),
            forall|j: int|
                0 <= j < i ==> #[trigger] out[j] == fold_value(
                    evaluations[j] as int,
                    evaluations[j + half] as int,
                    challenge as int,
                    pow(omega as int, j as nat),
                    modulus as int,
                ),
        decreases half - i,
    {
        let e: i64 = reduce(evaluations[i], modulus);
        let f: i64 = reduce(evaluations[i + half], modulus);
        let sum: i64 = add_mod(e, f, modulus);
        let diff: i64 = sub_mod(e, f, modulus);
        let even: i64 = mul_mod(sum, inv2, modulus);
        let inv2x: i64 = mod_inv(add_mod(x, x, modulus), modulus);
        let odd: i64 = mul_mod(mul_mod(alpha, diff, modulus), inv2x, modulus);
        proof {
            let p = modulus as int;
            let ei = evaluations[i as int] as int;
            let fi = evaluations[i + half] as int;
            let xi = pow(omega as int, i as nat);
            let ai = challenge as int;
            lemma_add_mod_noop(ei, fi, p);
            lemma_sub_mod_noop(ei, fi, p);
            lemma_mul_mod_noop_left(ei + fi, inv2 as int, p);
            // the inverse of 2x is taken of its residue
            lemma_add_mod_noop(xi, xi, p);
            lemma_mod_inv_of_residue(2 * xi, p);
            lemma_mod_inv_of_residue(x as int + x as int, p);
            assert(inv2x == spec_mod_inv(2 * xi, p));
            lemma_mul_mod_noop_general(ai, ei - fi, p);
            lemma_mul_mod_noop_left(ai * (ei - fi), inv2x as int, p);
            lemma_add_mod_noop((ei + fi) * inv2, ai * (ei - fi) * inv2x, p);
            // the next power of omega
            assert(pow(omega as int, (i + 1) as nat) == omega * xi) by {
                reveal(pow);
            }
            lemma_mul_mod_noop_general(xi, omega as int, p);
            assert(xi * omega == omega * xi) by (nonlinear_arith);
        }
        out.push(add_mod(even, odd, modulus));
        x = mul_mod(x, w, modulus);
        i = i + 1;
    }
    out
}

} // verus!
