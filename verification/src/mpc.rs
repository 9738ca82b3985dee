//! Secret sharing for multi-party computation: Shamir shares over a prime
//! field, additive shares modulo `2^64`, and multiplication with a Beaver
//! triple.
//!
//! The functions that make shares take the random values they need as
//! arguments, so that the same arguments always give the same shares.

use crate::field::{spec_mod_inv, spec_mod_pow};
use crate::modular::{mod_exp, mul_mod_u64, seq_sum, sum_words};
use crate::polynomial::{poly_eval, poly_value};
use vstd::arithmetic::div_mod::*;
use vstd::prelude::*;

verus! {

/// One factor of a Lagrange basis polynomial at 0: `x_m / (x_m - x_j)`.
pub open spec fn lagrange_factor(shares: Seq<(u64, u64)>, j: int, m: int, p: int) -> int {
    shares[m].0 as int * spec_mod_inv(shares[m].0 as int - shares[j].0 as int, p)
}

/// The product of the factors of the `j`-th basis polynomial over the first
/// `n` points, the point `j` left out.
pub open spec fn basis_product(shares: Seq<(u64, u64)>, j: int, n: nat, p: int) -> int
    decreases n,
{
    if n == 0 {
        1
    } else {
        basis_product(shares, j, (n - 1) as nat, p) * if n - 1 == j {
            1
        } else {
            lagrange_factor(shares, j, n - 1, p)
        }
    }
}

/// The sum over the first `k` points of `y_j` times the `j`-th basis
/// polynomial at 0.
pub open spec fn interpolation_sum(shares: Seq<(u64, u64)>, k: nat, p: int) -> int
    decreases k,
{
    if k == 0 {
        0
    } else {
        interpolation_sum(shares, (k - 1) as nat, p) + shares[k - 1].1 as int * basis_product(
            shares,
            k - 1,
            shares.len(),
            p,
        )
    }
}

/// The value at 0 of the polynomial through the shares, by Lagrange
/// interpolation modulo `p`.
pub open spec fn spec_shamir_reconstruct(shares: Seq<(u64, u64)>, p: int) -> int {
    interpolation_sum(shares, shares.len(), p) % p
}

/// The last additive share: what the others lack to sum to the secret.
pub open spec fn closing_share(secret: int, randoms: Seq<u64>) -> int {
    (secret - seq_sum(randoms)) % 0x1_0000_0000_0000_0000
}

/// A party's share of a product from a Beaver triple `(u, v, w)` and the
/// opened differences `d` and `e`: `w + e*u + d*v + d*e mod p`.
pub open spec fn spec_beaver(u: int, v: int, w: int, d: int, e: int, p: int) -> int {
    (w + e * u + d * v + d * e) % p
}

/// Shamir shares of `secret`: the values at `1, ..., n` of the polynomial
/// with constant term `secret` and the further coefficients `coeffs`, which
/// the caller draws at random.  One more share than there are coefficients
/// is needed to find the secret.
pub fn shamir_share(secret: u64, coeffs: &[u64], n: usize, prime: u64) -> (r: Vec<(u64, u64)>)
    requires
        prime > 0,
    ensures
        r.len() == n,
        forall|i: int|
            0 <= i < n ==> #[trigger] r[i] == ((i + 1) as u64, (poly_value(
                seq![secret] + coeffs@,
                i + 1,
            ) % (prime as int)) as u64),
{
    let mut poly: Vec<u64> = Vec::new();
    poly.push(secret);
    let mut k: usize = 0;
    while k < coeffs.len()
        invariant
            k <= coeffs.len(),
            poly@ == seq![secret] + coeffs@.take(k as int),
        decreases coeffs.len() - k,
    {
        poly.push(coeffs[k]);
        k = k + 1;
        assert(poly@ =~= seq![secret] + coeffs@.take(k as int));
    }
    assert(coeffs@.take(coeffs.len() as int) =~= coeffs@);
    let mut out: Vec<(u64, u64)> = Vec::new();
    let mut i: usize = 0;
    while i < n
        invariant
            prime > 0,
            i <= n,
            out.len() == i,
            poly@ == seq![secret] + coeffs@,
            forall|j: int|
                0 <= j < i ==> #[trigger] out[j] == ((j + 1) as u64, (poly_value(
                    seq![secret] + coeffs@,
                    j + 1,
                ) % (prime as int)) as u64),
        decreases n - i,
    {
        let x: u64 = i as u64 + 1;
        let y: u64 = poly_eval(poly.as_slice(), x, prime);
        out.push((x, y));
        i = i + 1;
    }
    out
}

/// Recovers the secret from Shamir shares: the interpolating polynomial at 0.
///
/// The abscissas of the shares must differ modulo the prime for the result
/// to be the shared secret.
pub fn shamir_reconstruct(shares: &[(u64, u64)], prime: u64) -> (r: u64)
    requires
        prime >= 2,
    ensures
        r == spec_shamir_reconstruct(shares@, prime as int),
{
    let n: usize = shares.len();
    let mut total: u64 = 0;
    let mut j: usize = 0;
    proof {
        lemma_small_mod(0, prime as nat);
    }
    while j < n
        invariant
            prime >= 2,
            n == shares.len(),
            j <= n,
            total == interpolation_sum(shares@, j as nat, prime as int) % (prime as int),
        decreases n - j,
    {
        let mut basis: u64 = 1;
        let mut m: usize = 0;
        proof {
            lemma_small_mod(1, prime as nat);
        }
        while m < n
            invariant
                prime >= 2,
                n == shares.len(),
                j < n,
                m <= n,
                basis == basis_product(shares@, j as int, m as nat, prime as int) % (prime as int),
            decreases n - m,
        {
            let ghost before = basis_product(shares@, j as int, m as nat, prime as int);
            if m != j {
                let xm: u64 = shares[m].0 % prime;
                let xj: u64 = shares[j].0 % prime;
                let diff: u64 = ((xm as u128 + prime as u128 - xj as u128) % (prime as u128)) as u64;
                let inv: u64 = mod_exp(diff, prime - 2, prime);
                let factor: u64 = mul_mod_u64(xm, inv, prime);
                proof {
                    let p = prime as int;
                    let d = shares[m as int].0 as int - shares[j as int].0 as int;
                    lemma_sub_mod_noop(shares[m as int].0 as int, shares[j as int].0 as int, p);
                    lemma_mod_add_multiples_vanish(xm as int - xj as int, p);
                    assert(diff == d % p);
                    lemma_mod_twice(d, p);
                    assert(inv == spec_mod_inv(d, p));
                    lemma_mul_mod_noop_left(shares[m as int].0 as int, inv as int, p);
                    assert(factor == lagrange_factor(shares@, j as int, m as int, p) % p);
                    lemma_mul_mod_noop_general(
                        before,
                        lagrange_factor(shares@, j as int, m as int, p),
                        p,
                    );
                    lemma_mul_mod_noop_general(basis as int, factor as int, p);
                    lemma_mod_twice(before, p);
                    lemma_mod_twice(lagrange_factor(shares@, j as int, m as int, p), p);
                }
                basis = mul_mod_u64(basis, factor, prime);
            } else {
                assert(before * 1 == before);
            }
            m = m + 1;
        }
        let term: u64 = mul_mod_u64(shares[j].1, basis, prime);
        let wide: u128 = (total as u128 + term as u128) % (prime as u128);
        proof {
            let p = prime as int;
            let b = basis_product(shares@, j as int, n as nat, p);
            let y = shares[j as int].1 as int;
            let s = interpolation_sum(shares@, j as nat, p);
            lemma_mul_mod_noop_right(y, b, p);
            lemma_add_mod_noop(s, y * b, p);
        }
        total = wide as u64;
        j = j + 1;
    }
    total
}

/// Additive shares of `secret`: the random words that the caller hands in,
/// and one more word so that all of them sum to the secret modulo `2^64`.
pub fn additive_share(secret: u64, randoms: &[u64]) -> (r: Vec<u64>)
    ensures
        r@ == randoms@.push(closing_share(secret as int, randoms@) as u64),
        seq_sum(r@) % 0x1_0000_0000_0000_0000 == secret,
{
    let partial: u64 = sum_words(randoms);
    let wide: u128 = (secret as u128 + 0x1_0000_0000_0000_0000u128 - partial as u128)
        % 0x1_0000_0000_0000_0000u128;
    let last: u64 = wide as u64;
    let mut out: Vec<u64> = Vec::new();
    let mut i: usize = 0;
    while i < randoms.len()
        invariant
            i <= randoms.len(),
            out@ == randoms@.take(i as int),
        decreases randoms.len() - i,
    {
        out.push(randoms[i]);
        i = i + 1;
        assert(out@ =~= randoms@.take(i as int));
    }
    assert(randoms@.take(randoms.len() as int) =~= randoms@);
    out.push(last);
    proof {
        let w = 0x1_0000_0000_0000_0000int;
        let s = seq_sum(randoms@);
        lemma_sub_mod_noop_right(secret as int, s, w);
        lemma_mod_add_multiples_vanish(secret as int - partial as int, w);
        assert(last == closing_share(secret as int, randoms@));
        assert(out@.drop_last() =~= randoms@);
        assert(seq_sum(out@) == s + last);
        lemma_add_mod_noop_right(s, secret as int - s, w);
        lemma_small_mod(secret as nat, w as nat);
    }
    out
}

/// Recovers a secret from additive shares: their sum modulo `2^64`.
pub fn additive_reconstruct(shares: &[u64]) -> (r: u64)
    ensures
        r == seq_sum(shares@) % 0x1_0000_0000_0000_0000,
{
    sum_words(shares)
}

/// A party's share of the product `a * b` from its share `(u, v, w)` of a
/// Beaver triple and the opened values `d = a - u` and `e = b - v`.
///
/// The party's shares of `a` and `b` went into `d` and `e` and are not read
/// again.
pub fn beaver_triple_mul(
    a_share: u64,
    b_share: u64,
    u_share: u64,
    v_share: u64,
    w_share: u64,
    d: u64,
    e: u64,
    p: u64,
) -> (r: u64)
    requires
        p > 0,
    ensures
        r == spec_beaver(
            u_share as int,
            v_share as int,
            w_share as int,
            d as int,
            e as int,
            p as int,
        ),
{
    let eu: u64 = mul_mod_u64(e, u_share, p);
    let dv: u64 = mul_mod_u64(d, v_share, p);
    let de: u64 = mul_mod_u64(d, e, p);
    let wide: u128 = (w_share as u128 + eu as u128 + dv as u128 + de as u128) % (p as u128);
    proof {
        let pp = p as int;
        let x1 = e as int * u_share as int;
        let x2 = d as int * v_share as int;
        let x3 = d as int * e as int;
        lemma_add_mod_noop_right(w_share as int, x1, pp);
        lemma_add_mod_noop_right(w_share as int + x1, x2, pp);
        lemma_add_mod_noop_right(w_share as int + x1 + x2, x3, pp);
        lemma_add_mod_noop_right(w_share as int + eu, x2, pp);
        lemma_add_mod_noop_right(w_share as int + eu + dv, x3, pp);
        lemma_add_mod_noop(w_share as int + eu, x2, pp);
        lemma_add_mod_noop(w_share as int + x1, x2, pp);
        lemma_add_mod_noop(w_share as int + eu + dv, x3, pp);
        lemma_add_mod_noop(w_share as int + x1 + x2, x3, pp);
    }
    wide as u64
}

} // verus!
