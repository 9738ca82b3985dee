//! Discrete logarithms in the units modulo `p`, and the Diffie-Hellman
//! exchange that rests on their hardness.

use crate::field::{spec_mod_inv, spec_mod_pow};
use crate::modular::{mod_exp, mul_mod_u64, spec_gcd};
use crate::number_theory::mod_inverse;
use crate::primes::{check_prime, is_prime, lemma_mod_inv_inverts, lemma_prime_divides_product};
use std::collections::HashMap;
use vstd::arithmetic::div_mod::*;
use vstd::arithmetic::power::*;
use vstd::prelude::*;

verus! {

/// `x` is a discrete logarithm of `h` to the base `g` modulo `p`.
pub open spec fn is_dlog(g: int, h: int, p: int, x: nat) -> bool {
    pow(g, x) % p == h % p
}

/// A power of a power modulo `p` is the power by the product of the
/// exponents.
pub proof fn lemma_mod_pow_of_mod_pow(g: int, a: nat, b: nat, p: int)
    requires
        p > 1,
    ensures
        spec_mod_pow(spec_mod_pow(g, a, p), b, p) == spec_mod_pow(g, a * b, p),
        spec_mod_pow(g, a, p) == pow(g, a) % p,
{
    lemma_pow_mod_noop(g, a, p);
    lemma_pow_mod_noop(g, a * b, p);
    lemma_pow0(g);
    lemma_pow0(g % p);
    lemma_small_mod(1, p as nat);
    let u = spec_mod_pow(g, a, p);
    assert(u == pow(g, a) % p);
    if b == 0 {
        assert(a * b == 0) by (nonlinear_arith)
            requires
                b == 0,
        ;
    } else {
        // (g^a mod p)^b == (g^a)^b == g^(a*b) modulo p
        lemma_mod_twice(pow(g, a), p);
        lemma_pow_mod_noop(pow(g, a), b, p);
        lemma_pow_mod_noop(u, b, p);
        lemma_pow_multiplies(g, a, b);
        if a * b == 0 {
            lemma_pow0(pow(g, a));
        }
    }
}

/// The prime power `q^e` of a factor `(q, e)`.
pub open spec fn prime_power(f: (u64, u32)) -> int {
    pow(f.0 as int, f.1 as nat)
}

/// The product of the prime powers of a factorisation.
pub open spec fn factor_product(fs: Seq<(u64, u32)>) -> int
    decreases fs.len(),
{
    if fs.len() == 0 {
        1
    } else {
        factor_product(fs.drop_last()) * prime_power(fs.last())
    }
}

/// Each prime power is positive, fits in a word and is coprime to the
/// product of those before it, as the powers of different primes are.
#[verifier::opaque]
pub open spec fn is_factorisation(fs: Seq<(u64, u32)>) -> bool {
    forall|i: int|
        0 <= i < fs.len() ==> 1 <= #[trigger] prime_power(fs[i]) <= u64::MAX && spec_gcd(
            factor_product(fs.take(i)) as nat,
            prime_power(fs[i]) as nat,
        ) == 1
}

/// What the result `x` is modulo the prime power `m`: the least logarithm
/// below `m` in the subgroup of order `m`, where `g` and `h` are raised to
/// the power `n / m`; and 0 if there is none.
#[verifier::opaque]
pub open spec fn subgroup_residue(x: int, g: int, h: int, p: int, m: int) -> bool {
    let gi = spec_mod_pow(g, ((p - 1) / m) as nat, p);
    let hi = spec_mod_pow(h, ((p - 1) / m) as nat, p);
    is_least_dlog(gi, hi, p, m as nat, (x % m) as nat) || (no_dlog_below(gi, hi, p, m as nat) && x
        % m == 0)
}

/// What a factorisation says of its factor `i`, and how the product of the
/// first factors grows with it.
pub proof fn lemma_factor_at(fs: Seq<(u64, u32)>, i: int)
    requires
        is_factorisation(fs),
        0 <= i < fs.len(),
    ensures
        1 <= prime_power(fs[i]) <= u64::MAX,
        spec_gcd(factor_product(fs.take(i)) as nat, prime_power(fs[i]) as nat) == 1,
        1 <= factor_product(fs.take(i)),
        factor_product(fs.take(i + 1)) == factor_product(fs.take(i)) * prime_power(fs[i]),
        factor_product(fs.take(i + 1)) <= factor_product(fs),
{
    reveal(is_factorisation);
    lemma_factor_product(fs, i);
    lemma_factor_product(fs, i + 1);
}

/// The residue condition sees `x` only through its residue modulo `m`.
pub proof fn lemma_subgroup_residue_congruent(x: int, y: int, g: int, h: int, p: int, m: int)
    requires
        x % m == y % m,
        subgroup_residue(x, g, h, p, m),
    ensures
        subgroup_residue(y, g, h, p, m),
{
    reveal(subgroup_residue);
}

/// A product of prime powers that are at least 1 is at least 1, and grows
/// with each factor.
pub proof fn lemma_factor_product(fs: Seq<(u64, u32)>, i: int)
    requires
        0 <= i <= fs.len(),
        forall|j: int| 0 <= j < fs.len() ==> 1 <= #[trigger] prime_power(fs[j]),
    ensures
        1 <= factor_product(fs.take(i)) <= factor_product(fs),
        i < fs.len() ==> factor_product(fs.take(i + 1)) == factor_product(fs.take(i))
            * prime_power(fs[i]),
    decreases fs.len() - i,
{
    lemma_factor_product_positive(fs.take(i));
    if i < fs.len() {
        assert(fs.take(i + 1).drop_last() =~= fs.take(i));
        assert(fs.take(i + 1).last() == fs[i]);
        lemma_factor_product(fs, i + 1);
        assert(factor_product(fs.take(i)) <= factor_product(fs.take(i)) * prime_power(fs[i]))
            by (nonlinear_arith)
            requires
                factor_product(fs.take(i)) >= 1,
                prime_power(fs[i]) >= 1,
        ;
    } else {
        assert(fs.take(i) =~= fs);
    }
}

/// A product of prime powers that are at least 1 is at least 1.
pub proof fn lemma_factor_product_positive(fs: Seq<(u64, u32)>)
    requires
        forall|j: int| 0 <= j < fs.len() ==> 1 <= #[trigger] prime_power(fs[j]),
    ensures
        1 <= factor_product(fs),
    decreases fs.len(),
{
    if fs.len() > 0 {
        assert forall|j: int| 0 <= j < fs.drop_last().len() implies 1 <= #[trigger] prime_power(
            fs.drop_last()[j],
        ) by {
            assert(fs.drop_last()[j] == fs[j]);
        }
        lemma_factor_product_positive(fs.drop_last());
        assert(1 <= factor_product(fs.drop_last()) * prime_power(fs.last())) by (nonlinear_arith)
            requires
                factor_product(fs.drop_last()) >= 1,
                prime_power(fs.last()) >= 1,
        ;
    }
}

/// A multiple of a multiple of `c` is a multiple of `c`.
pub proof fn lemma_divides_trans(a: int, b: int, c: int)
    requires
        b > 0,
        c > 0,
        a % b == 0,
        b % c == 0,
    ensures
        a % c == 0,
{
    lemma_fundamental_div_mod(a, b);
    lemma_fundamental_div_mod(b, c);
    let k = a / b;
    let l = b / c;
    assert(a == (l * k) * c) by (nonlinear_arith)
        requires
            a == b * k,
            b == c * l,
    ;
    lemma_mod_multiples_basic(l * k, c);
}

/// A power of a unit modulo a prime is a unit.
pub proof fn lemma_pow_of_unit(g: int, e: nat, p: int)
    requires
        is_prime(p),
        g % p != 0,
    ensures
        pow(g, e) % p != 0,
    decreases e,
{
    if e == 0 {
        lemma_pow0(g);
        lemma_small_mod(1, p as nat);
    } else {
        lemma_pow_of_unit(g, (e - 1) as nat, p);
        assert(pow(g, e) == g * pow(g, (e - 1) as nat)) by {
            reveal(pow);
        }
        if pow(g, e) % p == 0 {
            lemma_prime_divides_product(g, pow(g, (e - 1) as nat), p);
        }
    }
}

/// Where `f` inverts `g^m`, the exponent `i*m + j` is a logarithm of `h`
/// exactly if `g^j` is `h * f^i`: a giant step by `i` brings the search back
/// to the baby steps.
pub proof fn lemma_giant_step(g: int, h: int, p: int, m: nat, f: int, i: nat, j: nat)
    requires
        p > 1,
        (pow(g, m) * f) % p == 1,
    ensures
        is_dlog(g, h, p, i * m + j) <==> pow(g, j) % p == (h * pow(f, i)) % p,
{
    let big_g = pow(g, m);
    let a = pow(g, j);
    let gi = pow(big_g, i);
    let fi = pow(f, i);
    let x = pow(g, i * m + j);
    assert(x == a * gi) by {
        lemma_pow_adds(g, i * m, j);
        assert(i * m == m * i) by (nonlinear_arith);
        lemma_pow_multiplies(g, m, i);
        assert(pow(g, i * m) * a == a * gi) by (nonlinear_arith)
            requires
                pow(g, i * m) == gi,
        ;
    }
    assert((gi * fi) % p == 1) by {
        lemma_pow_distributes(big_g, f, i);
        lemma_pow_mod_noop(big_g * f, i, p);
        lemma1_pow(i);
        lemma_small_mod(1, p as nat);
    }
    if pow(g, j) % p == (h * fi) % p {
        // a * gi == h * fi * gi == h
        lemma_mul_mod_noop_left(a, gi, p);
        lemma_mul_mod_noop_left(h * fi, gi, p);
        assert((h * fi) * gi == h * (gi * fi)) by (nonlinear_arith);
        lemma_mul_mod_noop_right(h, gi * fi, p);
        assert(h * 1 == h);
    }
    if x % p == h % p {
        // a == a * gi * fi == h * fi
        lemma_mul_mod_noop_left(a * gi, fi, p);
        lemma_mul_mod_noop_left(h, fi, p);
        assert((a * gi) * fi == a * (gi * fi)) by (nonlinear_arith);
        lemma_mul_mod_noop_right(a, gi * fi, p);
        assert(a * 1 == a);
    }
}

/// `y` is the least logarithm of `h` to the base `g`, and it is below
/// `bound`.
pub open spec fn is_least_dlog(g: int, h: int, p: int, bound: nat, y: nat) -> bool {
    y < bound && is_dlog(g, h, p, y) && forall|z: nat| z < y ==> !is_dlog(g, h, p, z)
}

/// No logarithm of `h` to the base `g` is below `bound`.
pub open spec fn no_dlog_below(g: int, h: int, p: int, bound: nat) -> bool {
    forall|z: nat| z < bound ==> !is_dlog(g, h, p, z)
}

/// The least logarithm below `bound`, by exhaustive search.
pub fn dlog_bounded(g: u64, h: u64, p: u64, bound: u64) -> (r: Option<u64>)
    requires
        p > 0,
    ensures
        r matches Some(x) ==> is_least_dlog(g as int, h as int, p as int, bound as nat, x as nat),
        r is None ==> no_dlog_below(g as int, h as int, p as int, bound as nat),
{
    let target: u64 = h % p;
    let mut val: u64 = 1 % p;
    let mut x: u64 = 0;
    proof {
        lemma_pow0(g as int);
    }
    while x < bound
        invariant
            p > 0,
            x <= bound,
            target == h % p,
            val == pow(g as int, x as nat) % (p as int),
            forall|y: nat| y < x ==> !is_dlog(g as int, h as int, p as int, y),
        decreases bound - x,
    {
        if val == target {
            return Some(x);
        }
        proof {
            let gi = g as int;
            assert(pow(gi, (x + 1) as nat) == gi * pow(gi, x as nat)) by {
                reveal(pow);
            }
            lemma_mul_mod_noop_left(pow(gi, x as nat), gi, p as int);
            assert(pow(gi, x as nat) * gi == gi * pow(gi, x as nat)) by (nonlinear_arith);
        }
        val = mul_mod_u64(val, g, p);
        x = x + 1;
    }
    None
}

/// The discrete logarithm by exhaustive search: the least `x` below `p - 1`
/// with `g^x == h` modulo `p`, if there is one.
pub fn discrete_log_brute(g: u64, h: u64, p: u64) -> (r: Option<u64>)
    requires
        p > 0,
    ensures
        r matches Some(x) ==> x < p - 1 && is_dlog(g as int, h as int, p as int, x as nat)
            && forall|y: nat| y < x ==> !is_dlog(g as int, h as int, p as int, y),
        r is None ==> forall|y: nat| y < p - 1 ==> !is_dlog(g as int, h as int, p as int, y),
{
    dlog_bounded(g, h, p, p - 1)
}

/// The square of a word, in 128 bits.
fn square_wide(m: u64) -> (r: u128)
    ensures
        r == m * m,
{
    assert(0 <= (m as int) * (m as int) < 0x1_0000_0000_0000_0000_0000_0000_0000_0000)
        by (nonlinear_arith)
        requires
            0 <= m < 0x1_0000_0000_0000_0000,
    ;
    (m as u128) * (m as u128)
}

/// The least `m` with `m * m >= n`.
fn ceil_sqrt(n: u64) -> (m: u64)
    ensures
        m * m >= n,
        m <= 0x1_0000_0000,
        m > 0 ==> (m - 1) * (m - 1) < n,
{
    let mut m: u64 = 0;
    while square_wide(m) < n as u128
        invariant
            m <= 0x1_0000_0000,
            m > 0 ==> (m - 1) * (m - 1) < n,
        decreases 0x1_0000_0000 - m,
    {
        assert(m < 0x1_0000_0000) by (nonlinear_arith)
            requires
                m * m < n,
                n < 0x1_0000_0000_0000_0000,
                m <= 0x1_0000_0000,
        ;
        m = m + 1;
    }
    m
}

/// The table of the baby steps: each power `g^j` with `j < m` is a key, and
/// its value is the least exponent that gives it.
pub open spec fn is_baby_table(table: Map<u64, u64>, g: int, p: int, m: nat) -> bool {
    &&& forall|v: u64| #[trigger]
        table.contains_key(v) ==> table[v] < m && pow(g, table[v] as nat) % p == v
    &&& forall|v: u64, j: nat|
        #![trigger table.contains_key(v), pow(g, j)]
        table.contains_key(v) && j < table[v] ==> pow(g, j) % p != v
    &&& forall|j: nat| j < m ==> table.contains_key((#[trigger] pow(g, j) % p) as u64)
}

/// The table of the baby steps `g^0, ..., g^(m-1)` modulo `p`.
fn baby_steps(g: u64, p: u64, m: u64) -> (table: HashMap<u64, u64>)
    requires
        p > 0,
    ensures
        is_baby_table(table@, g as int, p as int, m as nat),
{
    broadcast use vstd::std_specs::hash::group_hash_axioms;

    let mut table: HashMap<u64, u64> = HashMap::new();
    let mut val: u64 = 1 % p;
    let mut j: u64 = 0;
    proof {
        lemma_pow0(g as int);
    }
    while j < m
        invariant
            p > 0,
            j <= m,
            val == pow(g as int, j as nat) % (p as int),
            is_baby_table(table@, g as int, p as int, j as nat),
        decreases m - j,
    {
        let ghost before = table@;
        if !table.contains_key(&val) {
            table.insert(val, j);
        }
        proof {
            let gi = g as int;
            let pi = p as int;
            assert forall|v: u64, k: nat|
                #![trigger table@.contains_key(v), pow(gi, k)]
                table@.contains_key(v) && k < table@[v] implies pow(gi, k) % pi != v by {
                if !before.contains_key(v) {
                    assert(v == val);
                    if pow(gi, k) % pi == v {
                        assert(before.contains_key((pow(gi, k) % pi) as u64));
                    }
                }
            }
            assert forall|k: nat| k < j + 1 implies table@.contains_key(
                (#[trigger] pow(gi, k) % pi) as u64,
            ) by {
                if k < j {
                    assert(before.contains_key((pow(gi, k) % pi) as u64));
                }
            }
            assert(pow(gi, (j + 1) as nat) == gi * pow(gi, j as nat)) by {
                reveal(pow);
            }
            lemma_mul_mod_noop_left(pow(gi, j as nat), gi, pi);
            assert(pow(gi, j as nat) * gi == gi * pow(gi, j as nat)) by (nonlinear_arith);
        }
        val = mul_mod_u64(val, g, p);
        j = j + 1;
    }
    table
}

/// The discrete logarithm by baby steps and giant steps, for a group of
/// order `n`, in about `sqrt(n)` steps.
///
/// What is returned is a logarithm of `h`.  Where `p` is prime and does not
/// divide `g`, it is the least one, and if none is returned there is none
/// below `n`.
pub fn baby_step_giant_step(g: u64, h: u64, p: u64, n: u64) -> (r: Option<u64>)
    requires
        p > 0,
    ensures
        r matches Some(x) ==> is_dlog(g as int, h as int, p as int, x as nat),
        is_prime(p as int) && g % p != 0 ==> (r matches Some(x) ==> forall|y: nat|
            y < x ==> !is_dlog(g as int, h as int, p as int, y)),
        is_prime(p as int) && g % p != 0 ==> (r is None ==> forall|y: nat|
            y < n ==> !is_dlog(g as int, h as int, p as int, y)),
{
    broadcast use vstd::std_specs::hash::group_hash_axioms;

    let m: u64 = ceil_sqrt(n);
    let table: HashMap<u64, u64> = baby_steps(g, p, m);
    let step: u64 = mod_exp(g, m, p);
    let f: u64 = if p >= 2 { mod_exp(step, p - 2, p) } else { 0 };
    let target: u64 = h % p;
    let ghost gi = g as int;
    let ghost hi = h as int;
    let ghost pi = p as int;
    let ghost good = is_prime(pi) && g % p != 0;
    proof {
        lemma_pow0(f as int);
        assert(hi * 1 == hi);
        if good {
            lemma_pow_of_unit(gi, m as nat, pi);
            lemma_pow_mod_noop(gi, m as nat, pi);
            lemma_pow0(gi);
            lemma_small_mod(1, p as nat);
            assert(step == pow(gi, m as nat) % pi);
            lemma_mod_twice(pow(gi, m as nat), pi);
            lemma_mod_inv_inverts(step as int, pi);
            assert(f == spec_mod_inv(step as int, pi));
            lemma_mul_mod_noop_left(pow(gi, m as nat), f as int, pi);
        }
    }
    let mut gamma: u64 = target;
    let mut i: u64 = 0;
    while i < m
        invariant
            p > 0,
            i <= m,
            m <= 0x1_0000_0000,
            target == h % p,
            gi == g,
            hi == h,
            pi == p,
            good == (is_prime(pi) && g % p != 0),
            good ==> (pow(gi, m as nat) * f) % pi == 1,
            is_baby_table(table@, gi, pi, m as nat),
            gamma == (hi * pow(f as int, i as nat)) % pi,
            good ==> forall|y: nat| y < i * m ==> !is_dlog(gi, hi, pi, y),
        decreases m - i,
    {
        let found: Option<&u64> = table.get(&gamma);
        match found {
            Some(j) => {
                let j: u64 = *j;
                assert(0 <= i * m + j < 0x1_0000_0000_0000_0000) by (nonlinear_arith)
                    requires
                        i < m,
                        j < m,
                        m <= 0x1_0000_0000,
                ;
                let x: u64 = i * m + j;
                let check: u64 = mod_exp(g, x, p);
                proof {
                    lemma_pow_mod_noop(gi, x as nat, pi);
                    lemma_pow0(gi);
                    lemma_mod_twice(pow(gi, x as nat), pi);
                    if good {
                        lemma_giant_step(gi, hi, pi, m as nat, f as int, i as nat, j as nat);
                        assert(is_dlog(gi, hi, pi, x as nat));
                        assert forall|y: nat| y < x implies !is_dlog(gi, hi, pi, y) by {
                            if y >= i * m {
                                let k = (y - i * m) as nat;
                                lemma_giant_step(gi, hi, pi, m as nat, f as int, i as nat, k);
                            }
                        }
                    }
                }
                if check % p == target {
                    return Some(x);
                }
            },
            None => {
                proof {
                    if good {
                        assert forall|y: nat| y < (i + 1) * m implies !is_dlog(gi, hi, pi, y) by {
                            assert((i + 1) * m == i * m + m) by (nonlinear_arith);
                            if y >= i * m {
                                let k = (y - i * m) as nat;
                                lemma_giant_step(gi, hi, pi, m as nat, f as int, i as nat, k);
                                if is_dlog(gi, hi, pi, y) {
                                    lemma_mod_bound(hi * pow(f as int, i as nat), pi);
                                    assert(table@.contains_key((pow(gi, k) % pi) as u64));
                                }
                            }
                        }
                    }
                }
            },
        }
        proof {
            let fi = f as int;
            assert(pow(fi, (i + 1) as nat) == fi * pow(fi, i as nat)) by {
                reveal(pow);
            }
            lemma_mul_mod_noop_left(hi * pow(fi, i as nat), fi, pi);
            assert((hi * pow(fi, i as nat)) * fi == hi * (fi * pow(fi, i as nat)))
                by (nonlinear_arith);
            if good {
                assert((i + 1) * m == i * m + m) by (nonlinear_arith);
            }
        }
        gamma = mul_mod_u64(gamma, f, p);
        i = i + 1;
    }
    proof {
        if good {
            assert forall|y: nat| y < n implies !is_dlog(gi, hi, pi, y) by {
                assert(y < m * m);
            }
        }
    }
    None
}

/// The power `q^e`, which must fit in a word.
fn power_of(q: u64, e: u32) -> (m: u64)
    requires
        pow(q as int, e as nat) <= u64::MAX,
    ensures
        m == pow(q as int, e as nat),
{
    let mut m: u64 = 1;
    let mut i: u32 = 0;
    proof {
        lemma_pow0(q as int);
    }
    while i < e
        invariant
            i <= e,
            m == pow(q as int, i as nat),
            pow(q as int, e as nat) <= u64::MAX,
        decreases e - i,
    {
        proof {
            let qi = q as int;
            assert(pow(qi, (i + 1) as nat) == qi * pow(qi, i as nat)) by {
                reveal(pow);
            }
            if q == 0 {
                assert(qi * pow(qi, i as nat) == 0) by (nonlinear_arith)
                    requires
                        qi == 0,
                ;
            } else {
                lemma_pow_increases(q as nat, (i + 1) as nat, e as nat);
            }
            assert(m * q == q * m) by (nonlinear_arith);
        }
        m = m * q;
        i = i + 1;
    }
    m
}

/// One step of the Chinese remainder theorem: from `x` below `big_m` the
/// number below `big_m * m` that is `x` modulo `big_m` and `xi` modulo `m`.
fn crt_step(x: u64, big_m: u64, xi: u64, m: u64) -> (r: u64)
    requires
        m >= 1,
        big_m >= 1,
        x < big_m,
        xi < m,
        big_m * m <= u64::MAX,
        spec_gcd(big_m as nat, m as nat) == 1,
    ensures
        r < big_m * m,
        r % m == xi,
        r >= x,
        (r - x) % (big_m as int) == 0,
{
    let reduced: u64 = big_m % m;
    proof {
        // gcd(M mod m, m) == gcd(M, m)
        assert(spec_gcd(reduced as nat, m as nat) == spec_gcd(m as nat, (reduced % m) as nat));
        assert(spec_gcd(big_m as nat, m as nat) == spec_gcd(m as nat, (big_m % m) as nat));
        lemma_mod_twice(big_m as int, m as int);
    }
    let inv: u64 = match mod_inverse(reduced, m) {
        Some(v) => v,
        None => vstd::pervasive::unreached(),
    };
    let diff: u64 = ((xi as u128 + m as u128 - (x % m) as u128) % (m as u128)) as u64;
    let t: u64 = mul_mod_u64(diff, inv, m);
    proof {
        let mi = m as int;
        let bm = big_m as int;
        assert(0 <= bm * t && x + bm * t < bm * mi) by (nonlinear_arith)
            requires
                0 <= x < bm,
                0 <= t < mi,
                bm >= 1,
        ;
        // M * t == M * diff * inv == diff == xi - x modulo m
        lemma_mul_mod_noop_left(bm, inv as int, mi);
        lemma_mul_mod_noop_right(bm, diff as int * inv as int, mi);
        assert(bm * (diff * inv) == diff * (bm * inv)) by (nonlinear_arith);
        lemma_mul_mod_noop_right(diff as int, bm * inv, mi);
        assert(diff * 1 == diff);
        if mi == 1 {
            lemma_small_mod(0, 1);
        } else {
            lemma_small_mod(1, m as nat);
        }
        assert((bm * t) % mi == (diff as int) % mi);
        lemma_mod_add_multiples_vanish(xi as int - (x % m) as int, mi);
        lemma_sub_mod_noop_right(xi as int, x as int, mi);
        lemma_add_mod_noop(x as int, bm * t, mi);
        lemma_add_mod_noop(x as int, xi as int - x as int, mi);
        lemma_mod_twice(xi as int - x as int, mi);
        lemma_small_mod(xi as nat, m as nat);
        lemma_mod_multiples_basic(t as int, bm);
        assert(bm * t == t * bm) by (nonlinear_arith);
    }
    x + big_m * t
}

/// The logarithm in the subgroup of order `m`: the least `y` below `m` with
/// `(g^(n/m))^y == h^(n/m)`, and 0 if there is none.
fn subgroup_log(g: u64, h: u64, p: u64, m: u64) -> (xi: u64)
    requires
        p >= 1,
        m >= 1,
    ensures
        xi < m,
        subgroup_residue(xi as int, g as int, h as int, p as int, m as int),
{
    reveal(subgroup_residue);
    let n: u64 = p - 1;
    let gi: u64 = mod_exp(g, n / m, p);
    let hi: u64 = mod_exp(h, n / m, p);
    let found: Option<u64> = dlog_bounded(gi, hi, p, m);
    proof {
        lemma_small_mod(0, m as nat);
        if found is Some {
            lemma_small_mod(found->0 as nat, m as nat);
        }
    }
    match found {
        Some(y) => y,
        None => 0,
    }
}

/// The algorithm of Pohlig and Hellman for the discrete logarithm in the
/// units modulo `p`, from the factorisation of the group order `p - 1` into
/// prime powers.
///
/// The logarithm is found modulo each prime power by a search in the
/// subgroup of that order, and the residues are combined by the Chinese
/// remainder theorem.  Where `h` is a power of `g`, the result is a
/// logarithm of `h`.  Where a subgroup holds no logarithm, the residue
/// modulo its order is 0.
pub fn pohlig_hellman(g: u64, h: u64, p: u64, factors: &[(u64, u32)]) -> (x: u64)
    requires
        p >= 1,
        is_factorisation(factors@),
        factor_product(factors@) <= u64::MAX,
    ensures
        x < factor_product(factors@),
        forall|i: int|
            0 <= i < factors.len() ==> subgroup_residue(
                x as int,
                g as int,
                h as int,
                p as int,
                #[trigger] prime_power(factors[i]),
            ),
{
    let mut x: u64 = 0;
    let mut big_m: u64 = 1;
    let mut i: usize = 0;
    assert(factors@.take(0) =~= Seq::<(u64, u32)>::empty());
    while i < factors.len()
        invariant
            p >= 1,
            is_factorisation(factors@),
            factor_product(factors@) <= u64::MAX,
            i <= factors.len(),
            big_m == factor_product(factors@.take(i as int)),
            x < big_m,
            forall|j: int| 0 <= j < i ==> big_m as int % #[trigger] prime_power(factors[j]) == 0,
            forall|j: int|
                0 <= j < i ==> subgroup_residue(
                    x as int,
                    g as int,
                    h as int,
                    p as int,
                    #[trigger] prime_power(factors[j]),
                ),
        decreases factors.len() - i,
    {
        proof {
            lemma_factor_at(factors@, i as int);
        }
        let m: u64 = power_of(factors[i].0, factors[i].1);
        let xi: u64 = subgroup_log(g, h, p, m);
        let next: u64 = crt_step(x, big_m, xi, m);
        proof {
            let mi = m as int;
            let bm = big_m as int;
            assert forall|j: int| 0 <= j < i implies (bm * mi) % #[trigger] prime_power(
                factors[j],
            ) == 0 && subgroup_residue(
                next as int,
                g as int,
                h as int,
                p as int,
                prime_power(factors[j]),
            ) by {
                let mj = prime_power(factors[j]);
                lemma_factor_at(factors@, j);
                lemma_mul_mod_noop_left(bm, mi, mj);
                assert(0 * mi == 0);
                lemma_small_mod(0, mj as nat);
                lemma_divides_trans(next - x, bm, mj);
                lemma_mod_equivalence(next as int, x as int, mj);
                lemma_subgroup_residue_congruent(
                    x as int,
                    next as int,
                    g as int,
                    h as int,
                    p as int,
                    mj,
                );
            }
            lemma_mod_multiples_basic(bm, mi);
            lemma_small_mod(xi as nat, m as nat);
            lemma_subgroup_residue_congruent(
                xi as int,
                next as int,
                g as int,
                h as int,
                p as int,
                mi,
            );
        }
        x = next;
        big_m = big_m * m;
        i = i + 1;
    }
    proof {
        assert(factors@.take(factors.len() as int) =~= factors@);
    }
    x
}

/// A Diffie-Hellman exchange in the units modulo `p`: the two public keys
/// `g^a` and `g^b` and the secret `g^(a*b)` that both sides arrive at.
pub fn diffie_hellman(g: u64, p: u64, a: u64, b: u64) -> (r: (u64, u64, u64))
    requires
        p > 0,
    ensures
        r.0 == spec_mod_pow(g as int, a as nat, p as int),
        r.1 == spec_mod_pow(g as int, b as nat, p as int),
        r.2 == spec_mod_pow(r.1 as int, a as nat, p as int),
        p > 1 ==> r.2 == spec_mod_pow(r.0 as int, b as nat, p as int),
        p > 1 ==> r.2 == pow(g as int, a as nat * b as nat) % (p as int),
{
    let big_a: u64 = mod_exp(g, a, p);
    let big_b: u64 = mod_exp(g, b, p);
    let shared: u64 = mod_exp(big_b, a, p);
    proof {
        if p > 1 {
            lemma_mod_pow_of_mod_pow(g as int, a as nat, b as nat, p as int);
            lemma_mod_pow_of_mod_pow(g as int, b as nat, a as nat, p as int);
            lemma_mod_pow_of_mod_pow(g as int, a as nat * b as nat, 1, p as int);
            assert(a as nat * b as nat == b as nat * a as nat) by (nonlinear_arith);
        }
    }
    (big_a, big_b, shared)
}

/// Whether `p` is a safe prime: `p` and `(p - 1) / 2` are both prime.
pub fn is_safe_prime(p: u64) -> (r: bool)
    ensures
        r == (is_prime(p as int) && is_prime((p as int - 1) / 2)),
{
    if !check_prime(p) {
        return false;
    }
    check_prime((p - 1) / 2)
}

} // verus!
