//! Arithmetic in the integers modulo `n` and in the group of units.

use crate::field::{lemma_square_multiply_step, spec_mod_pow};
use crate::number_theory::{lemma_extended_gcd, spec_extended_gcd};
use crate::primes::{check_prime, is_prime};
use vstd::arithmetic::div_mod::*;
use vstd::arithmetic::power::*;
use vstd::prelude::*;
use vstd::seq_lib::*;
use vstd::set_lib::*;

verus! {

/// `d` is positive and divides both `a` and `b`.
pub open spec fn is_common_divisor(d: int, a: int, b: int) -> bool {
    d > 0 && a % d == 0 && b % d == 0
}

/// The greatest common divisor, by Euclid's recursion; `spec_gcd(0, 0)` is 0.
pub open spec fn spec_gcd(a: nat, b: nat) -> nat
    decreases b,
{
    if b == 0 {
        a
    } else {
        spec_gcd(b, a % b)
    }
}

/// `k` is a positive exponent with `a^k == 1` modulo `n`.
pub open spec fn is_unit_exponent(a: int, n: int, k: nat) -> bool {
    k >= 1 && pow(a, k) % n == 1int % n
}

/// The test of a generator at the prime factor `q` of `p - 1`: the power
/// `g^((p-1)/q)` is not 1.
pub open spec fn passes_at(g: int, p: int, q: int) -> bool {
    pow(g, ((p - 1) / q) as nat) % p != 1
}

/// `g` generates the units modulo the prime `p`: it is a unit, and for every
/// prime factor `q` of `p - 1` the power `g^((p-1)/q)` is not 1.
pub open spec fn is_primitive_root(g: int, p: int) -> bool {
    g % p != 0 && forall|q: int| is_prime(q) && #[trigger] ((p - 1) % q) == 0 ==> passes_at(g, p, q)
}

/// The sum of the members of a sequence of words, in the integers.
pub open spec fn seq_sum(s: Seq<u64>) -> int
    decreases s.len(),
{
    if s.len() == 0 {
        0
    } else {
        seq_sum(s.drop_last()) + s.last() as int
    }
}

/// Replacing `(x, y)` by `(y, x mod y)` keeps the common divisors.
pub proof fn lemma_common_divisor_step(x: int, y: int, d: int)
    requires
        y > 0,
        d > 0,
    ensures
        is_common_divisor(d, x, y) <==> is_common_divisor(d, y, x % y),
{
    if y % d == 0 {
        let k = y / d;
        let q = x / y;
        lemma_fundamental_div_mod(y, d);
        lemma_fundamental_div_mod(x, y);
        assert(x == d * (k * q) + x % y) by (nonlinear_arith)
            requires
                x == y * q + x % y,
                y == d * k,
        ;
        lemma_mod_multiples_vanish(k * q, x % y, d);
    }
}

/// `spec_gcd(a, b)` is a common divisor of `a` and `b`, and every common
/// divisor divides it, so none is greater.
pub proof fn lemma_gcd_is_greatest(a: nat, b: nat)
    ensures
        a == 0 && b == 0 ==> spec_gcd(a, b) == 0,
        a != 0 || b != 0 ==> is_common_divisor(spec_gcd(a, b) as int, a as int, b as int),
        forall|d: int| is_common_divisor(d, a as int, b as int) ==> spec_gcd(a, b) as int % d == 0,
        a != 0 || b != 0 ==> forall|d: int|
            is_common_divisor(d, a as int, b as int) ==> d <= spec_gcd(a, b),
    decreases b,
{
    let g = spec_gcd(a, b) as int;
    if b == 0 {
        if a != 0 {
            lemma_mod_self_0(a as int);
        }
    } else {
        lemma_gcd_is_greatest(b, a % b);
        lemma_common_divisor_step(a as int, b as int, g);
        assert forall|d: int| is_common_divisor(d, a as int, b as int) implies g % d == 0 by {
            lemma_common_divisor_step(a as int, b as int, d);
        }
    }
    if a != 0 || b != 0 {
        assert forall|d: int| is_common_divisor(d, a as int, b as int) implies d <= g by {
            assert(g % d == 0);
            if d > g {
                lemma_small_mod(g as nat, d as nat);
            }
        }
    }
}

/// A divisor `q` of a positive `m` has the co-divisor `m / q`, which divides
/// `m` too, and the two multiply to `m`.
pub proof fn lemma_divisor_pair(m: int, q: int)
    requires
        m > 0,
        q > 0,
        m % q == 0,
    ensures
        m == q * (m / q),
        m / q >= 1,
        m % (m / q) == 0,
        m / (m / q) == q,
{
    let e = m / q;
    lemma_fundamental_div_mod(m, q);
    assert(e >= 1) by (nonlinear_arith)
        requires
            m == q * e,
            m > 0,
            q > 0,
    ;
    assert(m == e * q + 0) by (nonlinear_arith)
        requires
            m == q * e,
    ;
    lemma_fundamental_div_mod_converse(m, e, q, 0);
}

/// A number coprime to `n` has an inverse modulo `n`: its Bezout
/// coefficient.
pub proof fn lemma_unit_has_inverse(a: nat, n: nat)
    requires
        n > 0,
        spec_gcd(a, n) == 1,
    ensures
        (a * spec_extended_gcd(a as int, n as int).1) % (n as int) == 1int % (n as int),
{
    lemma_extended_gcd(a as int, n as int);
    let (g, x, y) = spec_extended_gcd(a as int, n as int);
    assert(a * x == 1 + (-y) * n) by (nonlinear_arith)
        requires
            a * x + n * y == 1,
    ;
    lemma_mod_multiples_vanish(-y, 1, n as int);
}

/// A factor with an inverse modulo `n` can be cancelled from a congruence.
pub proof fn lemma_cancel_unit(c: int, s: int, x: int, y: int, n: int)
    requires
        n > 0,
        (c * s) % n == 1int % n,
        (c * x) % n == (c * y) % n,
    ensures
        x % n == y % n,
{
    // x == (s*c)*x == s*(c*x) == s*(c*y) == (s*c)*y == y
    lemma_mul_mod_noop_left(c * s, x, n);
    lemma_mul_mod_noop_left(1, x, n);
    lemma_mul_mod_noop_left(c * s, y, n);
    lemma_mul_mod_noop_left(1, y, n);
    assert((c * s) * x == s * (c * x) && (c * s) * y == s * (c * y)) by (nonlinear_arith);
    lemma_mul_mod_noop_right(s, c * x, n);
    lemma_mul_mod_noop_right(s, c * y, n);
    assert(1 * x == x && 1 * y == y);
}

/// Among the powers `a^0, ..., a^n` two are equal modulo `n`.
pub proof fn lemma_powers_collide(a: int, n: int) -> (ij: (nat, nat))
    requires
        n > 0,
    ensures
        ij.0 < ij.1 <= n,
        pow(a, ij.0) % n == pow(a, ij.1) % n,
{
    let powers = Seq::new((n + 1) as nat, |i: int| pow(a, i as nat) % n);
    if powers.no_duplicates() {
        // n + 1 different residues would not fit below n
        powers.unique_seq_to_set();
        lemma_int_range(0, n);
        assert forall|v: int| powers.to_set().contains(v) implies set_int_range(0, n).contains(
            v,
        ) by {
            let i = choose|i: int| 0 <= i < powers.len() && powers[i] == v;
            lemma_mod_bound(pow(a, i as nat), n);
        }
        lemma_len_subset(powers.to_set(), set_int_range(0, n));
        assert(false);
    }
    let (i, j) = choose|i: int, j: int|
        0 <= i < powers.len() && 0 <= j < powers.len() && i != j && powers[i] == powers[j];
    if i < j {
        (i as nat, j as nat)
    } else {
        (j as nat, i as nat)
    }
}

/// A number coprime to `n` has an order modulo `n`, and it is at most `n`.
pub proof fn lemma_unit_has_order(a: nat, n: nat) -> (k: nat)
    requires
        n > 0,
        spec_gcd(a, n) == 1,
    ensures
        k <= n,
        is_unit_exponent(a as int, n as int, k),
{
    let ai = a as int;
    let ni = n as int;
    let s = spec_extended_gcd(ai, ni).1;
    lemma_unit_has_inverse(a, n);
    let (i, j) = lemma_powers_collide(ai, ni);
    let k = (j - i) as nat;
    // a^i has the inverse s^i
    assert((pow(ai, i) * pow(s, i)) % ni == 1int % ni) by {
        lemma_pow_distributes(ai, s, i);
        lemma_pow_mod_noop(ai * s, i, ni);
        if ni == 1 {
            lemma_mod_bound(pow(ai * s, i), 1);
        } else {
            lemma_small_mod(1, n);
            lemma1_pow(i);
        }
    }
    lemma_pow_adds(ai, i, k);
    assert(pow(ai, i) * 1 == pow(ai, i));
    lemma_cancel_unit(pow(ai, i), pow(s, i), 1, pow(ai, k), ni);
    k
}

/// Modular exponentiation on unsigned words by repeated squaring.
pub fn mod_exp(base: u64, exp: u64, modulus: u64) -> (r: u64)
    requires
        modulus > 0,
    ensures
        r == spec_mod_pow(base as int, exp as nat, modulus as int),
        exp > 0 ==> r < modulus,
{
    let mut result: u64 = 1;
    let mut b: u64 = base % modulus;
    let mut e: u64 = exp;
    while e > 0
        invariant
            modulus > 0,
            e <= exp,
            b < modulus,
            exp == 0 ==> result == 1,
            exp > 0 && e == 0 ==> result < modulus,
            exp > 0 ==> (result as int * pow(b as int, e as nat)) % (modulus as int) == pow(
                (base as int) % (modulus as int),
                exp as nat,
            ) % (modulus as int),
        decreases e,
    {
        proof {
            lemma_square_multiply_step(result as int, b as int, e as nat, modulus as int);
        }
        if e % 2 == 1 {
            result = mul_mod_u64(result, b, modulus);
        }
        e = e / 2;
        b = mul_mod_u64(b, b, modulus);
    }
    proof {
        if exp > 0 {
            lemma_pow0(b as int);
            assert(result as int * 1 == result);
            lemma_small_mod(result as nat, modulus as nat);
        }
    }
    result
}

/// The product of two words modulo `m`, formed in 128 bits.
pub fn mul_mod_u64(a: u64, b: u64, m: u64) -> (r: u64)
    requires
        m > 0,
    ensures
        r == (a as int * b as int) % (m as int),
        r < m,
{
    assert(0 <= (a as int) * (b as int) < 0x1_0000_0000_0000_0000_0000_0000_0000_0000)
        by (nonlinear_arith)
        requires
            0 <= a < 0x1_0000_0000_0000_0000,
            0 <= b < 0x1_0000_0000_0000_0000,
    ;
    let wide: u128 = (a as u128) * (b as u128);
    (wide % (m as u128)) as u64
}

/// The sum of the words modulo `2^64`.
pub fn sum_words(words: &[u64]) -> (r: u64)
    ensures
        r == seq_sum(words@) % 0x1_0000_0000_0000_0000,
{
    let mut acc: u64 = 0;
    let mut i: usize = 0;
    assert(words@.take(0) =~= Seq::<u64>::empty());
    while i < words.len()
        invariant
            i <= words.len(),
            acc == seq_sum(words@.take(i as int)) % 0x1_0000_0000_0000_0000,
        decreases words.len() - i,
    {
        let wide: u128 = (acc as u128 + words[i] as u128) % 0x1_0000_0000_0000_0000u128;
        proof {
            let next = words@.take(i + 1);
            assert(next.drop_last() =~= words@.take(i as int));
            assert(next.last() == words[i as int]);
            lemma_add_mod_noop_right(
                words[i as int] as int,
                seq_sum(words@.take(i as int)),
                0x1_0000_0000_0000_0000,
            );
        }
        acc = wide as u64;
        i = i + 1;
    }
    assert(words@.take(words.len() as int) =~= words@);
    acc
}

/// The greatest common divisor by the Euclidean algorithm.
pub fn gcd(a: u64, b: u64) -> (g: u64)
    ensures
        g == spec_gcd(a as nat, b as nat),
        a == 0 && b == 0 ==> g == 0,
        a != 0 || b != 0 ==> is_common_divisor(g as int, a as int, b as int),
        a != 0 || b != 0 ==> forall|d: int| is_common_divisor(d, a as int, b as int) ==> d <= g,
{
    let mut x: u64 = a;
    let mut y: u64 = b;
    while y != 0
        invariant
            spec_gcd(x as nat, y as nat) == spec_gcd(a as nat, b as nat),
        decreases y,
    {
        let r: u64 = x % y;
        x = y;
        y = r;
    }
    proof {
        lemma_gcd_is_greatest(a as nat, b as nat);
    }
    x
}

/// The multiplicative order of `a` modulo `n`: the least `k >= 1` with
/// `a^k == 1`.
///
/// There is one exactly when `a` and `n` are coprime, and it is at most `n`.
pub fn element_order(a: u64, n: u64) -> (r: Option<u64>)
    requires
        n > 0,
    ensures
        r is Some <==> spec_gcd(a as nat, n as nat) == 1,
        r matches Some(k) ==> k <= n && is_unit_exponent(a as int, n as int, k as nat) && forall|
            j: nat,
        | j < k ==> !is_unit_exponent(a as int, n as int, j),
{
    if gcd(a, n) != 1 {
        return None;
    }
    let one: u64 = 1 % n;
    let mut val: u64 = a % n;
    let mut k: u64 = 1;
    proof {
        lemma_pow1(a as int);
    }
    loop
        invariant
            n > 0,
            1 <= k <= n,
            one == 1int % (n as int),
            spec_gcd(a as nat, n as nat) == 1,
            val == pow(a as int, k as nat) % (n as int),
            forall|j: nat| j < k ==> !is_unit_exponent(a as int, n as int, j),
        decreases n - k,
    {
        if val == one {
            return Some(k);
        }
        proof {
            let ai = a as int;
            // the order is at most n and is not among the exponents tried
            let order = lemma_unit_has_order(a as nat, n as nat);
            assert(order > k);
            assert(pow(ai, (k + 1) as nat) == ai * pow(ai, k as nat)) by {
                reveal(pow);
            }
            lemma_mul_mod_noop_left(pow(ai, k as nat), ai, n as int);
            assert(pow(ai, k as nat) * ai == ai * pow(ai, k as nat)) by (nonlinear_arith);
        }
        val = mul_mod_u64(val, a, n);
        k = k + 1;
    }
}

/// Whether the power `g^((p-1)/q)` differs from 1, for a divisor `q` of
/// `p - 1`.
fn passes(g: u64, p: u64, q: u64) -> (r: bool)
    requires
        p >= 2,
        q >= 1,
    ensures
        r == passes_at(g as int, p as int, q as int),
{
    let e: u64 = (p - 1) / q;
    let v: u64 = mod_exp(g, e, p);
    proof {
        lemma_pow_mod_noop(g as int, e as nat, p as int);
        lemma_pow0(g as int);
        lemma_small_mod(1, p as nat);
    }
    v != 1
}

/// Whether `g` generates the units modulo the prime `p`.
///
/// The prime factors of `p - 1` are found by trial division: each divisor
/// `d` up to the square root is looked at together with `(p - 1) / d`.
pub fn is_generator(g: u64, p: u64) -> (r: bool)
    requires
        p >= 2,
    ensures
        r == is_primitive_root(g as int, p as int),
{
    if g % p == 0 {
        return false;
    }
    let m: u64 = p - 1;
    if check_prime(m) && !passes(g, p, m) {
        proof {
            lemma_mod_self_0(m as int);
            assert((p as int - 1) % (m as int) == 0);
        }
        return false;
    }
    let mut d: u64 = 2;
    proof {
        assert forall|q: int|
            is_prime(q) && #[trigger] (m as int % q) == 0 && (q < d || m as int / q
                < d) implies passes_at(g as int, p as int, q) by {
            lemma_divisor_pair(m as int, q);
            assert(q * 1 == q);
        }
    }
    while d <= m / d
        invariant
            p >= 2,
            m == p - 1,
            g % p != 0,
            2 <= d,
            is_prime(m as int) ==> passes_at(g as int, p as int, m as int),
            forall|q: int|
                is_prime(q) && #[trigger] (m as int % q) == 0 && (q < d || m as int / q < d)
                    ==> passes_at(g as int, p as int, q),
        decreases m - d,
    {
        proof {
            lemma_fundamental_div_mod(m as int, d as int);
            lemma_mod_bound(m as int, d as int);
            assert(d * 2 <= m) by (nonlinear_arith)
                requires
                    m == d * (m / d) + m % d,
                    0 <= m % d,
                    2 <= d <= m / d,
            ;
        }
        if m % d == 0 {
            let e: u64 = m / d;
            if check_prime(d) && !passes(g, p, d) {
                return false;
            }
            if check_prime(e) && !passes(g, p, e) {
                proof {
                    assert(m == e * d) by (nonlinear_arith)
                        requires
                            m == d * e,
                    ;
                    lemma_mod_multiples_basic(d as int, e as int);
                    assert(m as int % (e as int) == 0);
                }
                return false;
            }
        }
        proof {
            assert forall|q: int|
                is_prime(q) && #[trigger] (m as int % q) == 0 && (q < d + 1 || m as int / q < d
                    + 1) implies passes_at(g as int, p as int, q) by {
                if q == d {
                } else if m as int / q == d {
                    lemma_divisor_pair(m as int, q);
                }
            }
        }
        d = d + 1;
    }
    proof {
        assert forall|q: int| is_prime(q) && #[trigger] (m as int % q) == 0 implies passes_at(
            g as int,
            p as int,
            q,
        ) by {
            if m > 0 {
                lemma_divisor_pair(m as int, q);
                if q >= d && m as int / q >= d {
                    lemma_fundamental_div_mod(m as int, d as int);
                    lemma_mod_bound(m as int, d as int);
                    assert(false) by (nonlinear_arith)
                        requires
                            m == q * (m as int / q),
                            q >= d,
                            m as int / q >= d,
                            m == d * (m / d) + m % d,
                            m % d < d,
                            m / d < d,
                            d >= 2,
                    ;
                }
                if m as int / q == 1 {
                    assert(q * 1 == q);
                }
            } else {
                lemma_pow0(g as int);
                lemma_div_basics_1(q);
                lemma_small_mod((g % p) as nat, p as nat);
            }
        }
    }
    true
}

/// All generators of the units modulo the prime `p`, in increasing order.
pub fn find_all_generators(p: u64) -> (r: Vec<u64>)
    ensures
        forall|i: int, j: int| 0 <= i < j < r.len() ==> r[i] < r[j],
        forall|g: u64| #[trigger]
            r@.contains(g) ==> 1 <= g < p && is_primitive_root(g as int, p as int),
        forall|g: u64|
            1 <= g < p && #[trigger] is_primitive_root(g as int, p as int) ==> r@.contains(g),
{
    let mut out: Vec<u64> = Vec::new();
    if p < 2 {
        return out;
    }
    let mut g: u64 = 1;
    while g < p
        invariant
            p >= 2,
            1 <= g <= p,
            forall|i: int, j: int| 0 <= i < j < out.len() ==> out[i] < out[j],
            forall|i: int| 0 <= i < out.len() ==> out[i] < g,
            forall|h: u64| #[trigger]
                out@.contains(h) ==> 1 <= h < g && is_primitive_root(h as int, p as int),
            forall|h: u64|
                1 <= h < g && #[trigger] is_primitive_root(h as int, p as int) ==> out@.contains(h),
        decreases p - g,
    {
        let ghost before = out@;
        let found: bool = is_generator(g, p);
        if found {
            out.push(g);
        }
        proof {
            assert forall|h: u64| #[trigger] out@.contains(h) implies 1 <= h < g + 1
                && is_primitive_root(h as int, p as int) by {
                let i = choose|i: int| 0 <= i < out@.len() && out@[i] == h;
                if i < before.len() {
                    assert(before[i] == h);
                    assert(before.contains(h));
                }
            }
            assert forall|h: u64|
                1 <= h < g + 1 && #[trigger] is_primitive_root(
                    h as int,
                    p as int,
                ) implies out@.contains(h) by {
                if h < g {
                    assert(before.contains(h));
                    let i = choose|i: int| 0 <= i < before.len() && before[i] == h;
                    assert(out@[i] == h);
                } else {
                    assert(out@[before.len() as int] == g);
                }
            }
        }
        g = g + 1;
    }
    out
}

} // verus!
