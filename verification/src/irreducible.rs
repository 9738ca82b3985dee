//! Irreducibility of polynomials over a prime field, by trial division.

use crate::polynomial::{
    coeff, conv_coeff, conv_partial, defect, degree_mod, is_division, is_reduced_poly,
    lemma_degree_mod, lemma_trimmed_canonical, poly_div_rem, trimmed,
};
use crate::primes::{is_prime, lemma_prime_divides_product};
use vstd::arithmetic::div_mod::*;
use vstd::arithmetic::power::*;
use vstd::prelude::*;

verus! {

/// `g` has the degree `d`, the leading coefficient 1 and residues as
/// coefficients.
pub open spec fn is_monic_of_degree(g: Seq<u64>, d: int, p: int) -> bool {
    g.len() == d + 1 && g[d] == 1 && is_reduced_poly(g, p)
}

/// `g` divides `f` modulo `p`: `f == q * g` for some `q`.
pub open spec fn divides(g: Seq<u64>, f: Seq<u64>, p: int) -> bool {
    exists|q: Seq<u64>| is_division(f, g, q, seq![0u64], p)
}

/// The polynomial has a degree of at least 1 and no monic divisor of a
/// degree from 1 up to half its own.
pub open spec fn spec_irreducible(f: Seq<u64>, p: int) -> bool {
    degree_mod(f, p) >= 1 && forall|g: Seq<u64>, d: int|
        1 <= d && 2 * d <= degree_mod(f, p) && #[trigger] is_monic_of_degree(g, d, p) ==> !divides(
            g,
            f,
            p,
        )
}

/// The number whose digits to the base `p` are the members of `s`, the
/// lowest first.
pub open spec fn digits_value(s: Seq<u64>, p: int) -> int
    decreases s.len(),
{
    if s.len() == 0 {
        0
    } else {
        s[0] as int + p * digits_value(s.drop_first(), p)
    }
}

/// The lowest `d` digits of `t` to the base `p`, the lowest first.
pub open spec fn digits_of(t: int, d: nat, p: int) -> Seq<u64>
    decreases d,
{
    if d == 0 {
        Seq::empty()
    } else {
        seq![(t % p) as u64] + digits_of(t / p, (d - 1) as nat, p)
    }
}

/// The sum of `u(i) * g[k - i]` over `i < n`.
pub open spec fn weighted_sum(u: spec_fn(int) -> int, g: Seq<u64>, k: int, n: nat) -> int
    decreases n,
{
    if n == 0 {
        0
    } else {
        weighted_sum(u, g, k, (n - 1) as nat) + u(n - 1) * coeff(g, k - (n - 1))
    }
}

/// The digits of a number below `p^d` are residues, and they are the
/// digits of no other number below `p^d`.
pub proof fn lemma_digits_roundtrip(s: Seq<u64>, p: int)
    requires
        p >= 2,
        is_reduced_poly(s, p),
    ensures
        0 <= digits_value(s, p) < pow(p, s.len()),
        digits_of(digits_value(s, p), s.len(), p) == s,
    decreases s.len(),
{
    if s.len() == 0 {
        lemma_pow0(p);
        assert(digits_of(0, 0, p) =~= s);
    } else {
        let rest = s.drop_first();
        assert(is_reduced_poly(rest, p)) by {
            assert forall|i: int| 0 <= i < rest.len() implies #[trigger] rest[i] < p by {
                assert(rest[i] == s[i + 1]);
            }
        }
        lemma_digits_roundtrip(rest, p);
        let v = digits_value(rest, p);
        let t = digits_value(s, p);
        assert(s[0] < p);
        assert(t == v * p + s[0]) by (nonlinear_arith)
            requires
                t == s[0] + p * v,
        ;
        lemma_fundamental_div_mod_converse(t, p, v, s[0] as int);
        assert(pow(p, s.len()) == p * pow(p, rest.len())) by {
            reveal(pow);
        }
        assert(t < p * pow(p, rest.len())) by (nonlinear_arith)
            requires
                t == s[0] + p * v,
                s[0] < p,
                0 <= v < pow(p, rest.len()),
        ;
        assert(0 <= t) by (nonlinear_arith)
            requires
                t == s[0] + p * v,
                0 <= v,
                p >= 2,
                s[0] >= 0,
        ;
        assert(digits_of(t, s.len(), p) =~= s);
    }
}

/// The digits of a number are residues.
pub proof fn lemma_digits_of(t: int, d: nat, p: int)
    requires
        p >= 2,
        p <= u64::MAX,
    ensures
        digits_of(t, d, p).len() == d,
        is_reduced_poly(digits_of(t, d, p), p),
    decreases d,
{
    if d > 0 {
        lemma_digits_of(t / p, (d - 1) as nat, p);
        lemma_mod_bound(t, p);
        let s = digits_of(t, d, p);
        let rest = digits_of(t / p, (d - 1) as nat, p);
        assert forall|i: int| 0 <= i < s.len() implies #[trigger] s[i] < p by {
            if i > 0 {
                assert(s[i] == rest[i - 1]);
            }
        }
    }
}

/// The difference of two convolutions with the same second factor is the
/// weighted sum of the differences of the coefficients.
proof fn lemma_conv_difference(q1: Seq<u64>, q2: Seq<u64>, g: Seq<u64>, k: int, n: nat)
    ensures
        conv_partial(q1, g, k, n) - conv_partial(q2, g, k, n) == weighted_sum(
            |i: int| coeff(q1, i) - coeff(q2, i),
            g,
            k,
            n,
        ),
    decreases n,
{
    if n > 0 {
        lemma_conv_difference(q1, q2, g, k, (n - 1) as nat);
        let c = coeff(g, k - (n - 1));
        assert(coeff(q1, n - 1) * c - coeff(q2, n - 1) * c == (coeff(q1, n - 1) - coeff(q2, n - 1))
            * c) by (nonlinear_arith);
    }
}

/// A weighted sum in which every term but the one at `m` is a multiple of
/// `p` is that term modulo `p`.
proof fn lemma_weighted_sum_one_term(
    u: spec_fn(int) -> int,
    g: Seq<u64>,
    k: int,
    n: nat,
    m: int,
    p: int,
)
    requires
        p > 0,
        forall|i: int| 0 <= i < n && i != m ==> (#[trigger] u(i) * coeff(g, k - i)) % p == 0,
    ensures
        weighted_sum(u, g, k, n) % p == (if 0 <= m < n {
            u(m) * coeff(g, k - m)
        } else {
            0
        }) % p,
    decreases n,
{
    if n > 0 {
        lemma_weighted_sum_one_term(u, g, k, (n - 1) as nat, m, p);
        let before = weighted_sum(u, g, k, (n - 1) as nat);
        let term = u(n - 1) * coeff(g, k - (n - 1));
        lemma_add_mod_noop(before, term, p);
        if n - 1 == m {
            lemma_small_mod(0, p as nat);
            lemma_mod_twice(term, p);
        } else {
            assert(term % p == 0);
            let kept = if 0 <= m < n { u(m) * coeff(g, k - m) } else { 0 };
            lemma_mod_twice(kept, p);
            lemma_add_mod_noop(kept, 0, p);
        }
    }
}

/// Beyond the degree of `g` modulo `p` every coefficient is a multiple of
/// `p`.
proof fn lemma_coeff_beyond_degree(g: Seq<u64>, p: int, j: int)
    requires
        p > 0,
        j > degree_mod(g, p) || j < 0,
    ensures
        coeff(g, j) % p == 0,
{
    lemma_degree_mod(g, p);
    lemma_small_mod(0, p as nat);
}

/// Two quotients of the same division agree modulo `p` from the place `j`
/// upward.
proof fn lemma_quotients_agree(
    f: Seq<u64>,
    g: Seq<u64>,
    q1: Seq<u64>,
    r1: Seq<u64>,
    q2: Seq<u64>,
    r2: Seq<u64>,
    p: int,
    j: int,
)
    requires
        is_prime(p),
        degree_mod(g, p) >= 0,
        is_division(f, g, q1, r1, p),
        is_division(f, g, q2, r2, p),
        forall|k: int| degree_mod(g, p) <= k ==> coeff(r1, k) == 0 && coeff(r2, k) == 0,
        0 <= j,
    ensures
        forall|i: int| j <= i ==> (coeff(q1, i) - coeff(q2, i)) % p == 0,
    decreases (if q1.len() >= q2.len() { q1.len() } else { q2.len() }) - j,
{
    let top = if q1.len() >= q2.len() { q1.len() } else { q2.len() };
    let dg = degree_mod(g, p);
    let u = |i: int| coeff(q1, i) - coeff(q2, i);
    lemma_small_mod(0, p as nat);
    if j >= top {
        assert forall|i: int| j <= i implies (coeff(q1, i) - coeff(q2, i)) % p == 0 by {}
    } else {
        lemma_quotients_agree(f, g, q1, r1, q2, r2, p, j + 1);
        lemma_degree_mod(g, p);
        let k = j + dg;
        let n = (k + 1) as nat;
        // the coefficient of x^k in (q1 - q2) * g is a multiple of p
        lemma_conv_difference(q1, q2, g, k, n);
        let e1 = defect(f, g, q1, r1, k);
        let e2 = defect(f, g, q2, r2, k);
        assert(e1 % p == 0 && e2 % p == 0);
        lemma_sub_mod_noop(e2, e1, p);
        assert(weighted_sum(u, g, k, n) == e2 - e1);
        // and every term of it but the one at j is one
        assert forall|i: int| 0 <= i < n && i != j implies (#[trigger] u(i) * coeff(g, k - i)) % p
            == 0 by {
            if i > j {
                lemma_mul_mod_noop_left(u(i), coeff(g, k - i), p);
                assert(0 * coeff(g, k - i) == 0);
            } else {
                lemma_coeff_beyond_degree(g, p, k - i);
                lemma_mul_mod_noop_right(u(i), coeff(g, k - i), p);
                assert(u(i) * 0 == 0);
            }
        }
        lemma_weighted_sum_one_term(u, g, k, n, j, p);
        assert((u(j) * coeff(g, dg)) % p == 0);
        lemma_prime_divides_product(u(j), coeff(g, dg), p);
        assert(u(j) % p == 0);
        assert forall|i: int| j <= i implies (coeff(q1, i) - coeff(q2, i)) % p == 0 by {
            if i == j {
                assert(u(j) == coeff(q1, j) - coeff(q2, j));
            }
        }
    }
}

/// The remainder of a division modulo a prime is unique: two divisions of
/// `f` by `g` whose remainders have a lower degree than `g` and hold
/// residues have the same remainder.
pub proof fn lemma_remainder_unique(
    f: Seq<u64>,
    g: Seq<u64>,
    q1: Seq<u64>,
    r1: Seq<u64>,
    q2: Seq<u64>,
    r2: Seq<u64>,
    p: int,
)
    requires
        is_prime(p),
        degree_mod(g, p) >= 0,
        is_division(f, g, q1, r1, p),
        is_division(f, g, q2, r2, p),
        forall|k: int| degree_mod(g, p) <= k ==> coeff(r1, k) == 0 && coeff(r2, k) == 0,
        is_reduced_poly(r1, p),
        is_reduced_poly(r2, p),
    ensures
        forall|k: int| 0 <= k ==> coeff(r1, k) == coeff(r2, k),
{
    let u = |i: int| coeff(q1, i) - coeff(q2, i);
    lemma_quotients_agree(f, g, q1, r1, q2, r2, p, 0);
    lemma_small_mod(0, p as nat);
    assert forall|k: int| 0 <= k implies coeff(r1, k) == coeff(r2, k) by {
        let n = (k + 1) as nat;
        lemma_conv_difference(q1, q2, g, k, n);
        assert forall|i: int| 0 <= i < n && i != -1 implies (#[trigger] u(i) * coeff(g, k - i)) % p
            == 0 by {
            lemma_mul_mod_noop_left(u(i), coeff(g, k - i), p);
            assert(0 * coeff(g, k - i) == 0);
        }
        lemma_weighted_sum_one_term(u, g, k, n, -1, p);
        let e1 = defect(f, g, q1, r1, k);
        let e2 = defect(f, g, q2, r2, k);
        assert(e1 % p == 0 && e2 % p == 0);
        lemma_sub_mod_noop(e2, e1, p);
        let s = weighted_sum(u, g, k, n);
        assert(e2 - e1 == s + (coeff(r1, k) - coeff(r2, k)));
        lemma_sub_mod_noop(e2 - e1, s, p);
        assert((coeff(r1, k) - coeff(r2, k)) % p == 0);
        lemma_mod_equivalence(coeff(r1, k), coeff(r2, k), p);
        lemma_small_mod(coeff(r1, k) as nat, p as nat);
        lemma_small_mod(coeff(r2, k) as nat, p as nat);
    }
}

/// The monic polynomial of degree `d` whose lower coefficients are the
/// digits of `t`.
fn candidate(t: u64, d: usize, p: u64) -> (g: Vec<u64>)
    requires
        p >= 2,
        d < usize::MAX,
    ensures
        g@ == digits_of(t as int, d as nat, p as int).push(1),
        is_monic_of_degree(g@, d as int, p as int),
{
    let mut g: Vec<u64> = Vec::new();
    let mut rest: u64 = t;
    let mut i: usize = 0;
    let ghost pi = p as int;
    proof {
        lemma_digits_of(t as int, d as nat, pi);
    }
    while i < d
        invariant
            p >= 2,
            pi == p,
            i <= d,
            g.len() == i,
            g@ + digits_of(rest as int, (d - i) as nat, pi) == digits_of(t as int, d as nat, pi),
        decreases d - i,
    {
        let ghost before = g@;
        g.push(rest % p);
        proof {
            assert(g@ + digits_of((rest / p) as int, (d - i - 1) as nat, pi) =~= before + digits_of(
                rest as int,
                (d - i) as nat,
                pi,
            ));
        }
        rest = rest / p;
        i = i + 1;
    }
    proof {
        assert(g@ =~= digits_of(t as int, d as nat, pi));
    }
    g.push(1);
    g
}

/// Whether a trimmed remainder is the zero polynomial.
fn is_zero_remainder(r: &Vec<u64>) -> (z: bool)
    requires
        r.len() >= 1,
        r@ == trimmed(r@),
    ensures
        z == (forall|k: int| 0 <= k ==> coeff(r@, k) == 0),
        z == (r@ == seq![0u64]),
{
    proof {
        lemma_trimmed_canonical(r@);
        if r.len() == 1 && r[0] == 0 {
            assert(r@ =~= seq![0u64]);
        } else {
            assert(coeff(r@, r.len() - 1) != 0);
        }
    }
    r.len() == 1 && r[0] == 0
}

/// Whether the polynomial is irreducible modulo the prime `p`, by trial
/// division by every monic polynomial of a degree from 1 up to half its
/// own.
///
/// There are `p^d` monic polynomials of degree `d`; this number must fit in
/// a word for `d` up to half the degree.
pub fn is_irreducible_mod_p(coeffs: &[u64], p: u64) -> (r: bool)
    requires
        is_prime(p as int),
        pow(p as int, (coeffs.len() / 2) as nat) <= u64::MAX,
    ensures
        r == spec_irreducible(coeffs@, p as int),
{
    let ghost pi = p as int;
    let ghost f = coeffs@;
    proof {
        lemma_degree_mod(f, pi);
    }
    // the degree modulo p
    let mut len: usize = coeffs.len();
    assert(f.take(len as int) =~= f);
    while len > 0 && coeffs[len - 1] % p == 0
        invariant
            len <= coeffs.len(),
            p >= 2,
            pi == p,
            f == coeffs@,
            degree_mod(f.take(len as int), pi) == degree_mod(f, pi),
        decreases len,
    {
        proof {
            assert(f.take(len as int).drop_last() =~= f.take(len - 1));
            assert(f.take(len as int).last() == f[len - 1]);
        }
        len = len - 1;
    }
    proof {
        if len > 0 {
            assert(f.take(len as int).last() == f[len - 1]);
        }
        assert(degree_mod(f, pi) == len - 1);
    }
    if len < 2 {
        return false;
    }
    let n: usize = len - 1;
    let mut d: usize = 1;
    while d <= n / 2
        invariant
            is_prime(pi),
            pi == p,
            f == coeffs@,
            n == degree_mod(f, pi),
            n >= 1,
            n < coeffs.len(),
            pow(pi, (coeffs.len() / 2) as nat) <= u64::MAX,
            1 <= d <= n / 2 + 1,
            forall|g: Seq<u64>, e: int|
                1 <= e < d && #[trigger] is_monic_of_degree(g, e, pi) ==> !divides(g, f, pi),
        decreases n / 2 + 1 - d,
    {
        proof {
            lemma_pow_increases(p as nat, d as nat, (coeffs.len() / 2) as nat);
            lemma_pow_positive(pi, d as nat);
        }
        let count: u64 = power(p, d);
        let mut t: u64 = 0;
        proof {
            assert forall|g: Seq<u64>| #[trigger]
                is_monic_of_degree(g, d as int, pi) && digits_value(g.take(d as int), pi)
                    < 0 implies !divides(g, f, pi) by {
                lemma_low_digits(g, d as int, pi);
            }
        }
        while t < count
            invariant
                is_prime(pi),
                pi == p,
                f == coeffs@,
                n == degree_mod(f, pi),
                d <= n / 2,
                1 <= d < usize::MAX,
                count == pow(pi, d as nat),
                t <= count,
                forall|g: Seq<u64>| #[trigger]
                    is_monic_of_degree(g, d as int, pi) && digits_value(g.take(d as int), pi) < t
                        ==> !divides(g, f, pi),
            decreases count - t,
        {
            let g: Vec<u64> = candidate(t, d, p);
            proof {
                assert(g@.last() == 1);
                lemma_degree_of_monic(g@, d as int, pi);
            }
            let (q, rem) = poly_div_rem(coeffs, g.as_slice(), p);
            if is_zero_remainder(&rem) {
                proof {
                    assert(is_division(f, g@, q@, seq![0u64], pi));
                    assert(divides(g@, f, pi));
                    assert(2 * d <= n);
                }
                return false;
            }
            proof {
                // the remainder is unique, so no quotient leaves the remainder 0
                if divides(g@, f, pi) {
                    let q2 = choose|q2: Seq<u64>| is_division(f, g@, q2, seq![0u64], pi);
                    lemma_remainder_unique(f, g@, q@, rem@, q2, seq![0u64], pi);
                }
                // and g is the only monic polynomial with these digits
                assert forall|h: Seq<u64>| #[trigger]
                    is_monic_of_degree(h, d as int, pi) && digits_value(h.take(d as int), pi) < t
                        + 1 implies !divides(h, f, pi) by {
                    if digits_value(h.take(d as int), pi) == t {
                        lemma_low_digits(h, d as int, pi);
                        assert(h =~= h.take(d as int).push(1));
                        assert(h == g@);
                    }
                }
            }
            t = t + 1;
        }
        proof {
            assert forall|g: Seq<u64>, e: int|
                1 <= e < d + 1 && #[trigger] is_monic_of_degree(g, e, pi) implies !divides(
                g,
                f,
                pi,
            ) by {
                if e == d {
                    lemma_low_digits(g, d as int, pi);
                }
            }
        }
        d = d + 1;
    }
    true
}

/// The lower coefficients of a monic polynomial of degree `d` are the
/// digits of a number below `p^d`.
proof fn lemma_low_digits(g: Seq<u64>, d: int, p: int)
    requires
        p >= 2,
        d >= 0,
        is_monic_of_degree(g, d, p),
    ensures
        0 <= digits_value(g.take(d), p) < pow(p, d as nat),
        digits_of(digits_value(g.take(d), p), d as nat, p) == g.take(d),
{
    let low = g.take(d);
    assert forall|i: int| 0 <= i < low.len() implies #[trigger] low[i] < p by {
        assert(low[i] == g[i]);
    }
    lemma_digits_roundtrip(low, p);
}

/// A monic polynomial of degree `d` has the degree `d` modulo `p`.
proof fn lemma_degree_of_monic(g: Seq<u64>, d: int, p: int)
    requires
        p >= 2,
        d >= 0,
        is_monic_of_degree(g, d, p),
    ensures
        degree_mod(g, p) == d,
{
    lemma_small_mod(1, p as nat);
    assert(g.last() == 1);
}

/// The power `p^d`, which must fit in a word.
fn power(p: u64, d: usize) -> (m: u64)
    requires
        p >= 1,
        pow(p as int, d as nat) <= u64::MAX,
    ensures
        m == pow(p as int, d as nat),
{
    let mut m: u64 = 1;
    let mut i: usize = 0;
    proof {
        lemma_pow0(p as int);
    }
    while i < d
        invariant
            p >= 1,
            i <= d,
            m == pow(p as int, i as nat),
            pow(p as int, d as nat) <= u64::MAX,
        decreases d - i,
    {
        proof {
            let pi = p as int;
            assert(pow(pi, (i + 1) as nat) == pi * pow(pi, i as nat)) by {
                reveal(pow);
            }
            lemma_pow_increases(p as nat, (i + 1) as nat, d as nat);
            assert(m * p == p * m) by (nonlinear_arith);
        }
        m = m * p;
        i = i + 1;
    }
    m
}

} // verus!
