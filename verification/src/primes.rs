//! Prime moduli: Euclid's lemma, Fermat's little theorem and the inverse
//! that follows from it.

use crate::field::spec_mod_inv;
use vstd::arithmetic::div_mod::*;
use vstd::arithmetic::mul::*;
use vstd::arithmetic::power::*;
use vstd::prelude::*;
use vstd::seq_lib::*;
use vstd::set_lib::*;

verus! {

/// `p` is at least 2 and no number strictly between 1 and `p` divides it.
pub open spec fn is_prime(p: int) -> bool {
    p >= 2 && forall|d: int| 2 <= d < p ==> #[trigger] (p % d) != 0
}

/// Euclid's lemma for a factor below the prime, by descent on that factor.
proof fn lemma_euclid_small(r: nat, b: int, p: int)
    requires
        is_prime(p),
        0 < r < p,
        (r * b) % p == 0,
    ensures
        b % p == 0,
    decreases r,
{
    if r == 1 {
        assert(1 * b == b);
    } else {
        let d = r as int;
        let q = p / d;
        let s = p % d;
        assert(s != 0);
        lemma_fundamental_div_mod(p, d);
        lemma_mod_pos_bound(p, d);
        let k = (d * b) / p;
        lemma_fundamental_div_mod(d * b, p);
        assert(s * b == (b - q * k) * p) by (nonlinear_arith)
            requires
                p == d * q + s,
                d * b == p * k,
        ;
        lemma_mod_multiples_basic(b - q * k, p);
        lemma_euclid_small(s as nat, b, p);
    }
}

/// Euclid's lemma: a prime that divides a product divides one of the factors.
pub proof fn lemma_prime_divides_product(a: int, b: int, p: int)
    requires
        is_prime(p),
        (a * b) % p == 0,
    ensures
        a % p == 0 || b % p == 0,
{
    let r = a % p;
    if r != 0 {
        lemma_mod_bound(a, p);
        lemma_mul_mod_noop_left(a, b, p);
        lemma_euclid_small(r as nat, b, p);
    }
}

/// A factor that the prime does not divide can be cancelled from a congruence.
pub proof fn lemma_cancel_factor(a: int, x: int, y: int, p: int)
    requires
        is_prime(p),
        a % p != 0,
        (a * x) % p == (a * y) % p,
    ensures
        x % p == y % p,
{
    lemma_mod_equivalence(a * x, a * y, p);
    assert(a * (x - y) == a * x - a * y) by (nonlinear_arith);
    lemma_prime_divides_product(a, x - y, p);
    lemma_mod_equivalence(x, y, p);
}

/// Multiplication, as the operator of a fold.
pub open spec fn mul_op() -> spec_fn(int, int) -> int {
    |acc: int, x: int| acc * x
}

/// The product of the members of a sequence.
pub open spec fn seq_product(s: Seq<int>) -> int {
    s.fold_left(1int, mul_op())
}

/// The residues of `a, 2a, ..., n*a` modulo `p`.
pub open spec fn multiples(a: int, p: int, n: nat) -> Seq<int> {
    Seq::new(n, |i: int| (a * (i + 1)) % p)
}

/// The numbers `1, 2, ..., n`.
pub open spec fn units(n: nat) -> Seq<int> {
    Seq::new(n, |i: int| i + 1)
}

proof fn lemma_product_push(s: Seq<int>)
    requires
        s.len() > 0,
    ensures
        seq_product(s) == seq_product(s.drop_last()) * s.last(),
{
}

/// The product of the first `n` multiples of `a` is `a^n * n!` modulo `p`.
proof fn lemma_multiples_product(a: int, p: int, n: nat)
    requires
        p > 0,
    ensures
        seq_product(multiples(a, p, n)) % p == (pow(a, n) * seq_product(units(n))) % p,
    decreases n,
{
    if n == 0 {
        lemma_pow0(a);
    } else {
        let m = (n - 1) as nat;
        let s = multiples(a, p, n);
        let u = units(n);
        assert(s.drop_last() =~= multiples(a, p, m));
        assert(u.drop_last() =~= units(m));
        lemma_product_push(s);
        lemma_product_push(u);
        lemma_multiples_product(a, p, m);
        let big_a = seq_product(multiples(a, p, m));
        let big_u = seq_product(units(m));
        let pw = pow(a, m);
        assert(s.last() == (a * n) % p);
        assert(u.last() == n);
        assert(pow(a, n) == a * pw) by {
            reveal(pow);
        }
        assert((big_a * ((a * n) % p)) % p == ((pw * big_u) * (a * n)) % p) by {
            lemma_mul_mod_noop_general(big_a, a * n, p);
            lemma_mul_mod_noop_general(pw * big_u, a * n, p);
            lemma_mul_mod_noop_right(big_a, a * n, p);
        }
        assert((pw * big_u) * (a * n) == (a * pw) * (big_u * n)) by (nonlinear_arith);
    }
}

/// A prime divides no product of numbers below it.
proof fn lemma_units_product_nonzero(p: int, n: nat)
    requires
        is_prime(p),
        n < p,
    ensures
        seq_product(units(n)) % p != 0,
    decreases n,
{
    if n == 0 {
        lemma_small_mod(1, p as nat);
    } else {
        let m = (n - 1) as nat;
        let u = units(n);
        assert(u.drop_last() =~= units(m));
        lemma_product_push(u);
        lemma_units_product_nonzero(p, m);
        lemma_small_mod(n, p as nat);
        if seq_product(u) % p == 0 {
            lemma_prime_divides_product(seq_product(units(m)), n as int, p);
        }
    }
}

/// Modulo a prime, the multiples `a, 2a, ..., (p-1)a` of a unit `a` are the
/// numbers `1, ..., p-1` in another order.
proof fn lemma_multiples_permute(a: int, p: int)
    requires
        is_prime(p),
        a % p != 0,
    ensures
        multiples(a, p, (p - 1) as nat).to_multiset() =~= units((p - 1) as nat).to_multiset(),
{
    let n = (p - 1) as nat;
    let s1 = multiples(a, p, n);
    let s2 = units(n);
    assert forall|i: int| 0 <= i < n implies 1 <= #[trigger] s1[i] < p by {
        lemma_mod_bound(a * (i + 1), p);
        if s1[i] == 0 {
            lemma_prime_divides_product(a, i + 1, p);
            lemma_small_mod((i + 1) as nat, p as nat);
        }
    }
    assert forall|i: int, j: int| 0 <= i < n && 0 <= j < n && i != j implies s1[i] != s1[j] by {
        if s1[i] == s1[j] {
            lemma_cancel_factor(a, i + 1, j + 1, p);
            lemma_small_mod((i + 1) as nat, p as nat);
            lemma_small_mod((j + 1) as nat, p as nat);
        }
    }
    assert(s1.no_duplicates());
    assert(s2.no_duplicates());
    assert forall|x: int| s1.to_set().contains(x) implies s2.to_set().contains(x) by {
        let i = choose|i: int| 0 <= i < s1.len() && s1[i] == x;
        assert(1 <= s1[i] < p);
        assert(s2[x - 1] == x);
    }
    seq_to_set_is_finite(s1);
    seq_to_set_is_finite(s2);
    s1.unique_seq_to_set();
    s2.unique_seq_to_set();
    lemma_subset_equality(s1.to_set(), s2.to_set());
    s1.to_multiset_ensures();
    s2.to_multiset_ensures();
    s1.lemma_multiset_has_no_duplicates();
    s2.lemma_multiset_has_no_duplicates();
    assert forall|x: int| s1.to_multiset().count(x) == s2.to_multiset().count(x) by {
        assert(s1.contains(x) <==> s1.to_set().contains(x));
        assert(s2.contains(x) <==> s2.to_set().contains(x));
        if s1.contains(x) {
            assert(s1.to_multiset().contains(x));
            assert(s2.to_multiset().contains(x));
        }
    }
}

/// Fermat's little theorem: `a^(p-1)` is 1 modulo a prime `p` that does not
/// divide `a`.
pub proof fn lemma_fermat_little(a: int, p: int)
    requires
        is_prime(p),
        a % p != 0,
    ensures
        pow(a, (p - 1) as nat) % p == 1,
{
    let n = (p - 1) as nat;
    let s1 = multiples(a, p, n);
    let s2 = units(n);
    lemma_multiples_permute(a, p);
    assert(commutative_foldl(mul_op())) by {
        assert forall|x: int, y: int, v: int| #[trigger]
            mul_op()(mul_op()(v, x), y) == mul_op()(mul_op()(v, y), x) by {
            assert((v * x) * y == (v * y) * x) by (nonlinear_arith);
        }
    }
    lemma_fold_left_permutation(s1, s2, mul_op(), 1int);
    let f = seq_product(s2);
    let pw = pow(a, n);
    lemma_multiples_product(a, p, n);
    lemma_units_product_nonzero(p, n);
    assert(f * pw == pw * f && f * 1 == f) by (nonlinear_arith);
    lemma_cancel_factor(f, pw, 1, p);
    lemma_small_mod(1, p as nat);
}

/// For a prime `p` that does not divide `a`, the power `a^(p-2) mod p` is the
/// inverse of `a`.
pub proof fn lemma_mod_inv_inverts(a: int, p: int)
    requires
        is_prime(p),
        a % p != 0,
    ensures
        (a * spec_mod_inv(a, p)) % p == 1,
        0 < spec_mod_inv(a, p) < p,
{
    let r = a % p;
    lemma_mod_bound(a, p);
    if p == 2 {
        assert(a * 1 == a);
    } else {
        let e = (p - 2) as nat;
        let pw = pow(r, e);
        lemma_mod_bound(pw, p);
        assert(pow(r, (p - 1) as nat) == r * pw) by {
            reveal(pow);
        }
        lemma_mod_twice(a, p);
        lemma_fermat_little(r, p);
        lemma_mul_mod_noop_general(a, pw, p);
        lemma_mul_mod_noop_right(a, pw, p);
        lemma_mul_mod_noop_left(a, pw, p);
        if pw % p == 0 {
            assert(a * 0 == 0);
            lemma_small_mod(0, p as nat);
        }
    }
}

/// A number with no divisor from 2 up to its square root is prime.
proof fn lemma_no_small_divisor(n: int, d: int)
    requires
        n >= 2,
        d >= 2,
        d * d > n,
        forall|k: int| 2 <= k < d ==> #[trigger] (n % k) != 0,
    ensures
        is_prime(n),
{
    assert forall|k: int| 2 <= k < n implies #[trigger] (n % k) != 0 by {
        if k >= d && n % k == 0 {
            let q = n / k;
            lemma_fundamental_div_mod(n, k);
            assert(1 < q < d) by (nonlinear_arith)
                requires
                    n == k * q,
                    d <= k < n,
                    d * d > n,
                    d >= 2,
            ;
            assert(n == q * k) by (nonlinear_arith)
                requires
                    n == k * q,
            ;
            lemma_mod_multiples_basic(k, q);
            assert(n % q == 0);
        }
    }
}

/// Tests a number for primality by trial division up to its square root.
pub fn check_prime(n: u64) -> (r: bool)
    ensures
        r == is_prime(n as int),
{
    if n < 2 {
        return false;
    }
    let mut d: u64 = 2;
    while d <= n / d
        invariant
            n >= 2,
            2 <= d <= n,
            forall|k: int| 2 <= k < d ==> #[trigger] (n as int % k) != 0,
        decreases n - d,
    {
        proof {
            lemma_fundamental_div_mod(n as int, d as int);
            lemma_mod_bound(n as int, d as int);
            assert(d * 2 <= n) by (nonlinear_arith)
                requires
                    n == d * (n / d) + n % d,
                    0 <= n % d,
                    2 <= d <= n / d,
            ;
        }
        if n % d == 0 {
            return false;
        }
        d = d + 1;
    }
    proof {
        lemma_fundamental_div_mod(n as int, d as int);
        lemma_mod_bound(n as int, d as int);
        assert(d * d > n) by (nonlinear_arith)
            requires
                n == d * (n / d) + n % d,
                n % d < d,
                n / d < d,
                d >= 2,
        ;
        lemma_no_small_divisor(n as int, d as int);
    }
    true
}

} // verus!
