//! Polynomials with coefficients modulo `p`.
//!
//! A polynomial is the sequence of its coefficients, the constant term first:
//! `[3, 0, 2]` is `2x^2 + 3`.

use crate::field::spec_mod_inv;
use crate::modular::{mod_exp, mul_mod_u64};
use crate::primes::{is_prime, lemma_mod_inv_inverts};
use vstd::arithmetic::div_mod::*;
use vstd::prelude::*;

verus! {

/// The value of the polynomial at `x`, in the integers.
pub open spec fn poly_value(c: Seq<u64>, x: int) -> int
    decreases c.len(),
{
    if c.len() == 0 {
        0
    } else {
        c[0] as int + x * poly_value(c.drop_first(), x)
    }
}

/// The coefficient of `x^i`; 0 beyond the stored ones.
pub open spec fn coeff(s: Seq<u64>, i: int) -> int {
    if 0 <= i < s.len() {
        s[i] as int
    } else {
        0
    }
}

/// The sequence without its trailing zeros, but never shorter than one
/// coefficient: the zero polynomial stays `[0]`.
pub open spec fn trimmed(s: Seq<u64>) -> Seq<u64>
    decreases s.len(),
{
    if s.len() > 1 && s.last() == 0 {
        trimmed(s.drop_last())
    } else {
        s
    }
}

/// The coefficient-wise sum modulo `p`, as long as the longer summand.
pub open spec fn sum_coeffs(a: Seq<u64>, b: Seq<u64>, p: int) -> Seq<u64> {
    Seq::new(
        if a.len() >= b.len() { a.len() } else { b.len() },
        |i: int| ((coeff(a, i) + coeff(b, i)) % p) as u64,
    )
}

/// The sum of `a[i] * b[k - i]` over `i < n`.
pub open spec fn conv_partial(a: Seq<u64>, b: Seq<u64>, k: int, n: nat) -> int
    decreases n,
{
    if n == 0 {
        0
    } else {
        conv_partial(a, b, k, (n - 1) as nat) + coeff(a, n - 1) * coeff(b, k - (n - 1))
    }
}

/// The coefficient of `x^k` in the product: the sum of `a[i] * b[k - i]`.
pub open spec fn conv_coeff(a: Seq<u64>, b: Seq<u64>, k: int) -> int {
    conv_partial(a, b, k, (k + 1) as nat)
}

/// The coefficients of the product modulo `p`; none if a factor has none.
pub open spec fn product_coeffs(a: Seq<u64>, b: Seq<u64>, p: int) -> Seq<u64> {
    if a.len() == 0 || b.len() == 0 {
        Seq::empty()
    } else {
        Seq::new((a.len() + b.len() - 1) as nat, |k: int| (conv_coeff(a, b, k) % p) as u64)
    }
}

/// The degree of the polynomial modulo `p`: the place of the last
/// coefficient that `p` does not divide, and -1 for the zero polynomial.
pub open spec fn degree_mod(b: Seq<u64>, p: int) -> int
    decreases b.len(),
{
    if b.len() == 0 {
        -1
    } else if b.last() as int % p != 0 {
        b.len() - 1
    } else {
        degree_mod(b.drop_last(), p)
    }
}

/// What is left of the coefficient of `x^k` when `q * b + r` is taken from
/// `a`.
pub open spec fn defect(a: Seq<u64>, b: Seq<u64>, q: Seq<u64>, r: Seq<u64>, k: int) -> int {
    coeff(a, k) - conv_coeff(q, b, k) - coeff(r, k)
}

/// `a == q * b + r` modulo `p`, coefficient by coefficient.
pub open spec fn is_division(a: Seq<u64>, b: Seq<u64>, q: Seq<u64>, r: Seq<u64>, p: int) -> bool {
    forall|k: int| 0 <= k ==> #[trigger] defect(a, b, q, r, k) % p == 0
}

/// All coefficients are residues modulo `p`.
pub open spec fn is_reduced_poly(s: Seq<u64>, p: int) -> bool {
    forall|i: int| 0 <= i < s.len() ==> #[trigger] s[i] < p
}

/// The degree modulo `p` marks the last coefficient that `p` does not
/// divide.
pub proof fn lemma_degree_mod(b: Seq<u64>, p: int)
    ensures
        -1 <= degree_mod(b, p) < b.len(),
        degree_mod(b, p) >= 0 ==> b[degree_mod(b, p)] as int % p != 0,
        forall|i: int| degree_mod(b, p) < i < b.len() ==> #[trigger] b[i] as int % p == 0,
    decreases b.len(),
{
    if b.len() > 0 && b.last() as int % p == 0 {
        lemma_degree_mod(b.drop_last(), p);
        assert forall|i: int| degree_mod(b, p) < i < b.len() implies #[trigger] b[i] as int % p
            == 0 by {
            if i < b.len() - 1 {
                assert(b.drop_last()[i] == b[i]);
            }
        }
    }
}

/// The convolution sees a factor only through its coefficients.
pub proof fn lemma_conv_same_coeffs(q1: Seq<u64>, q2: Seq<u64>, b: Seq<u64>, k: int, n: nat)
    requires
        forall|i: int| 0 <= i < n ==> coeff(q1, i) == coeff(q2, i),
    ensures
        conv_partial(q1, b, k, n) == conv_partial(q2, b, k, n),
    decreases n,
{
    if n > 0 {
        lemma_conv_same_coeffs(q1, q2, b, k, (n - 1) as nat);
    }
}

/// Changing one coefficient of a factor changes the convolution by the
/// change times a coefficient of the other factor.
pub proof fn lemma_conv_update(q: Seq<u64>, b: Seq<u64>, k: int, n: nat, d: int, c: u64)
    requires
        0 <= d < q.len(),
    ensures
        conv_partial(q.update(d, c), b, k, n) == conv_partial(q, b, k, n) + if d < n {
            (c - q[d]) * coeff(b, k - d)
        } else {
            0
        },
    decreases n,
{
    if n > 0 {
        lemma_conv_update(q, b, k, (n - 1) as nat, d, c);
        if n - 1 == d {
            assert(c * coeff(b, k - d) == q[d] * coeff(b, k - d) + (c - q[d]) * coeff(b, k - d))
                by (nonlinear_arith);
        }
    }
}

/// The convolution with the zero polynomial is 0.
pub proof fn lemma_conv_zero(q: Seq<u64>, b: Seq<u64>, k: int, n: nat)
    requires
        forall|i: int| 0 <= i < q.len() ==> q[i] == 0,
    ensures
        conv_partial(q, b, k, n) == 0,
    decreases n,
{
    if n > 0 {
        lemma_conv_zero(q, b, k, (n - 1) as nat);
        assert(coeff(q, n - 1) == 0);
        assert(0 * coeff(b, k - (n - 1)) == 0);
    }
}

/// A trimmed sequence is its own trimmed form.
pub proof fn lemma_trimmed_idempotent(s: Seq<u64>)
    ensures
        trimmed(trimmed(s)) == trimmed(s),
    decreases s.len(),
{
    if s.len() > 1 && s.last() == 0 {
        lemma_trimmed_idempotent(s.drop_last());
    }
}

/// Trimming changes no coefficient.
pub proof fn lemma_trimmed_coeffs(s: Seq<u64>)
    ensures
        forall|k: int| coeff(trimmed(s), k) == coeff(s, k),
{
    lemma_trimmed_canonical(s);
    assert forall|k: int| coeff(trimmed(s), k) == coeff(s, k) by {
        if 0 <= k < trimmed(s).len() {
            assert(s.take(trimmed(s).len() as int)[k] == s[k]);
        }
    }
}

/// What trimming keeps is a prefix, what it drops is zeros, and what is left
/// ends in a non-zero coefficient unless it is a single one.
pub proof fn lemma_trimmed_canonical(s: Seq<u64>)
    ensures
        trimmed(s).len() <= s.len(),
        s.len() > 0 ==> trimmed(s).len() > 0,
        trimmed(s) == s.take(trimmed(s).len() as int),
        forall|i: int| trimmed(s).len() <= i < s.len() ==> s[i] == 0,
        trimmed(s).len() > 1 ==> trimmed(s).last() != 0,
    decreases s.len(),
{
    if s.len() > 1 && s.last() == 0 {
        let t = s.drop_last();
        lemma_trimmed_canonical(t);
        assert(t.take(trimmed(t).len() as int) =~= s.take(trimmed(t).len() as int));
        assert forall|i: int| trimmed(s).len() <= i < s.len() implies s[i] == 0 by {
            if i < t.len() {
                assert(t[i] == s[i]);
            }
        }
    } else {
        assert(s.take(s.len() as int) =~= s);
    }
}

/// Evaluates a polynomial at `x` modulo `p` by Horner's rule.
pub fn poly_eval(coeffs: &[u64], x: u64, p: u64) -> (r: u64)
    requires
        p > 0,
    ensures
        r == poly_value(coeffs@, x as int) % (p as int),
{
    let mut result: u64 = 0;
    let mut i: usize = coeffs.len();
    proof {
        assert(coeffs@.skip(i as int) =~= Seq::<u64>::empty());
        lemma_small_mod(0, p as nat);
    }
    while i > 0
        invariant
            p > 0,
            i <= coeffs.len(),
            result == poly_value(coeffs@.skip(i as int), x as int) % (p as int),
        decreases i,
    {
        i = i - 1;
        let ghost tail = poly_value(coeffs@.skip(i + 1), x as int);
        assert((result as int) * (x as int) + (coeffs[i as int] as int)
            < 0x1_0000_0000_0000_0000_0000_0000_0000_0000) by (nonlinear_arith)
            requires
                0 <= result < 0x1_0000_0000_0000_0000,
                0 <= x < 0x1_0000_0000_0000_0000,
                0 <= coeffs[i as int] < 0x1_0000_0000_0000_0000,
        ;
        assert(0 <= (result as int) * (x as int)) by (nonlinear_arith)
            requires
                0 <= result,
                0 <= x,
        ;
        let wide: u128 = (result as u128) * (x as u128) + (coeffs[i] as u128);
        proof {
            let pp = p as int;
            assert(coeffs@.skip(i as int).drop_first() =~= coeffs@.skip(i + 1));
            assert(coeffs@.skip(i as int)[0] == coeffs[i as int]);
            assert(poly_value(coeffs@.skip(i as int), x as int) == coeffs[i as int] + x * tail);
            lemma_mul_mod_noop_left(tail, x as int, pp);
            lemma_add_mod_noop(tail * x, coeffs[i as int] as int, pp);
            lemma_add_mod_noop((tail % pp) * x, coeffs[i as int] as int, pp);
            assert(tail * x == x * tail) by (nonlinear_arith);
        }
        result = (wide % (p as u128)) as u64;
    }
    assert(coeffs@.skip(0) =~= coeffs@);
    result
}

/// Removes trailing zero coefficients, keeping at least one coefficient.
pub fn trim_poly(v: &mut Vec<u64>)
    ensures
        final(v)@ == trimmed(old(v)@),
{
    while v.len() > 1 && v[v.len() - 1] == 0
        invariant
            trimmed(v@) == trimmed(old(v)@),
        decreases v.len(),
    {
        v.pop();
    }
}

/// Adds two polynomials coefficient by coefficient modulo `p` and trims the
/// sum.
pub fn poly_add(a: &[u64], b: &[u64], p: u64) -> (r: Vec<u64>)
    requires
        p > 0,
    ensures
        r@ == trimmed(sum_coeffs(a@, b@, p as int)),
{
    let n: usize = if a.len() >= b.len() { a.len() } else { b.len() };
    let mut out: Vec<u64> = Vec::new();
    let mut i: usize = 0;
    while i < n
        invariant
            p > 0,
            i <= n,
            n == sum_coeffs(a@, b@, p as int).len(),
            out@ == sum_coeffs(a@, b@, p as int).take(i as int),
        decreases n - i,
    {
        let x: u64 = if i < a.len() { a[i] } else { 0 };
        let y: u64 = if i < b.len() { b[i] } else { 0 };
        let s: u128 = (x as u128 + y as u128) % (p as u128);
        out.push(s as u64);
        i = i + 1;
        assert(out@ =~= sum_coeffs(a@, b@, p as int).take(i as int));
    }
    assert(out@ =~= sum_coeffs(a@, b@, p as int));
    trim_poly(&mut out);
    out
}

/// Multiplies two polynomials modulo `p` by convolution and trims the
/// product.
pub fn poly_mul(a: &[u64], b: &[u64], p: u64) -> (r: Vec<u64>)
    requires
        p > 0,
        a.len() + b.len() <= usize::MAX,
    ensures
        r@ == trimmed(product_coeffs(a@, b@, p as int)),
{
    let mut out: Vec<u64> = Vec::new();
    if a.len() == 0 || b.len() == 0 {
        return out;
    }
    let n: usize = a.len() + b.len() - 1;
    let mut k: usize = 0;
    while k < n
        invariant
            p > 0,
            a.len() > 0,
            b.len() > 0,
            n == a.len() + b.len() - 1,
            k <= n,
            out@ == product_coeffs(a@, b@, p as int).take(k as int),
        decreases n - k,
    {
        let mut acc: u64 = 0;
        let mut i: usize = 0;
        proof {
            lemma_small_mod(0, p as nat);
        }
        while i <= k
            invariant
                p > 0,
                k < n,
                n == a.len() + b.len() - 1,
                i <= k + 1,
                acc == conv_partial(a@, b@, k as int, i as nat) % (p as int),
            decreases k + 1 - i,
        {
            let ghost before = conv_partial(a@, b@, k as int, i as nat);
            if i < a.len() && k - i < b.len() {
                let term: u64 = crate::modular::mul_mod_u64(a[i], b[k - i], p);
                let s: u128 = (acc as u128 + term as u128) % (p as u128);
                proof {
                    let pp = p as int;
                    let t = a[i as int] as int * b[k - i] as int;
                    lemma_add_mod_noop(before, t, pp);
                    lemma_mod_twice(before, pp);
                    lemma_mod_twice(t, pp);
                    lemma_add_mod_noop(before % pp, t % pp, pp);
                }
                acc = s as u64;
            } else {
                assert(coeff(a@, i as int) * coeff(b@, k - i) == 0) by (nonlinear_arith)
                    requires
                        coeff(a@, i as int) == 0 || coeff(b@, k - i) == 0,
                ;
            }
            i = i + 1;
        }
        out.push(acc);
        k = k + 1;
        assert(out@ =~= product_coeffs(a@, b@, p as int).take(k as int));
    }
    assert(out@ =~= product_coeffs(a@, b@, p as int));
    trim_poly(&mut out);
    out
}

/// One step of the long division: takes `c * x^d * b` from the remainder.
fn cancel_term(rem: &mut Vec<u64>, b: &[u64], db: usize, d: usize, c: u64, p: u64)
    requires
        p > 0,
        db < b.len(),
        d + db < old(rem).len(),
        is_reduced_poly(old(rem)@, p as int),
        c < p,
    ensures
        final(rem).len() == old(rem).len(),
        is_reduced_poly(final(rem)@, p as int),
        forall|k: int|
            0 <= k < old(rem).len() ==> #[trigger] final(rem)[k] == if d <= k <= d + db {
                (old(rem)[k] - c * b[k - d]) % (p as int)
            } else {
                old(rem)[k] as int
            },
{
    let mut i: usize = 0;
    while i <= db
        invariant
            p > 0,
            db < b.len(),
            i <= db + 1,
            rem.len() == old(rem).len(),
            d + db < rem.len(),
            c < p,
            is_reduced_poly(rem@, p as int),
            forall|k: int|
                0 <= k < rem.len() ==> #[trigger] rem[k] == if d <= k < d + i {
                    (old(rem)[k] - c * b[k - d]) % (p as int)
                } else {
                    old(rem)[k] as int
                },
        decreases db + 1 - i,
    {
        let t: u64 = mul_mod_u64(c, b[i], p);
        let cur: u64 = rem[d + i];
        let wide: u128 = (cur as u128 + p as u128 - t as u128) % (p as u128);
        proof {
            let pi = p as int;
            lemma_sub_mod_noop_right(cur as int, c as int * b[i as int] as int, pi);
            lemma_mod_add_multiples_vanish(cur as int - t as int, pi);
        }
        rem.set(d + i, wide as u64);
        i = i + 1;
    }
}

/// Polynomial long division modulo a prime: the quotient and the remainder
/// of `a` by `b`.
///
/// `a == q * b + r` modulo `p`, and the remainder has a lower degree than
/// `b`, which must not be the zero polynomial.  Both results are trimmed
/// and hold residues.
pub fn poly_div_rem(a: &[u64], b: &[u64], p: u64) -> (qr: (Vec<u64>, Vec<u64>))
    requires
        is_prime(p as int),
        degree_mod(b@, p as int) >= 0,
    ensures
        is_division(a@, b@, qr.0@, qr.1@, p as int),
        forall|k: int| degree_mod(b@, p as int) <= k ==> coeff(qr.1@, k) == 0,
        is_reduced_poly(qr.0@, p as int),
        is_reduced_poly(qr.1@, p as int),
        qr.0@ == trimmed(qr.0@),
        qr.1@ == trimmed(qr.1@),
        qr.0.len() >= 1,
        qr.1.len() >= 1,
{
    let ghost pi = p as int;
    proof {
        lemma_degree_mod(b@, pi);
    }
    // the degree of b
    let mut db: usize = b.len() - 1;
    assert(b@.take(b.len() as int) =~= b@);
    while b[db] % p == 0
        invariant
            db < b.len(),
            p >= 2,
            pi == p,
            degree_mod(b@, pi) >= 0,
            degree_mod(b@.take(db + 1), pi) == degree_mod(b@, pi),
        decreases db,
    {
        proof {
            let prefix = b@.take(db + 1);
            assert(prefix.drop_last() =~= b@.take(db as int));
            assert(prefix.last() == b[db as int]);
            assert(degree_mod(prefix, pi) == degree_mod(b@.take(db as int), pi));
            if db == 0 {
                assert(b@.take(0).len() == 0);
                assert(degree_mod(b@.take(0), pi) == -1);
            }
        }
        db = db - 1;
    }
    proof {
        assert(b@.take(db + 1).last() == b[db as int]);
        assert(degree_mod(b@, pi) == db);
    }
    let lc: u64 = b[db] % p;
    let inv: u64 = mod_exp(lc, p - 2, p);
    proof {
        lemma_mod_twice(b[db as int] as int, pi);
        lemma_mod_inv_inverts(lc as int, pi);
        assert(inv == spec_mod_inv(lc as int, pi));
        lemma_mul_mod_noop_left(b[db as int] as int, inv as int, pi);
        assert((b[db as int] * inv) % pi == 1);
    }
    // the remainder starts as a, the quotient as 0
    let mut rem: Vec<u64> = Vec::new();
    let mut i: usize = 0;
    while i < a.len()
        invariant
            p >= 2,
            i <= a.len(),
            rem.len() == i,
            forall|k: int| 0 <= k < i ==> #[trigger] rem[k] == a[k] % p,
        decreases a.len() - i,
    {
        rem.push(a[i] % p);
        i = i + 1;
    }
    let qlen: usize = if a.len() > db { a.len() - db } else { 0 };
    let mut quot: Vec<u64> = Vec::new();
    let mut j: usize = 0;
    while j < qlen
        invariant
            j <= qlen,
            quot.len() == j,
            forall|k: int| 0 <= k < j ==> #[trigger] quot[k] == 0,
        decreases qlen - j,
    {
        quot.push(0);
        j = j + 1;
    }
    proof {
        assert forall|k: int| 0 <= k implies #[trigger] defect(a@, b@, quot@, rem@, k) % pi == 0 by {
            lemma_conv_zero(quot@, b@, k, (k + 1) as nat);
            if k < a.len() {
                lemma_sub_mod_noop_right(a[k] as int, a[k] as int, pi);
            }
            lemma_small_mod(0, p as nat);
        }
    }
    let mut d: usize = qlen;
    while d > 0
        invariant
            is_prime(pi),
            pi == p,
            db < b.len(),
            degree_mod(b@, pi) == db,
            forall|i: int| db < i < b.len() ==> #[trigger] b[i] as int % pi == 0,
            (b[db as int] * inv) % pi == 1,
            inv < p,
            qlen == if a.len() > db { a.len() - db } else { 0 },
            d <= qlen,
            rem.len() == a.len(),
            quot.len() == qlen,
            is_reduced_poly(rem@, pi),
            is_reduced_poly(quot@, pi),
            forall|k: int| 0 <= k < d ==> #[trigger] quot[k] == 0,
            forall|k: int| d + db <= k < rem.len() ==> #[trigger] rem[k] == 0,
            is_division(a@, b@, quot@, rem@, pi),
        decreases d,
    {
        d = d - 1;
        let top: u64 = rem[d + db];
        let c: u64 = mul_mod_u64(top, inv, p);
        let ghost old_quot = quot@;
        let ghost old_rem = rem@;
        quot.set(d, c);
        cancel_term(&mut rem, b, db, d, c, p);
        proof {
            // the leading coefficient is cancelled
            let lead = b[db as int] as int;
            assert((top - c * lead) % pi == 0) by {
                lemma_mul_mod_noop_left(top as int * inv as int, lead, pi);
                assert((top * inv) * lead == top * (lead * inv)) by (nonlinear_arith);
                lemma_mul_mod_noop_right(top as int, lead * inv, pi);
                assert(top * 1 == top);
                lemma_mod_equivalence(top as int, c * lead, pi);
            }
            assert(rem[d + db] == 0);
            assert forall|k: int| 0 <= k implies #[trigger] defect(a@, b@, quot@, rem@, k) % pi
                == 0 by {
                let shift = c as int * coeff(b@, k - d);
                lemma_conv_update(old_quot, b@, k, (k + 1) as nat, d as int, c);
                assert(old_quot.update(d as int, c) =~= quot@);
                assert(defect(a@, b@, old_quot, old_rem, k) % pi == 0);
                // the remainder changes by the same amount modulo p
                assert((coeff(rem@, k) - (coeff(old_rem, k) - shift)) % pi == 0) by {
                    if d <= k <= d + db {
                        lemma_mod_twice(old_rem[k] - shift, pi);
                        lemma_mod_equivalence(rem[k] as int, old_rem[k] - shift, pi);
                    } else if k < d {
                        assert(shift == 0) by (nonlinear_arith)
                            requires
                                shift == c * coeff(b@, k - d),
                                coeff(b@, k - d) == 0,
                        ;
                        lemma_small_mod(0, p as nat);
                    } else {
                        // beyond the degree of b every coefficient is 0 modulo p
                        assert(coeff(b@, k - d) % pi == 0) by {
                            lemma_small_mod(0, p as nat);
                        }
                        lemma_mul_mod_noop_right(c as int, coeff(b@, k - d), pi);
                        assert(c * 0 == 0);
                        assert(coeff(rem@, k) == coeff(old_rem, k));
                        lemma_small_mod(0, p as nat);
                    }
                }
                let e1 = defect(a@, b@, old_quot, old_rem, k);
                let e2 = coeff(rem@, k) - (coeff(old_rem, k) - shift);
                assert(defect(a@, b@, quot@, rem@, k) == e1 - e2);
                lemma_sub_mod_noop(e1, e2, pi);
                lemma_small_mod(0, p as nat);
            }
        }
    }
    let ghost loop_quot = quot@;
    let ghost loop_rem = rem@;
    if quot.len() == 0 {
        quot.push(0);
    }
    if rem.len() == 0 {
        rem.push(0);
    }
    let ghost full_quot = quot@;
    let ghost full_rem = rem@;
    proof {
        assert forall|k: int| 0 <= k implies #[trigger] defect(a@, b@, full_quot, full_rem, k) % pi
            == 0 by {
            lemma_conv_same_coeffs(full_quot, loop_quot, b@, k, (k + 1) as nat);
            assert(coeff(full_rem, k) == coeff(loop_rem, k));
            assert(defect(a@, b@, loop_quot, loop_rem, k) % pi == 0);
        }
        lemma_trimmed_coeffs(full_quot);
        lemma_trimmed_coeffs(full_rem);
        lemma_trimmed_canonical(full_quot);
        lemma_trimmed_canonical(full_rem);
        lemma_trimmed_idempotent(full_quot);
        lemma_trimmed_idempotent(full_rem);
        assert forall|k: int| 0 <= k implies #[trigger] defect(
            a@,
            b@,
            trimmed(full_quot),
            trimmed(full_rem),
            k,
        ) % pi == 0 by {
            lemma_conv_same_coeffs(trimmed(full_quot), full_quot, b@, k, (k + 1) as nat);
            assert(defect(a@, b@, full_quot, full_rem, k) % pi == 0);
        }
        assert forall|k: int| db <= k implies coeff(trimmed(full_rem), k) == 0 by {
            if k < full_rem.len() && a.len() > 0 {
                assert(full_rem[k] == 0);
            }
        }
    }
    trim_poly(&mut quot);
    trim_poly(&mut rem);
    (quot, rem)
}

} // verus!
