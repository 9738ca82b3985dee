//! Lattices: reduction of a plane basis, and learning with errors, the
//! encryption of single bits with noisy inner products modulo `q`.
//!
//! Key generation and encryption take their random choices as arguments:
//! the matrix, the secret and the noise, and the subset of rows.

use crate::field::{add_mod, mul_mod, reduce, sub_mod};
use crate::linalg::{column, column_of, dot, dot_mod, rows_of_length, width};
use vstd::arithmetic::div_mod::*;
use vstd::prelude::*;

verus! {

/// The squared length of a plane vector.
pub open spec fn norm2(v: (int, int)) -> int {
    v.0 * v.0 + v.1 * v.1
}

/// The inner product of two plane vectors.
pub open spec fn dot2(u: (int, int), v: (int, int)) -> int {
    u.0 * v.0 + u.1 * v.1
}

/// The vector `x*u + y*v`.
pub open spec fn combine(x: int, u: (int, int), y: int, v: (int, int)) -> (int, int) {
    (x * u.0 + y * v.0, x * u.1 + y * v.1)
}

/// The coordinates of a vector, in the integers.
pub open spec fn vec2(v: [i64; 2]) -> (int, int) {
    (v[0] as int, v[1] as int)
}

/// The basis is reduced in the sense of Lagrange and Gauss: the first
/// vector is no longer than the second, and the second is as short as its
/// shifts by multiples of the first can be.
pub open spec fn is_reduced_basis(r1: (int, int), r2: (int, int)) -> bool {
    norm2(r1) <= norm2(r2) && -norm2(r1) <= 2 * dot2(r1, r2) <= norm2(r1)
}

/// `(r1, r2)` comes from `(b1, b2)` by an integer matrix of determinant 1 or
/// -1, so both pairs span the same lattice.
pub open spec fn same_lattice(b1: (int, int), b2: (int, int), r1: (int, int), r2: (int, int)) -> bool {
    exists|x1: int, y1: int, x2: int, y2: int|
        #![trigger combine(x1, b1, y1, b2), combine(x2, b1, y2, b2)]
        r1 == combine(x1, b1, y1, b2) && r2 == combine(x2, b1, y2, b2) && (x1 * y2 - x2 * y1 == 1
            || x1 * y2 - x2 * y1 == -1)
}

/// A coordinate of a vector is no longer than the vector.
proof fn lemma_coordinate_bound(v: (int, int))
    requires
        norm2(v) <= 0x4_0000_0000_0000_0000_0000,
    ensures
        -0x400_0000_0000 < v.0 < 0x400_0000_0000,
        -0x400_0000_0000 < v.1 < 0x400_0000_0000,
{
    assert(-0x400_0000_0000 < v.0 < 0x400_0000_0000) by (nonlinear_arith)
        requires
            v.0 * v.0 + v.1 * v.1 <= 0x4_0000_0000_0000_0000_0000,
    ;
    assert(-0x400_0000_0000 < v.1 < 0x400_0000_0000) by (nonlinear_arith)
        requires
            v.0 * v.0 + v.1 * v.1 <= 0x4_0000_0000_0000_0000_0000,
    ;
}

/// The square of `v - mu*u`, multiplied out.
proof fn lemma_square_of_difference(v: int, u: int, mu: int)
    ensures
        (v - mu * u) * (v - mu * u) == v * v - 2 * (mu * (u * v)) + (mu * mu) * (u * u),
{
    let a = mu * u;
    assert((v - a) * (v - a) == v * v - 2 * (v * a) + a * a) by (nonlinear_arith);
    assert(v * a == mu * (u * v)) by (nonlinear_arith)
        requires
            a == mu * u,
    ;
    assert(a * a == (mu * mu) * (u * u)) by (nonlinear_arith)
        requires
            a == mu * u,
    ;
}

/// A combination of two vectors minus a multiple of another one, in one
/// coordinate.
proof fn lemma_combine_shift(x1: int, y1: int, x2: int, y2: int, mu: int, a: int, b: int)
    ensures
        (x2 - mu * x1) * a + (y2 - mu * y1) * b == (x2 * a + y2 * b) - mu * (x1 * a + y1 * b),
{
    assert((x2 - mu * x1) * a == x2 * a - mu * (x1 * a)) by (nonlinear_arith);
    assert((y2 - mu * y1) * b == y2 * b - mu * (y1 * b)) by (nonlinear_arith);
    assert(mu * (x1 * a + y1 * b) == mu * (x1 * a) + mu * (y1 * b)) by (nonlinear_arith);
}

/// Taking the nearest multiple of `u` from `v` does not lengthen `v`,
/// leaves an inner product of at most half the squared length of `u`, and
/// keeps the lattice.
proof fn lemma_size_reduce(u: (int, int), v: (int, int), mu: int)
    requires
        norm2(u) > 0,
        mu == (2 * dot2(u, v) + norm2(u)) / (2 * norm2(u)),
    ensures
        ({
            let w = (v.0 - mu * u.0, v.1 - mu * u.1);
            &&& norm2(w) <= norm2(v)
            &&& dot2(u, w) == dot2(u, v) - mu * norm2(u)
            &&& -norm2(u) <= 2 * dot2(u, w) < norm2(u)
        }),
{
    let n = norm2(u);
    let d = dot2(u, v);
    let w = (v.0 - mu * u.0, v.1 - mu * u.1);
    lemma_fundamental_div_mod(2 * d + n, 2 * n);
    lemma_mod_bound(2 * d + n, 2 * n);
    assert((2 * n) * mu == 2 * (mu * n)) by (nonlinear_arith);
    assert(dot2(u, w) == d - mu * n) by (nonlinear_arith)
        requires
            w == (v.0 - mu * u.0, v.1 - mu * u.1),
            d == u.0 * v.0 + u.1 * v.1,
            n == u.0 * u.0 + u.1 * u.1,
            dot2(u, w) == u.0 * w.0 + u.1 * w.1,
    ;
    lemma_square_of_difference(v.0, u.0, mu);
    lemma_square_of_difference(v.1, u.1, mu);
    assert(mu * (2 * d - mu * n) == 2 * (mu * (u.0 * v.0)) + 2 * (mu * (u.1 * v.1)) - (mu * mu) * (
    u.0 * u.0) - (mu * mu) * (u.1 * u.1)) by (nonlinear_arith)
        requires
            d == u.0 * v.0 + u.1 * v.1,
            n == u.0 * u.0 + u.1 * u.1,
    ;
    assert(norm2(w) == norm2(v) - mu * (2 * d - mu * n));
    assert(mu * (2 * d - mu * n) >= 0) by (nonlinear_arith)
        requires
            -n <= 2 * (d - mu * n) < n,
            n > 0,
    ;
}

/// The sum of the members of `b` at the first `n` places that `subset`
/// selects.
pub open spec fn selected_sum(b: Seq<i64>, subset: Seq<bool>, n: nat) -> int
    decreases n,
{
    if n == 0 {
        0
    } else {
        selected_sum(b, subset, (n - 1) as nat) + if subset[n - 1] {
            b[n - 1] as int
        } else {
            0
        }
    }
}

/// The distance from `d` to 0 on the circle of residues modulo `q`.
pub open spec fn distance_to_zero(d: int, q: int) -> int {
    if d <= q - d {
        d
    } else {
        q - d
    }
}

/// The distance from `d` to `q / 2`.
pub open spec fn distance_to_half(d: int, q: int) -> int {
    if d >= q / 2 {
        d - q / 2
    } else {
        q / 2 - d
    }
}

/// The bit that a noisy value stands for: 1 where `v - <u, s>` modulo `q` is
/// nearer to `q / 2` than to 0, else 0.
pub open spec fn spec_lwe_decrypt(s: Seq<i64>, u: Seq<i64>, v: int, q: int) -> int {
    let d = (v - dot(u, s)) % q;
    if distance_to_half(d, q) < distance_to_zero(d, q) {
        1
    } else {
        0
    }
}

/// A key pair from the matrix `a`, the secret `s` and the noise `e`: the
/// public key is `(a, b)` with `b = a*s + e` modulo `q`, the secret key `s`.
pub fn lwe_keygen(a: Vec<Vec<i64>>, s: Vec<i64>, e: &[i64], q: i64) -> (r: (
    Vec<Vec<i64>>,
    Vec<i64>,
    Vec<i64>,
))
    requires
        q > 0,
        e.len() == a.len(),
        rows_of_length(a@, s.len() as nat),
    ensures
        r.0 == a,
        r.2 == s,
        r.1.len() == a.len(),
        forall|i: int|
            0 <= i < a.len() ==> #[trigger] r.1[i] == (dot(a[i]@, s@) + e[i]) % (q as int),
{
    let mut b: Vec<i64> = Vec::new();
    let mut i: usize = 0;
    while i < a.len()
        invariant
            q > 0,
            e.len() == a.len(),
            rows_of_length(a@, s.len() as nat),
            i <= a.len(),
            b.len() == i,
            forall|j: int|
                0 <= j < i ==> #[trigger] b[j] == (dot(a[j]@, s@) + e[j]) % (q as int),
        decreases a.len() - i,
    {
        let d: i64 = dot_mod(a[i].as_slice(), s.as_slice(), q);
        let noise: i64 = reduce(e[i], q);
        proof {
            lemma_add_mod_noop(dot(a[i as int]@, s@), e[i as int] as int, q as int);
        }
        b.push(add_mod(d, noise, q));
        i = i + 1;
    }
    (a, b, s)
}

/// The sum modulo `q` of the selected members of `b`.
fn selected_sum_mod(b: &[i64], subset: &[bool], q: i64) -> (r: i64)
    requires
        q > 0,
        subset.len() == b.len(),
    ensures
        r == selected_sum(b@, subset@, b.len() as nat) % (q as int),
        0 <= r < q,
{
    let mut acc: i64 = 0;
    let mut i: usize = 0;
    proof {
        lemma_small_mod(0, q as nat);
    }
    while i < b.len()
        invariant
            q > 0,
            subset.len() == b.len(),
            i <= b.len(),
            0 <= acc < q,
            acc == selected_sum(b@, subset@, i as nat) % (q as int),
        decreases b.len() - i,
    {
        if subset[i] {
            let x: i64 = reduce(b[i], q);
            proof {
                lemma_add_mod_noop(
                    selected_sum(b@, subset@, i as nat),
                    b[i as int] as int,
                    q as int,
                );
            }
            acc = add_mod(acc, x, q);
        }
        i = i + 1;
    }
    acc
}

/// Encrypts the bit `msg` under the public key `(a, b)`: `u` is the sum of
/// the selected rows of `a`, and `v` the sum of the selected members of `b`
/// plus `msg * (q / 2)`, both modulo `q`.
pub fn lwe_encrypt(a: &[Vec<i64>], b: &[i64], msg: u8, q: i64, subset: &[bool]) -> (r: (
    Vec<i64>,
    i64,
))
    requires
        q > 0,
        b.len() == a.len(),
        subset.len() == a.len(),
        rows_of_length(a@, width(a@)),
    ensures
        r.0.len() == width(a@),
        forall|k: int|
            0 <= k < width(a@) ==> #[trigger] r.0[k] == selected_sum(
                column(a@, k),
                subset@,
                a.len() as nat,
            ) % (q as int),
        r.1 == (selected_sum(b@, subset@, b.len() as nat) + msg * (q / 2)) % (q as int),
{
    let n: usize = if a.len() == 0 { 0 } else { a[0].len() };
    let mut u: Vec<i64> = Vec::new();
    let mut k: usize = 0;
    while k < n
        invariant
            q > 0,
            subset.len() == a.len(),
            n == width(a@),
            rows_of_length(a@, n as nat),
            k <= n,
            u.len() == k,
            forall|j: int|
                0 <= j < k ==> #[trigger] u[j] == selected_sum(
                    column(a@, j),
                    subset@,
                    a.len() as nat,
                ) % (q as int),
        decreases n - k,
    {
        let col: Vec<i64> = column_of(a, k, n);
        u.push(selected_sum_mod(col.as_slice(), subset, q));
        k = k + 1;
    }
    let half: i64 = q / 2;
    let shift: i64 = mul_mod(msg as i64, half, q);
    let sum: i64 = selected_sum_mod(b, subset, q);
    proof {
        lemma_add_mod_noop(
            selected_sum(b@, subset@, b.len() as nat),
            msg as int * (q as int / 2),
            q as int,
        );
    }
    (u, add_mod(sum, shift, q))
}

/// Decrypts a ciphertext `(u, v)` with the secret `s`: the bit is 1 where
/// `v - <u, s>` modulo `q` is nearer to `q / 2` than to 0.
pub fn lwe_decrypt(s: &[i64], u: &[i64], v: i64, q: i64) -> (bit: u8)
    requires
        q > 0,
        u.len() == s.len(),
    ensures
        bit == spec_lwe_decrypt(s@, u@, v as int, q as int),
{
    let inner: i64 = dot_mod(u, s, q);
    let d: i64 = sub_mod(reduce(v, q), inner, q);
    proof {
        lemma_sub_mod_noop(v as int, dot(u@, s@), q as int);
    }
    let half: i64 = q / 2;
    let to_zero: i64 = if d <= q - d { d } else { q - d };
    let to_half: i64 = if d >= half { d - half } else { half - d };
    if to_half < to_zero {
        1
    } else {
        0
    }
}

/// The inner product of a vector of integers with a vector of words.
pub open spec fn int_dot(w: Seq<int>, s: Seq<i64>) -> int
    decreases w.len(),
{
    if w.len() == 0 {
        0
    } else {
        int_dot(w.drop_last(), s.drop_last()) + w.last() * s.last() as int
    }
}

/// The sum of the first `m` selected rows of a matrix, in the integers.
pub open spec fn selected_rows(a: Seq<Vec<i64>>, subset: Seq<bool>, m: nat, n: nat) -> Seq<int> {
    Seq::new(n, |k: int| selected_sum(column(a, k), subset, m))
}

/// The sum of the inner products of the first `m` selected rows with `s`.
pub open spec fn selected_dots(a: Seq<Vec<i64>>, s: Seq<i64>, subset: Seq<bool>, m: nat) -> int
    decreases m,
{
    if m == 0 {
        0
    } else {
        selected_dots(a, s, subset, (m - 1) as nat) + if subset[m - 1] {
            dot(a[m - 1]@, s)
        } else {
            0
        }
    }
}

/// The inner product is additive in its first argument.
proof fn lemma_int_dot_adds(w: Seq<int>, r: Seq<i64>, s: Seq<i64>, w2: Seq<int>)
    requires
        w.len() == s.len(),
        r.len() == s.len(),
        w2.len() == s.len(),
        forall|k: int| 0 <= k < s.len() ==> w2[k] == w[k] + r[k],
    ensures
        int_dot(w2, s) == int_dot(w, s) + dot(r, s),
    decreases s.len(),
{
    if s.len() > 0 {
        lemma_int_dot_adds(w.drop_last(), r.drop_last(), s.drop_last(), w2.drop_last());
        assert((w.last() + r.last()) * s.last() == w.last() * s.last() + r.last() * s.last())
            by (nonlinear_arith);
    }
}

/// The inner product with the zero vector is 0.
proof fn lemma_int_dot_zero(w: Seq<int>, s: Seq<i64>)
    requires
        w.len() == s.len(),
        forall|k: int| 0 <= k < w.len() ==> w[k] == 0,
    ensures
        int_dot(w, s) == 0,
    decreases w.len(),
{
    if w.len() > 0 {
        lemma_int_dot_zero(w.drop_last(), s.drop_last());
        assert(0 * s.last() == 0);
    }
}

/// The sum of the selected rows has as its inner product with `s` the sum
/// of the inner products of these rows.
proof fn lemma_selected_rows_dot(a: Seq<Vec<i64>>, s: Seq<i64>, subset: Seq<bool>, m: nat)
    requires
        m <= a.len(),
        subset.len() == a.len(),
        rows_of_length(a, s.len()),
    ensures
        int_dot(selected_rows(a, subset, m, s.len()), s) == selected_dots(a, s, subset, m),
    decreases m,
{
    let n = s.len();
    if m == 0 {
        lemma_int_dot_zero(selected_rows(a, subset, 0, n), s);
    } else {
        let j = (m - 1) as nat;
        lemma_selected_rows_dot(a, s, subset, j);
        let before = selected_rows(a, subset, j, n);
        let after = selected_rows(a, subset, m, n);
        if subset[m - 1] {
            assert forall|k: int| 0 <= k < n implies after[k] == before[k] + a[m - 1]@[k] by {
                assert(column(a, k)[m - 1] == a[m - 1]@[k]);
            }
            lemma_int_dot_adds(before, a[m - 1]@, s, after);
        } else {
            assert(after =~= before);
        }
    }
}

/// Vectors that agree modulo `q` have inner products that agree modulo `q`.
proof fn lemma_dot_congruent(u: Seq<i64>, w: Seq<int>, s: Seq<i64>, q: int)
    requires
        q > 0,
        u.len() == s.len(),
        w.len() == s.len(),
        forall|k: int| 0 <= k < s.len() ==> (u[k] - w[k]) % q == 0,
    ensures
        (dot(u, s) - int_dot(w, s)) % q == 0,
    decreases s.len(),
{
    lemma_small_mod(0, q as nat);
    if s.len() > 0 {
        lemma_dot_congruent(u.drop_last(), w.drop_last(), s.drop_last(), q);
        let x = dot(u.drop_last(), s.drop_last()) - int_dot(w.drop_last(), s.drop_last());
        let y = (u.last() - w.last()) * s.last();
        lemma_mul_mod_noop_left(u.last() - w.last(), s.last() as int, q);
        assert(0 * s.last() == 0);
        lemma_add_mod_noop(x, y, q);
        assert(u.last() * s.last() - w.last() * s.last() == y) by (nonlinear_arith)
            requires
                y == (u.last() - w.last()) * s.last(),
        ;
    }
}

/// The selected members of `b = a*s + e` sum to the selected inner products
/// plus the selected noise, modulo `q`.
proof fn lemma_selected_public_sum(
    a: Seq<Vec<i64>>,
    s: Seq<i64>,
    e: Seq<i64>,
    b: Seq<i64>,
    subset: Seq<bool>,
    q: int,
    m: nat,
)
    requires
        q > 0,
        m <= a.len(),
        b.len() == a.len(),
        e.len() == a.len(),
        subset.len() == a.len(),
        forall|i: int| 0 <= i < a.len() ==> #[trigger] b[i] == (dot(a[i]@, s) + e[i]) % q,
    ensures
        (selected_sum(b, subset, m) - selected_dots(a, s, subset, m) - selected_sum(e, subset, m))
            % q == 0,
    decreases m,
{
    lemma_small_mod(0, q as nat);
    if m > 0 {
        lemma_selected_public_sum(a, s, e, b, subset, q, (m - 1) as nat);
        if subset[m - 1] {
            let i = m - 1;
            let x = selected_sum(b, subset, (m - 1) as nat) - selected_dots(
                a,
                s,
                subset,
                (m - 1) as nat,
            ) - selected_sum(e, subset, (m - 1) as nat);
            let raw = dot(a[i]@, s) + e[i];
            assert(b[i] == raw % q);
            lemma_mod_twice(raw, q);
            lemma_mod_equivalence(b[i] as int, raw, q);
            lemma_add_mod_noop(x, b[i] - raw, q);
        }
    }
}

/// Decryption undoes encryption where the noise is small: if the selected
/// noise sums to less than a quarter of `q` in magnitude, the bit comes
/// back.
pub proof fn lemma_lwe_roundtrip(
    a: Seq<Vec<i64>>,
    s: Seq<i64>,
    e: Seq<i64>,
    b: Seq<i64>,
    subset: Seq<bool>,
    msg: int,
    q: int,
    u: Seq<i64>,
    v: int,
)
    requires
        q > 0,
        msg == 0 || msg == 1,
        b.len() == a.len(),
        e.len() == a.len(),
        subset.len() == a.len(),
        rows_of_length(a, s.len()),
        forall|i: int| 0 <= i < a.len() ==> #[trigger] b[i] == (dot(a[i]@, s) + e[i]) % q,
        u.len() == s.len(),
        forall|k: int|
            0 <= k < u.len() ==> #[trigger] u[k] == selected_sum(column(a, k), subset, a.len())
                % q,
        v == (selected_sum(b, subset, a.len()) + msg * (q / 2)) % q,
        -(q / 2) < 2 * selected_sum(e, subset, a.len()) < q / 2,
    ensures
        spec_lwe_decrypt(s, u, v, q) == msg,
{
    let m = a.len();
    let n = s.len();
    let noise = selected_sum(e, subset, m);
    let w = selected_rows(a, subset, m, n);
    let t = selected_dots(a, s, subset, m);
    let half = q / 2;
    lemma_selected_rows_dot(a, s, subset, m);
    assert forall|k: int| 0 <= k < n implies (u[k] - w[k]) % q == 0 by {
        lemma_mod_twice(w[k], q);
        lemma_mod_equivalence(u[k] as int, w[k], q);
    }
    lemma_dot_congruent(u, w, s, q);
    lemma_selected_public_sum(a, s, e, b, subset, q, m);
    // v - <u, s> is the noise plus msg * (q / 2), modulo q
    let raw = selected_sum(b, subset, m) + msg * half;
    let c1 = selected_sum(b, subset, m) - t - noise;
    let c2 = dot(u, s) - t;
    lemma_sub_mod_noop(c1, c2, q);
    lemma_small_mod(0, q as nat);
    assert((raw - dot(u, s)) - (noise + msg * half) == c1 - c2);
    lemma_mod_equivalence(raw - dot(u, s), noise + msg * half, q);
    lemma_sub_mod_noop(raw, dot(u, s), q);
    lemma_sub_mod_noop(v, dot(u, s), q);
    lemma_mod_twice(raw, q);
    let d = (v - dot(u, s)) % q;
    assert(d == (noise + msg * half) % q);
    lemma_fundamental_div_mod(q, 2);
    if msg == 0 {
        assert(msg * half == 0);
        if noise >= 0 {
            lemma_small_mod(noise as nat, q as nat);
        } else {
            lemma_mod_add_multiples_vanish(noise, q);
            lemma_small_mod((noise + q) as nat, q as nat);
        }
    } else {
        assert(msg * half == half);
        lemma_small_mod((noise + half) as nat, q as nat);
    }
}

/// The quotient rounded down, for a positive divisor.
fn floor_div(a: i128, b: i128) -> (q: i128)
    requires
        b > 0,
        -0x1000_0000_0000_0000_0000_0000_0000 < a < 0x1000_0000_0000_0000_0000_0000_0000,
        b < 0x1000_0000_0000_0000_0000_0000_0000,
    ensures
        q == a as int / b as int,
{
    if a >= 0 {
        a / b
    } else {
        let up: i128 = (-a + b - 1) / b;
        proof {
            let ai = a as int;
            let bi = b as int;
            let t = -ai + bi - 1;
            lemma_fundamental_div_mod(t, bi);
            lemma_mod_bound(t, bi);
            let r = t % bi;
            assert(ai == bi * (-(up as int)) + (bi - 1 - r)) by (nonlinear_arith)
                requires
                    t == bi * (up as int) + r,
                    t == -ai + bi - 1,
            ;
            assert(ai == (-(up as int)) * bi + (bi - 1 - r)) by (nonlinear_arith)
                requires
                    ai == bi * (-(up as int)) + (bi - 1 - r),
            ;
            lemma_fundamental_div_mod_converse(ai, bi, -(up as int), bi - 1 - r);
        }
        -up
    }
}

/// The squared length of a plane vector with short coordinates.
fn norm_of(v: (i128, i128)) -> (n: i128)
    requires
        -0x400_0000_0000 < v.0 < 0x400_0000_0000,
        -0x400_0000_0000 < v.1 < 0x400_0000_0000,
    ensures
        n == norm2((v.0 as int, v.1 as int)),
        0 <= n < 0x20_0000_0000_0000_0000_0000,
{
    assert(0 <= v.0 * v.0 < 0x10_0000_0000_0000_0000_0000) by (nonlinear_arith)
        requires
            -0x400_0000_0000 < v.0 < 0x400_0000_0000,
    ;
    assert(0 <= v.1 * v.1 < 0x10_0000_0000_0000_0000_0000) by (nonlinear_arith)
        requires
            -0x400_0000_0000 < v.1 < 0x400_0000_0000,
    ;
    v.0 * v.0 + v.1 * v.1
}

/// The second vector of the Gram-Schmidt orthogonalisation of `(b1, b2)`,
/// without division: the vector `n * b2 - d * b1` and the number `n`, where
/// `n` is the squared length of `b1` and `d` the inner product of the two.
///
/// Divided by `n`, where `n` is not 0, the vector is `b2` minus its
/// projection on `b1`; it is orthogonal to `b1`.  The coordinates must have
/// at most 40 bits.
pub fn gram_schmidt_scaled(b1: [i64; 2], b2: [i64; 2]) -> (r: ([i128; 2], i128))
    requires
        -0x100_0000_0000 <= b1[0] <= 0x100_0000_0000,
        -0x100_0000_0000 <= b1[1] <= 0x100_0000_0000,
        -0x100_0000_0000 <= b2[0] <= 0x100_0000_0000,
        -0x100_0000_0000 <= b2[1] <= 0x100_0000_0000,
    ensures
        r.1 == norm2(vec2(b1)),
        r.0[0] == norm2(vec2(b1)) * b2[0] - dot2(vec2(b1), vec2(b2)) * b1[0],
        r.0[1] == norm2(vec2(b1)) * b2[1] - dot2(vec2(b1), vec2(b2)) * b1[1],
        dot2(vec2(b1), (r.0[0] as int, r.0[1] as int)) == 0,
{
    let u: (i128, i128) = (b1[0] as i128, b1[1] as i128);
    let v: (i128, i128) = (b2[0] as i128, b2[1] as i128);
    let n: i128 = norm_of(u);
    assert(-0x1_0000_0000_0000_0000_0000 <= u.0 * v.0 <= 0x1_0000_0000_0000_0000_0000
        && -0x1_0000_0000_0000_0000_0000 <= u.1 * v.1 <= 0x1_0000_0000_0000_0000_0000)
        by (nonlinear_arith)
        requires
            -0x100_0000_0000 <= u.0 <= 0x100_0000_0000,
            -0x100_0000_0000 <= u.1 <= 0x100_0000_0000,
            -0x100_0000_0000 <= v.0 <= 0x100_0000_0000,
            -0x100_0000_0000 <= v.1 <= 0x100_0000_0000,
    ;
    let d: i128 = u.0 * v.0 + u.1 * v.1;
    assert(n <= 0x2_0000_0000_0000_0000_0000) by (nonlinear_arith)
        requires
            n == u.0 * u.0 + u.1 * u.1,
            -0x100_0000_0000 <= u.0 <= 0x100_0000_0000,
            -0x100_0000_0000 <= u.1 <= 0x100_0000_0000,
    ;
    assert(-0x200_0000_0000_0000_0000_0000_0000_0000 <= n * v.0
        <= 0x200_0000_0000_0000_0000_0000_0000_0000 && -0x200_0000_0000_0000_0000_0000_0000_0000
        <= n * v.1 <= 0x200_0000_0000_0000_0000_0000_0000_0000
        && -0x200_0000_0000_0000_0000_0000_0000_0000 <= d * u.0
        <= 0x200_0000_0000_0000_0000_0000_0000_0000 && -0x200_0000_0000_0000_0000_0000_0000_0000
        <= d * u.1 <= 0x200_0000_0000_0000_0000_0000_0000_0000) by (nonlinear_arith)
        requires
            0 <= n <= 0x2_0000_0000_0000_0000_0000,
            -0x2_0000_0000_0000_0000_0000 <= d <= 0x2_0000_0000_0000_0000_0000,
            -0x100_0000_0000 <= u.0 <= 0x100_0000_0000,
            -0x100_0000_0000 <= u.1 <= 0x100_0000_0000,
            -0x100_0000_0000 <= v.0 <= 0x100_0000_0000,
            -0x100_0000_0000 <= v.1 <= 0x100_0000_0000,
    ;
    let w0: i128 = n * v.0 - d * u.0;
    let w1: i128 = n * v.1 - d * u.1;
    proof {
        let x = u.0 as int;
        let y = u.1 as int;
        let ni = n as int;
        let di = d as int;
        assert(x * (ni * v.0 - di * x) == ni * (x * v.0) - di * (x * x)) by (nonlinear_arith);
        assert(y * (ni * v.1 - di * y) == ni * (y * v.1) - di * (y * y)) by (nonlinear_arith);
        assert(ni * (x * v.0) + ni * (y * v.1) == ni * di) by (nonlinear_arith)
            requires
                di == x * v.0 + y * v.1,
        ;
        assert(di * (x * x) + di * (y * y) == di * ni) by (nonlinear_arith)
            requires
                ni == x * x + y * y,
        ;
        assert(ni * di == di * ni) by (nonlinear_arith);
    }
    ([w0, w1], n)
}

/// Reduces a basis of a plane lattice by the algorithm of Lagrange and
/// Gauss, which is what LLL comes to in dimension 2.
///
/// The result spans the same lattice and is reduced.  The coordinates must
/// have at most 40 bits, so that every intermediate value fits in 128 bits.
pub fn lll_reduce_2d(b1: [i64; 2], b2: [i64; 2]) -> (r: ([i64; 2], [i64; 2]))
    requires
        -0x100_0000_0000 <= b1[0] <= 0x100_0000_0000,
        -0x100_0000_0000 <= b1[1] <= 0x100_0000_0000,
        -0x100_0000_0000 <= b2[0] <= 0x100_0000_0000,
        -0x100_0000_0000 <= b2[1] <= 0x100_0000_0000,
    ensures
        is_reduced_basis(vec2(r.0), vec2(r.1)),
        same_lattice(vec2(b1), vec2(b2), vec2(r.0), vec2(r.1)),
{
    let ghost g1 = vec2(b1);
    let ghost g2 = vec2(b2);
    let mut u: (i128, i128) = (b1[0] as i128, b1[1] as i128);
    let mut v: (i128, i128) = (b2[0] as i128, b2[1] as i128);
    let ghost mut x1: int = 1;
    let ghost mut y1: int = 0;
    let ghost mut x2: int = 0;
    let ghost mut y2: int = 1;
    proof {
        assert(norm2(g1) <= 0x2_0000_0000_0000_0000_0000) by (nonlinear_arith)
            requires
                -0x100_0000_0000 <= g1.0 <= 0x100_0000_0000,
                -0x100_0000_0000 <= g1.1 <= 0x100_0000_0000,
                norm2(g1) == g1.0 * g1.0 + g1.1 * g1.1,
        ;
        assert(norm2(g2) <= 0x2_0000_0000_0000_0000_0000) by (nonlinear_arith)
            requires
                -0x100_0000_0000 <= g2.0 <= 0x100_0000_0000,
                -0x100_0000_0000 <= g2.1 <= 0x100_0000_0000,
                norm2(g2) == g2.0 * g2.0 + g2.1 * g2.1,
        ;
        assert(1 * g1.0 + 0 * g2.0 == g1.0 && 1 * g1.1 + 0 * g2.1 == g1.1 && 0 * g1.0 + 1 * g2.0
            == g2.0 && 0 * g1.1 + 1 * g2.1 == g2.1);
    }
    if norm_of(u) > norm_of(v) {
        let t: (i128, i128) = u;
        u = v;
        v = t;
        proof {
            x1 = 0;
            y1 = 1;
            x2 = 1;
            y2 = 0;
        }
    }
    let mut done: bool = false;
    while !done
        invariant
            g1 == vec2(b1),
            g2 == vec2(b2),
            norm2((u.0 as int, u.1 as int)) <= 0x2_0000_0000_0000_0000_0000,
            norm2((v.0 as int, v.1 as int)) <= 0x2_0000_0000_0000_0000_0000,
            (u.0 as int, u.1 as int) == combine(x1, g1, y1, g2),
            (v.0 as int, v.1 as int) == combine(x2, g1, y2, g2),
            x1 * y2 - x2 * y1 == 1 || x1 * y2 - x2 * y1 == -1,
            done ==> is_reduced_basis((u.0 as int, u.1 as int), (v.0 as int, v.1 as int)),
        decreases norm2((u.0 as int, u.1 as int)) + if done { 0int } else { 1int },
    {
        let ghost ui = (u.0 as int, u.1 as int);
        let ghost vi = (v.0 as int, v.1 as int);
        proof {
            lemma_coordinate_bound(ui);
            lemma_coordinate_bound(vi);
        }
        let n: i128 = norm_of(u);
        if n == 0 {
            proof {
                assert(ui.0 == 0 && ui.1 == 0) by (nonlinear_arith)
                    requires
                        ui.0 * ui.0 + ui.1 * ui.1 == 0,
                ;
                assert(dot2(ui, vi) == 0) by (nonlinear_arith)
                    requires
                        ui.0 == 0 && ui.1 == 0,
                        dot2(ui, vi) == ui.0 * vi.0 + ui.1 * vi.1,
                ;
                assert(norm2(vi) >= 0) by (nonlinear_arith)
                    requires
                        norm2(vi) == vi.0 * vi.0 + vi.1 * vi.1,
                ;
            }
            done = true;
        } else {
            assert(-0x10_0000_0000_0000_0000_0000 < u.0 * v.0 < 0x10_0000_0000_0000_0000_0000
                && -0x10_0000_0000_0000_0000_0000 < u.1 * v.1 < 0x10_0000_0000_0000_0000_0000)
                by (nonlinear_arith)
                requires
                    -0x400_0000_0000 < u.0 < 0x400_0000_0000,
                    -0x400_0000_0000 < u.1 < 0x400_0000_0000,
                    -0x400_0000_0000 < v.0 < 0x400_0000_0000,
                    -0x400_0000_0000 < v.1 < 0x400_0000_0000,
            ;
            let d: i128 = u.0 * v.0 + u.1 * v.1;
            let mu: i128 = floor_div(2 * d + n, 2 * n);
            proof {
                lemma_size_reduce(ui, vi, mu as int);
                let wi = (vi.0 - mu * ui.0, vi.1 - mu * ui.1);
                lemma_coordinate_bound(wi);
                // the new vector in terms of the given basis
                lemma_combine_shift(x1, y1, x2, y2, mu as int, g1.0, g2.0);
                lemma_combine_shift(x1, y1, x2, y2, mu as int, g1.1, g2.1);
                assert(wi == combine(x2 - mu * x1, g1, y2 - mu * y1, g2));
                assert(x1 * (y2 - mu * y1) - (x2 - mu * x1) * y1 == x1 * y2 - x2 * y1)
                    by (nonlinear_arith);
                assert((x2 - mu * x1) * y1 - x1 * (y2 - mu * y1) == -(x1 * y2 - x2 * y1))
                    by (nonlinear_arith);
            }
            assert(-0x400_0000_0000 < v.0 - mu * u.0 < 0x400_0000_0000 && -0x400_0000_0000 < v.1
                - mu * u.1 < 0x400_0000_0000);
            assert(-0x800_0000_0000 < mu * u.0 < 0x800_0000_0000 && -0x800_0000_0000 < mu * u.1
                < 0x800_0000_0000);
            let w: (i128, i128) = (v.0 - mu * u.0, v.1 - mu * u.1);
            let wn: i128 = norm_of(w);
            if wn >= n {
                v = w;
                proof {
                    x2 = x2 - mu * x1;
                    y2 = y2 - mu * y1;
                }
                done = true;
            } else {
                v = u;
                u = w;
                proof {
                    let nx1 = x2 - mu * x1;
                    let ny1 = y2 - mu * y1;
                    x2 = x1;
                    y2 = y1;
                    x1 = nx1;
                    y1 = ny1;
                }
            }
        }
    }
    let r1: [i64; 2] = [u.0 as i64, u.1 as i64];
    let r2: [i64; 2] = [v.0 as i64, v.1 as i64];
    proof {
        lemma_coordinate_bound((u.0 as int, u.1 as int));
        lemma_coordinate_bound((v.0 as int, v.1 as int));
        assert(vec2(r1) == (u.0 as int, u.1 as int));
        assert(vec2(r2) == (v.0 as int, v.1 as int));
        assert(vec2(r2) == combine(x2, g1, y2, g2));
    }
    (r1, r2)
}

} // verus!
