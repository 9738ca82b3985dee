//! Vectors and matrices of machine integers: inner products, rows and
//! columns.

use crate::field::{add_mod, mul_mod, reduce};
use vstd::arithmetic::div_mod::*;
use vstd::prelude::*;

verus! {

/// The inner product of two vectors of the same length.
pub open spec fn dot(u: Seq<i64>, v: Seq<i64>) -> int
    decreases u.len(),
{
    if u.len() == 0 {
        0
    } else {
        dot(u.drop_last(), v.drop_last()) + u.last() as int * v.last() as int
    }
}

/// The column `k` of a matrix given by its rows.
pub open spec fn column(a: Seq<Vec<i64>>, k: int) -> Seq<i64> {
    Seq::new(a.len(), |i: int| a[i]@[k])
}

/// The length of the first row; 0 for a matrix without rows.
pub open spec fn width(a: Seq<Vec<i64>>) -> nat {
    if a.len() == 0 {
        0
    } else {
        a[0].len() as nat
    }
}

/// All rows have the length `n`.
pub open spec fn rows_of_length(a: Seq<Vec<i64>>, n: nat) -> bool {
    forall|i: int| 0 <= i < a.len() ==> (#[trigger] a[i]).len() == n
}

/// The inner product of two vectors modulo `q`.
pub fn dot_mod(u: &[i64], v: &[i64], q: i64) -> (r: i64)
    requires
        q > 0,
        u.len() == v.len(),
    ensures
        r == dot(u@, v@) % (q as int),
        0 <= r < q,
{
    let mut acc: i64 = 0;
    let mut k: usize = 0;
    proof {
        assert(u@.take(0) =~= Seq::<i64>::empty());
        lemma_small_mod(0, q as nat);
    }
    while k < u.len()
        invariant
            q > 0,
            u.len() == v.len(),
            k <= u.len(),
            0 <= acc < q,
            acc == dot(u@.take(k as int), v@.take(k as int)) % (q as int),
        decreases u.len() - k,
    {
        let x: i64 = reduce(u[k], q);
        let y: i64 = reduce(v[k], q);
        let t: i64 = mul_mod(x, y, q);
        proof {
            let qi = q as int;
            let before = dot(u@.take(k as int), v@.take(k as int));
            let ui = u[k as int] as int;
            let vi = v[k as int] as int;
            assert(u@.take(k + 1).drop_last() =~= u@.take(k as int));
            assert(v@.take(k + 1).drop_last() =~= v@.take(k as int));
            lemma_mul_mod_noop_general(ui, vi, qi);
            lemma_add_mod_noop(before, ui * vi, qi);
            lemma_mod_twice(before, qi);
            lemma_mod_twice(ui * vi, qi);
            lemma_add_mod_noop(before % qi, (ui * vi) % qi, qi);
        }
        acc = add_mod(acc, t, q);
        k = k + 1;
    }
    proof {
        assert(u@.take(u.len() as int) =~= u@);
        assert(v@.take(v.len() as int) =~= v@);
    }
    acc
}

/// The column `k` of a matrix.
pub fn column_of(a: &[Vec<i64>], k: usize, n: usize) -> (r: Vec<i64>)
    requires
        rows_of_length(a@, n as nat),
        k < n,
    ensures
        r@ == column(a@, k as int),
{
    let mut out: Vec<i64> = Vec::new();
    let mut i: usize = 0;
    while i < a.len()
        invariant
            rows_of_length(a@, n as nat),
            k < n,
            i <= a.len(),
            out@ == column(a@, k as int).take(i as int),
        decreases a.len() - i,
    {
        out.push(a[i][k]);
        i = i + 1;
        assert(out@ =~= column(a@, k as int).take(i as int));
    }
    assert(column(a@, k as int).take(a.len() as int) =~= column(a@, k as int));
    out
}

} // verus!
