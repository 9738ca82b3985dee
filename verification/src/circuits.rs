//! Arithmetic circuits over the integers modulo `m` and their rank-1
//! constraint systems.
//!
//! The wires of a circuit are numbered from 0: first the inputs, then the
//! output of each gate in turn.  The witness of the constraint system is the
//! constant 1 followed by the wires, so wire `i` stands at place `i + 1`.

use crate::field::{add_mod, mul_mod, reduce};
use crate::linalg::{dot, dot_mod, rows_of_length};
use vstd::arithmetic::div_mod::*;
use vstd::prelude::*;

verus! {

/// A gate of an arithmetic circuit; its operands are wire numbers.
#[derive(Debug, Clone)]
pub enum Gate {
    /// The sum of two wires.
    Add(usize, usize),
    /// The product of two wires.
    Mul(usize, usize),
    /// A constant.
    Const(i64),
}

/// A gate whose operands are among the first `n` wires.
pub open spec fn gate_ok(g: Gate, n: nat) -> bool {
    match g {
        Gate::Add(l, r) => l < n && r < n,
        Gate::Mul(l, r) => l < n && r < n,
        Gate::Const(_) => true,
    }
}

/// Every gate reads only inputs and outputs of earlier gates.
pub open spec fn circuit_ok(gates: Seq<Gate>, num_inputs: nat) -> bool {
    forall|i: int| 0 <= i < gates.len() ==> gate_ok(#[trigger] gates[i], (num_inputs + i) as nat)
}

/// The output of a gate on the given wires, reduced modulo `m`.
pub open spec fn gate_value(g: Gate, wires: Seq<i64>, m: int) -> int {
    match g {
        Gate::Add(l, r) => (wires[l as int] + wires[r as int]) % m,
        Gate::Mul(l, r) => (wires[l as int] * wires[r as int]) % m,
        Gate::Const(v) => v as int % m,
    }
}

/// The wires after the first `k` gates: the inputs as they are given, then
/// one output for each gate.
pub open spec fn spec_wires(gates: Seq<Gate>, inputs: Seq<i64>, m: int, k: nat) -> Seq<i64>
    decreases k,
{
    if k == 0 {
        inputs
    } else {
        let w = spec_wires(gates, inputs, m, (k - 1) as nat);
        w.push(gate_value(gates[k - 1], w, m) as i64)
    }
}

/// The coefficient at place `j` of the row of the matrix `A` for a gate.
pub open spec fn a_coeff(g: Gate, j: int) -> int {
    match g {
        Gate::Add(l, r) => (if j == l + 1 { 1int } else { 0int }) + (if j == r + 1 {
            1int
        } else {
            0int
        }),
        Gate::Mul(l, _) => if j == l + 1 { 1 } else { 0 },
        Gate::Const(v) => if j == 0 { v as int } else { 0 },
    }
}

/// The coefficient at place `j` of the row of the matrix `B` for a gate.
pub open spec fn b_coeff(g: Gate, j: int) -> int {
    match g {
        Gate::Mul(_, r) => if j == r + 1 { 1 } else { 0 },
        _ => if j == 0 { 1 } else { 0 },
    }
}

/// The coefficient at place `j` of the row of the matrix `C` that belongs
/// to the output wire `out`.
pub open spec fn c_coeff(out: int, j: int) -> int {
    if j == out + 1 {
        1
    } else {
        0
    }
}

/// The constraint `i` holds of the witness: `(A[i].w) * (B[i].w)` is
/// `C[i].w` modulo `m`.
pub open spec fn constraint_holds(
    a: Seq<Vec<i64>>,
    b: Seq<Vec<i64>>,
    c: Seq<Vec<i64>>,
    w: Seq<i64>,
    m: int,
    i: int,
) -> bool {
    (dot(a[i]@, w) * dot(b[i]@, w)) % m == dot(c[i]@, w) % m
}

/// The number of wires grows by one with each gate.
pub proof fn lemma_wires_len(gates: Seq<Gate>, inputs: Seq<i64>, m: int, k: nat)
    ensures
        spec_wires(gates, inputs, m, k).len() == inputs.len() + k,
    decreases k,
{
    if k > 0 {
        lemma_wires_len(gates, inputs, m, (k - 1) as nat);
    }
}

/// A gate's output stays where it is when further gates are evaluated.
pub proof fn lemma_wires_prefix(gates: Seq<Gate>, inputs: Seq<i64>, m: int, k: nat, n: nat, j: int)
    requires
        k <= n,
        0 <= j < inputs.len() + k,
    ensures
        spec_wires(gates, inputs, m, n)[j] == spec_wires(gates, inputs, m, k)[j],
    decreases n,
{
    if k < n {
        lemma_wires_len(gates, inputs, m, (n - 1) as nat);
        lemma_wires_prefix(gates, inputs, m, k, (n - 1) as nat, j);
    }
}

/// The inner product with a row that has at most two non-zero coefficients.
pub proof fn lemma_dot_sparse(row: Seq<i64>, w: Seq<i64>, p1: int, v1: int, p2: int, v2: int)
    requires
        row.len() == w.len(),
        forall|j: int|
            0 <= j < row.len() ==> (#[trigger] row[j]) == (if j == p1 { v1 } else { 0 }) + (if j
                == p2 { v2 } else { 0 }),
    ensures
        dot(row, w) == (if 0 <= p1 < row.len() { v1 * w[p1] } else { 0 }) + (if 0 <= p2
            < row.len() { v2 * w[p2] } else { 0 }),
    decreases row.len(),
{
    if row.len() > 0 {
        let n = row.len() - 1;
        lemma_dot_sparse(row.drop_last(), w.drop_last(), p1, v1, p2, v2);
        let x1 = if n == p1 { v1 } else { 0 };
        let x2 = if n == p2 { v2 } else { 0 };
        assert(row.last() == x1 + x2);
        assert((x1 + x2) * w[n] == x1 * w[n] + x2 * w[n]) by (nonlinear_arith);
        assert(0 * w[n] == 0);
    }
}

/// The constraint system of a circuit accepts the wires of its evaluation:
/// with the witness `[1, wires...]` every constraint holds.
pub proof fn lemma_r1cs_accepts_evaluation(
    gates: Seq<Gate>,
    inputs: Seq<i64>,
    m: int,
    a: Seq<Vec<i64>>,
    b: Seq<Vec<i64>>,
    c: Seq<Vec<i64>>,
    i: int,
)
    requires
        0 < m <= i64::MAX,
        circuit_ok(gates, inputs.len()),
        0 <= i < gates.len(),
        a.len() == gates.len(),
        b.len() == gates.len(),
        c.len() == gates.len(),
        rows_of_length(a, 1 + inputs.len() + gates.len()),
        rows_of_length(b, 1 + inputs.len() + gates.len()),
        rows_of_length(c, 1 + inputs.len() + gates.len()),
        forall|j: int|
            0 <= j < 1 + inputs.len() + gates.len() ==> (#[trigger] a[i]@[j]) == a_coeff(gates[i], j),
        forall|j: int|
            0 <= j < 1 + inputs.len() + gates.len() ==> (#[trigger] b[i]@[j]) == b_coeff(gates[i], j),
        forall|j: int|
            0 <= j < 1 + inputs.len() + gates.len() ==> (#[trigger] c[i]@[j]) == c_coeff(
                inputs.len() + i,
                j,
            ),
    ensures
        constraint_holds(a, b, c, seq![1i64] + spec_wires(gates, inputs, m, gates.len()), m, i),
{
    let n = gates.len();
    let wires = spec_wires(gates, inputs, m, n);
    let w = seq![1i64] + wires;
    let before = spec_wires(gates, inputs, m, i as nat);
    let out = inputs.len() + i;
    lemma_wires_len(gates, inputs, m, n);
    lemma_wires_len(gates, inputs, m, i as nat);
    lemma_wires_len(gates, inputs, m, (i + 1) as nat);
    lemma_wires_prefix(gates, inputs, m, (i + 1) as nat, n, out);
    let value = gate_value(gates[i], before, m);
    assert(gate_ok(gates[i], (inputs.len() + i) as nat));
    assert(w[out + 1] == wires[out]);
    assert(w[0] == 1);
    lemma_dot_sparse(c[i]@, w, out + 1, 1, out + 1, 0);
    assert(1 * w[out + 1] == w[out + 1]);
    assert(0 * w[out + 1] == 0);
    match gates[i] {
        Gate::Add(l, r) => {
            lemma_wires_prefix(gates, inputs, m, i as nat, n, l as int);
            lemma_wires_prefix(gates, inputs, m, i as nat, n, r as int);
            lemma_mod_bound(before[l as int] + before[r as int], m);
            lemma_dot_sparse(a[i]@, w, l + 1, 1, r + 1, 1);
            lemma_dot_sparse(b[i]@, w, 0, 1, 0, 0);
            assert(1 * w[l + 1] == w[l + 1] && 1 * w[r + 1] == w[r + 1] && 0 * w[0] == 0 && 1
                * w[0] == 1);
            assert((w[l + 1] + w[r + 1]) * 1 == w[l + 1] + w[r + 1]);
            lemma_mod_twice(before[l as int] + before[r as int], m);
        },
        Gate::Mul(l, r) => {
            lemma_wires_prefix(gates, inputs, m, i as nat, n, l as int);
            lemma_wires_prefix(gates, inputs, m, i as nat, n, r as int);
            lemma_mod_bound(before[l as int] * before[r as int], m);
            lemma_dot_sparse(a[i]@, w, l + 1, 1, l + 1, 0);
            lemma_dot_sparse(b[i]@, w, r + 1, 1, r + 1, 0);
            assert(1 * w[l + 1] == w[l + 1] && 1 * w[r + 1] == w[r + 1] && 0 * w[l + 1] == 0 && 0
                * w[r + 1] == 0);
            lemma_mod_twice(before[l as int] * before[r as int], m);
        },
        Gate::Const(v) => {
            lemma_mod_bound(v as int, m);
            lemma_dot_sparse(a[i]@, w, 0, v as int, 0, 0);
            lemma_dot_sparse(b[i]@, w, 0, 1, 0, 0);
            assert(v * w[0] == v && 0 * w[0] == 0 && 1 * w[0] == 1) by (nonlinear_arith)
                requires
                    w[0] == 1,
            ;
            assert((v as int) * 1 == v);
            lemma_mod_twice(v as int, m);
        },
    }
}

/// Evaluates a circuit: the values of all wires, the inputs first.
pub fn evaluate_circuit(gates: &[Gate], inputs: &[i64], modulus: i64) -> (r: Vec<i64>)
    requires
        modulus > 0,
        circuit_ok(gates@, inputs.len() as nat),
    ensures
        r@ == spec_wires(gates@, inputs@, modulus as int, gates.len() as nat),
        r.len() == inputs.len() + gates.len(),
{
    let mut wires: Vec<i64> = Vec::new();
    let mut j: usize = 0;
    while j < inputs.len()
        invariant
            j <= inputs.len(),
            wires@ == inputs@.take(j as int),
        decreases inputs.len() - j,
    {
        wires.push(inputs[j]);
        j = j + 1;
        assert(wires@ =~= inputs@.take(j as int));
    }
    assert(inputs@.take(inputs.len() as int) =~= inputs@);
    let mut i: usize = 0;
    while i < gates.len()
        invariant
            modulus > 0,
            circuit_ok(gates@, inputs.len() as nat),
            i <= gates.len(),
            wires.len() == inputs.len() + i,
            wires@ == spec_wires(gates@, inputs@, modulus as int, i as nat),
        decreases gates.len() - i,
    {
        assert(gate_ok(gates@[i as int], (inputs.len() + i) as nat));
        let value: i64 = match gates[i] {
            Gate::Add(l, r) => {
                let x: i64 = reduce(wires[l], modulus);
                let y: i64 = reduce(wires[r], modulus);
                proof {
                    lemma_add_mod_noop(wires[l as int] as int, wires[r as int] as int, modulus as int);
                }
                add_mod(x, y, modulus)
            },
            Gate::Mul(l, r) => {
                let x: i64 = reduce(wires[l], modulus);
                let y: i64 = reduce(wires[r], modulus);
                proof {
                    lemma_mul_mod_noop_general(
                        wires[l as int] as int,
                        wires[r as int] as int,
                        modulus as int,
                    );
                }
                mul_mod(x, y, modulus)
            },
            Gate::Const(v) => reduce(v, modulus),
        };
        wires.push(value);
        i = i + 1;
    }
    wires
}

/// One row of coefficients, from its spec.
fn build_row(size: usize, first: usize, first_value: i64, second: usize, second_value: i64) -> (row:
    Vec<i64>)
    requires
        first < size,
        second < size,
        first == second ==> first_value as int + second_value as int <= i64::MAX && first_value
            as int + second_value as int >= i64::MIN,
    ensures
        row.len() == size,
        forall|j: int|
            0 <= j < size ==> #[trigger] row[j] == (if j == first {
                first_value as int
            } else {
                0
            }) + (if j == second {
                second_value as int
            } else {
                0
            }),
{
    let mut row: Vec<i64> = Vec::new();
    let mut j: usize = 0;
    while j < size
        invariant
            j <= size,
            row.len() == j,
            first == second ==> first_value as int + second_value as int <= i64::MAX && first_value
                as int + second_value as int >= i64::MIN,
            forall|k: int|
                0 <= k < j ==> #[trigger] row[k] == (if k == first {
                    first_value as int
                } else {
                    0
                }) + (if k == second {
                    second_value as int
                } else {
                    0
                }),
        decreases size - j,
    {
        let x: i64 = if j == first { first_value } else { 0 };
        let y: i64 = if j == second { second_value } else { 0 };
        row.push(x + y);
        j = j + 1;
    }
    row
}

/// The rank-1 constraint system of a circuit: the matrices `(A, B, C)` with
/// one row for each gate, over the witness `[1, wires...]`.
///
/// A product gate gives `w_l * w_r = w_out`, a sum gate
/// `(w_l + w_r) * 1 = w_out`, and a constant gate `v * 1 = w_out`.
pub fn circuit_to_r1cs(gates: &[Gate], num_inputs: usize) -> (r: (
    Vec<Vec<i64>>,
    Vec<Vec<i64>>,
    Vec<Vec<i64>>,
))
    requires
        circuit_ok(gates@, num_inputs as nat),
        1 + num_inputs + gates.len() <= usize::MAX,
    ensures
        r.0.len() == gates.len(),
        r.1.len() == gates.len(),
        r.2.len() == gates.len(),
        rows_of_length(r.0@, (1 + num_inputs + gates.len()) as nat),
        rows_of_length(r.1@, (1 + num_inputs + gates.len()) as nat),
        rows_of_length(r.2@, (1 + num_inputs + gates.len()) as nat),
        forall|i: int, j: int|
            0 <= i < gates.len() && 0 <= j < 1 + num_inputs + gates.len() ==> (#[trigger] r.0[i]@[j])
                == a_coeff(gates[i], j),
        forall|i: int, j: int|
            0 <= i < gates.len() && 0 <= j < 1 + num_inputs + gates.len() ==> (#[trigger] r.1[i]@[j])
                == b_coeff(gates[i], j),
        forall|i: int, j: int|
            0 <= i < gates.len() && 0 <= j < 1 + num_inputs + gates.len() ==> (#[trigger] r.2[i]@[j])
                == c_coeff(num_inputs + i, j),
{
    let size: usize = 1 + num_inputs + gates.len();
    let mut a: Vec<Vec<i64>> = Vec::new();
    let mut b: Vec<Vec<i64>> = Vec::new();
    let mut c: Vec<Vec<i64>> = Vec::new();
    let mut i: usize = 0;
    while i < gates.len()
        invariant
            circuit_ok(gates@, num_inputs as nat),
            size == 1 + num_inputs + gates.len(),
            i <= gates.len(),
            a.len() == i,
            b.len() == i,
            c.len() == i,
            rows_of_length(a@, size as nat),
            rows_of_length(b@, size as nat),
            rows_of_length(c@, size as nat),
            forall|k: int, j: int|
                0 <= k < i && 0 <= j < size ==> (#[trigger] a[k]@[j]) == a_coeff(gates[k], j),
            forall|k: int, j: int|
                0 <= k < i && 0 <= j < size ==> (#[trigger] b[k]@[j]) == b_coeff(gates[k], j),
            forall|k: int, j: int|
                0 <= k < i && 0 <= j < size ==> (#[trigger] c[k]@[j]) == c_coeff(num_inputs + k, j),
        decreases gates.len() - i,
    {
        assert(gate_ok(gates@[i as int], (num_inputs + i) as nat));
        let out: usize = num_inputs + i + 1;
        let (row_a, row_b) = match gates[i] {
            Gate::Add(l, r) => (build_row(size, l + 1, 1, r + 1, 1), build_row(size, 0, 1, 0, 0)),
            Gate::Mul(l, r) => (
                build_row(size, l + 1, 1, l + 1, 0),
                build_row(size, r + 1, 1, r + 1, 0),
            ),
            Gate::Const(v) => (build_row(size, 0, v, 0, 0), build_row(size, 0, 1, 0, 0)),
        };
        let row_c: Vec<i64> = build_row(size, out, 1, out, 0);
        a.push(row_a);
        b.push(row_b);
        c.push(row_c);
        i = i + 1;
    }
    (a, b, c)
}

/// Whether a witness satisfies a rank-1 constraint system: for each row `i`
/// the product of `A[i].w` and `B[i].w` is `C[i].w` modulo the modulus.
pub fn check_r1cs_witness(
    a: &[Vec<i64>],
    b: &[Vec<i64>],
    c: &[Vec<i64>],
    witness: &[i64],
    modulus: i64,
) -> (ok: bool)
    requires
        modulus > 0,
        b.len() == a.len(),
        c.len() == a.len(),
        rows_of_length(a@, witness.len() as nat),
        rows_of_length(b@, witness.len() as nat),
        rows_of_length(c@, witness.len() as nat),
    ensures
        ok == forall|i: int|
            0 <= i < a.len() ==> constraint_holds(a@, b@, c@, witness@, modulus as int, i),
{
    let mut i: usize = 0;
    while i < a.len()
        invariant
            modulus > 0,
            b.len() == a.len(),
            c.len() == a.len(),
            rows_of_length(a@, witness.len() as nat),
            rows_of_length(b@, witness.len() as nat),
            rows_of_length(c@, witness.len() as nat),
            i <= a.len(),
            forall|k: int| 0 <= k < i ==> constraint_holds(a@, b@, c@, witness@, modulus as int, k),
        decreases a.len() - i,
    {
        let left: i64 = dot_mod(a[i].as_slice(), witness, modulus);
        let right: i64 = dot_mod(b[i].as_slice(), witness, modulus);
        let out: i64 = dot_mod(c[i].as_slice(), witness, modulus);
        proof {
            lemma_mul_mod_noop_general(
                dot(a[i as int]@, witness@),
                dot(b[i as int]@, witness@),
                modulus as int,
            );
        }
        if mul_mod(left, right, modulus) != out {
            assert(!constraint_holds(a@, b@, c@, witness@, modulus as int, i as int));
            return false;
        }
        i = i + 1;
    }
    true
}

} // verus!
