use ecc_engine::circuits::{check_r1cs_witness, circuit_to_r1cs, evaluate_circuit, Gate};

#[test]
fn test_evaluate_circuit() {
    // Circuit: c = a * b + a
    // Wire 0: a (input), Wire 1: b (input)
    // Wire 2: a * b, Wire 3: (a*b) + a
    let gates = vec![Gate::Mul(0, 1), Gate::Add(2, 0)];
    let wires = evaluate_circuit(&gates, &[3, 5], 97);
    assert_eq!(wires[2], 15); // 3 * 5
    assert_eq!(wires[3], 18); // 15 + 3
}

#[test]
fn test_check_r1cs_witness() {
    // Simple constraint: a * b = c
    let a = vec![vec![0, 1, 0, 0]]; // selects wire 1
    let b = vec![vec![0, 0, 1, 0]]; // selects wire 2
    let c = vec![vec![0, 0, 0, 1]]; // selects wire 3
    let witness = vec![1, 3, 5, 15]; // [1, a, b, c]
    assert!(check_r1cs_witness(&a, &b, &c, &witness, 97));
}

#[test]
fn evaluate_circuit_exact_values() {
    let gates = vec![Gate::Mul(0, 1), Gate::Add(2, 0), Gate::Const(-1), Gate::Mul(3, 4)];
    assert_eq!(evaluate_circuit(&gates, &[3, 5], 97), vec![3, 5, 15, 18, 96, 79]);
    // the inputs are kept as they are, the gates reduce
    assert_eq!(evaluate_circuit(&gates, &[100, -92], 97), vec![100, -92, 15, 18, 96, 79]);
    assert_eq!(evaluate_circuit(&[], &[7, 8], 97), vec![7, 8]);
    assert_eq!(evaluate_circuit(&[Gate::Const(5)], &[], 3), vec![2]);
    assert_eq!(evaluate_circuit(&[Gate::Add(0, 0)], &[i64::MAX], i64::MAX), vec![i64::MAX, 0]);
    assert_eq!(evaluate_circuit(&[Gate::Mul(0, 0)], &[i64::MIN], i64::MAX), vec![i64::MIN, 1]);
}

#[test]
fn circuit_to_r1cs_exact_values() {
    let gates = vec![Gate::Mul(0, 1), Gate::Add(2, 0), Gate::Const(7), Gate::Add(1, 1)];
    let (a, b, c) = circuit_to_r1cs(&gates, 2);
    // witness: [1, in0, in1, w2, w3, w4, w5]
    assert_eq!(
        a,
        vec![
            vec![0, 1, 0, 0, 0, 0, 0],
            vec![0, 1, 0, 1, 0, 0, 0],
            vec![7, 0, 0, 0, 0, 0, 0],
            vec![0, 0, 2, 0, 0, 0, 0],
        ]
    );
    assert_eq!(
        b,
        vec![
            vec![0, 0, 1, 0, 0, 0, 0],
            vec![1, 0, 0, 0, 0, 0, 0],
            vec![1, 0, 0, 0, 0, 0, 0],
            vec![1, 0, 0, 0, 0, 0, 0],
        ]
    );
    assert_eq!(
        c,
        vec![
            vec![0, 0, 0, 1, 0, 0, 0],
            vec![0, 0, 0, 0, 1, 0, 0],
            vec![0, 0, 0, 0, 0, 1, 0],
            vec![0, 0, 0, 0, 0, 0, 1],
        ]
    );
    let (a0, b0, c0) = circuit_to_r1cs(&[], 3);
    assert!(a0.is_empty() && b0.is_empty() && c0.is_empty());
}

#[test]
fn the_r1cs_of_a_circuit_accepts_its_evaluation() {
    let gates = vec![
        Gate::Mul(0, 1),
        Gate::Add(2, 0),
        Gate::Const(-5),
        Gate::Mul(3, 4),
        Gate::Add(5, 5),
        Gate::Mul(6, 6),
    ];
    let (a, b, c) = circuit_to_r1cs(&gates, 2);
    for inputs in [[3_i64, 5], [0, 0], [-1, 96], [i64::MAX, i64::MIN]] {
        for modulus in [97_i64, 2, 1, i64::MAX] {
            let wires = evaluate_circuit(&gates, &inputs, modulus);
            let mut witness = vec![1];
            witness.extend(wires);
            assert!(check_r1cs_witness(&a, &b, &c, &witness, modulus));
            // a wrong output is rejected, unless everything is 0 modulo 1
            let last = witness.len() - 1;
            witness[last] = witness[last].wrapping_add(1);
            assert_eq!(check_r1cs_witness(&a, &b, &c, &witness, modulus), modulus == 1);
        }
    }
}

#[test]
fn check_r1cs_witness_edge_cases() {
    assert!(check_r1cs_witness(&[], &[], &[], &[1, 2, 3], 97));
    assert!(check_r1cs_witness(&[vec![]], &[vec![]], &[vec![]], &[], 97));
    let a = vec![vec![0, 1, 0, 0], vec![1, 0, 0, 0]];
    let b = vec![vec![0, 0, 1, 0], vec![1, 0, 0, 0]];
    let c = vec![vec![0, 0, 0, 1], vec![1, 0, 0, 0]];
    assert!(check_r1cs_witness(&a, &b, &c, &[1, 3, 5, 15], 97));
    assert!(check_r1cs_witness(&a, &b, &c, &[1, 3, 5, 15 + 97], 97));
    assert!(!check_r1cs_witness(&a, &b, &c, &[1, 3, 5, 16], 97));
    // the second constraint, 1 * 1 = 1, fails for a witness that starts with 2
    assert!(!check_r1cs_witness(&a, &b, &c, &[2, 3, 5, 15], 97));
    // 20 * 20 == 400 == 12 modulo 97
    assert!(check_r1cs_witness(&a, &b, &c, &[1, 20, 20, 12], 97));
}
