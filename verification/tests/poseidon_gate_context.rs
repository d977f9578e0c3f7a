use circuits::air::{Claim, Eval};
use circuits::context::Context;
use circuits::field::{qm31_from_u32s, M31};
use circuits::finalize::finalize_context;
use circuits::ops::{guess, output};
use circuits::poseidon2::{poseidon2_gate_value, poseidon_gate};
use circuits::witness::write_trace;

fn build_poseidon_gate_context() -> Context {
    let mut context = Context::default();

    let a = guess(&mut context, qm31_from_u32s(7, 0, 0, 0));
    let b = guess(&mut context, qm31_from_u32s(42, 0, 0, 0));

    // Hash chain: out0 = poseidon(a, b), out1 = poseidon(out0, a), etc.
    let mut prev = poseidon_gate(&mut context, a, b);
    for _ in 1..15 {
        prev = poseidon_gate(&mut context, prev, a);
    }
    output(&mut context, prev);

    context
}

#[test]
fn poseidon_gate_context_is_a_hash_chain() {
    let context = build_poseidon_gate_context();
    let a = qm31_from_u32s(7, 0, 0, 0);
    let mut expected = poseidon2_gate_value(a, qm31_from_u32s(42, 0, 0, 0));
    for _ in 1..15 {
        expected = poseidon2_gate_value(expected, a);
    }
    let out = context.circuit.output[0].in0;
    assert_eq!(context.values()[out], expected);
    assert_eq!(context.circuit.poseidon.len(), 15);
}

#[test]
fn poseidon_gate_context_trace_satisfies_the_air() {
    let mut context = build_poseidon_gate_context();
    context.finalize_guessed_vars();
    finalize_context(&mut context);
    assert!(context.is_circuit_valid());

    let gates = &context.circuit.poseidon;
    let n = gates.len();
    assert!(n.is_power_of_two() && n >= 16);
    let in0: Vec<usize> = gates.iter().map(|g| g.in0).collect();
    let in1: Vec<usize> = gates.iter().map(|g| g.in1).collect();
    let out: Vec<usize> = gates.iter().map(|g| g.out).collect();
    let mults: Vec<usize> = vec![1; n];
    let (rows, log_size, lookup) = write_trace(context.values(), &in0, &in1, &out, &mults);
    assert_eq!(1usize << log_size, n);

    let eval = Eval { claim: Claim { log_size } };
    for (r, row) in rows.iter().enumerate() {
        let pre = [M31(in0[r] as u32), M31(in1[r] as u32), M31(out[r] as u32), M31(1)];
        let (constraints, entries) = eval.evaluate(&pre, row);
        assert!(constraints.iter().all(|v| *v == M31(0)));
        assert_eq!(entries[0], (M31(1), lookup.in_0[r]));
        assert_eq!(entries[1], (M31(1), lookup.in_1[r]));
        assert_eq!(entries[2], (M31(0).sub(M31(1)), lookup.out[r]));
        // The output coordinates of each row hold the value of its output variable.
        assert_eq!(&row[8..12], &context.values()[out[r]].to_m31_array());
        assert_eq!(&lookup.out[r][2..6], &row[8..12]);
    }
}
