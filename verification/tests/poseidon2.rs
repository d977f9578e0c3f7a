use circuits::context::Context;
use circuits::field::{qm31_from_u32s, M31, QM31};
use circuits::ops::{eq, guess};
use circuits::poseidon2::{
    poseidon2_gate_value, poseidon2_hash_two, poseidon2_value, poseidon2_value_full, poseidon2_value_qm31,
    poseidon_gate,
};

#[test]
fn test_poseidon2_hash_two_7_42() {
    let mut context = Context::default();
    let a = guess(&mut context, qm31_from_u32s(7, 0, 0, 0));
    let b = guess(&mut context, qm31_from_u32s(42, 0, 0, 0));

    let out = poseidon2_hash_two(&mut context, a, b);
    let expected = guess(&mut context, qm31_from_u32s(430726115, 0, 0, 0));
    eq(&mut context, out, expected);

    context.finalize_guessed_vars();
    assert!(context.is_circuit_valid());
}

#[test]
fn value_hash_of_7_and_42() {
    assert_eq!(poseidon2_value(M31(7), M31(42)), M31(430726115));
}

#[test]
fn gates_and_value_agree_on_base_elements() {
    for (x, y) in [(0u32, 0u32), (1, 2), (123456, 2147483646), (99, 7)] {
        let mut context = Context::default();
        let a = guess(&mut context, qm31_from_u32s(x, 0, 0, 0));
        let b = guess(&mut context, qm31_from_u32s(y, 0, 0, 0));
        let out = poseidon2_hash_two(&mut context, a, b);
        let v = context.get(out);
        assert_eq!(v, qm31_from_u32s(poseidon2_value(M31(x), M31(y)).0, 0, 0, 0));
        let g = poseidon_gate(&mut context, a, b);
        assert_eq!(context.get(g).0.0, v.0.0);
    }
}

#[test]
fn qm31_hash_of_base_elements_is_base_hash() {
    let a = qm31_from_u32s(11, 0, 0, 0);
    let b = qm31_from_u32s(13, 0, 0, 0);
    assert_eq!(poseidon2_value_qm31(a, b), poseidon2_value_full(M31(11), M31(13)));
    let c = qm31_from_u32s(11, 1, 0, 0);
    assert_ne!(poseidon2_value_qm31(c, b), poseidon2_value_full(M31(11), M31(13)));
}

#[test]
fn poseidon_gate_value_is_the_four_first_elements() {
    let a = qm31_from_u32s(1, 2, 3, 4);
    let b = qm31_from_u32s(5, 6, 7, 8);
    let full = poseidon2_value_qm31(a, b);
    assert_eq!(poseidon2_gate_value(a, b), QM31::from_m31_array(full));
    for limb in full {
        assert!(limb.0 < circuits::field::P);
    }
}

#[test]
fn poseidon_gate_circuit_is_valid() {
    let mut context = Context::default();
    let a = guess(&mut context, qm31_from_u32s(7, 0, 0, 0));
    let b = guess(&mut context, qm31_from_u32s(42, 0, 0, 0));
    let mut prev = poseidon_gate(&mut context, a, b);
    for _ in 1..15 {
        prev = poseidon_gate(&mut context, prev, a);
    }
    circuits::ops::output(&mut context, prev);
    context.finalize_guessed_vars();
    assert!(context.is_circuit_valid());
    assert_eq!(context.circuit.poseidon.len(), 15);
    assert!(context.circuit.check_yields());
}
