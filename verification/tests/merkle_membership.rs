use circuits::field::M31;
use circuits::merkle_membership::build_merkle_membership_context;

#[test]
fn test_merkle_membership_context_depth_0() {
    let context = build_merkle_membership_context(0);

    assert!(context.check_vars_used());
    assert!(context.circuit.check_yields());
    assert!(context.is_circuit_valid());
    assert_eq!(context.circuit.output.len(), 1);
}

#[test]
fn test_merkle_membership_context_depth_3_with_poseidon() {
    let context = build_merkle_membership_context(3);

    assert!(context.check_vars_used());
    assert!(context.circuit.check_yields());
    assert!(context.is_circuit_valid());

    assert!(context.circuit.mul.len() > 10);
    assert!(context.circuit.eq.len() >= 4);
    assert_eq!(context.circuit.output.len(), 1);
}

#[test]
fn merkle_root_of_depth_1_is_hash_of_zeros() {
    let context = build_merkle_membership_context(1);
    let root = context.values()[context.circuit.output[0].in0];
    assert_eq!(root.0.0, circuits::poseidon2::poseidon2_value(M31(0), M31(0)));
    assert_eq!(context.circuit.eq.len(), 2);
}

#[test]
fn merkle_levels_add_their_multiplications() {
    for depth in 0..3 {
        let context = build_merkle_membership_context(depth);
        assert!(context.circuit.mul.len() >= 386 * depth);
        assert_eq!(context.circuit.eq.len(), depth + 1);
    }
}
