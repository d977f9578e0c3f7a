use circuits::attestation::{attestation_bytes, build_attestation_circuit, compute_attestation_commitment};

#[test]
fn test_attestation_bytes_format() {
    let att = attestation_bytes(1, 3, 25);
    assert_eq!(std::str::from_utf8(&att).unwrap(), "00000000010000000003000000000025");
}

#[test]
fn test_commitment_deterministic() {
    let att = attestation_bytes(1, 3, 25);
    let blinder = [1u8, 2, 3, 4, 5, 6, 7, 8, 9, 10, 11, 12, 13, 14, 15, 16];
    let c1 = compute_attestation_commitment(&att, &blinder);
    let c2 = compute_attestation_commitment(&att, &blinder);
    assert_eq!(c1, c2);
}

#[test]
fn test_wrong_attestation_different_commitment() {
    let blinder = [1u8; 16];
    let h1 = compute_attestation_commitment(&attestation_bytes(1, 3, 25), &blinder);
    let h2 = compute_attestation_commitment(&attestation_bytes(999, 3, 25), &blinder);
    assert_ne!(h1, h2);
}

#[test]
fn test_build_attestation_circuit() {
    let attestation = attestation_bytes(1, 3, 25);
    let blinder = [1u8, 2, 3, 4, 5, 6, 7, 8, 9, 10, 11, 12, 13, 14, 15, 16];
    let commitment = compute_attestation_commitment(&attestation, &blinder);
    let ctx = build_attestation_circuit(&attestation, &blinder, commitment, 1, 3, 25);
    assert!(ctx.check_vars_used());
}

#[test]
fn attestation_bytes_widths_and_maxima() {
    let att = attestation_bytes(9_999_999_999, 0, 999_999_999_999);
    assert_eq!(std::str::from_utf8(&att).unwrap(), "99999999990000000000999999999999");
    let att = attestation_bytes(1234567890, 42, 7);
    assert_eq!(std::str::from_utf8(&att).unwrap(), "12345678900000000042000000000007");
}

#[test]
fn attestation_circuit_holds_for_matching_data() {
    let attestation = attestation_bytes(1, 3, 25);
    let blinder = [1u8, 2, 3, 4, 5, 6, 7, 8, 9, 10, 11, 12, 13, 14, 15, 16];
    let commitment = compute_attestation_commitment(&attestation, &blinder);
    let ctx = build_attestation_circuit(&attestation, &blinder, commitment, 1, 3, 25);
    assert!(ctx.is_circuit_valid());
    assert!(ctx.circuit.check_yields());
    assert_eq!(ctx.circuit.output.len(), 4);
    assert_eq!(ctx.values()[ctx.circuit.output[0].in0], commitment);
    assert_eq!(ctx.values()[ctx.circuit.output[3].in0], circuits::field::qm31_from_u32s(25, 0, 0, 0));
}

#[test]
fn attestation_circuit_fails_for_other_transfer() {
    let attestation = attestation_bytes(1, 3, 25);
    let blinder = [7u8; 16];
    let commitment = compute_attestation_commitment(&attestation, &blinder);
    let ctx = build_attestation_circuit(&attestation, &blinder, commitment, 1, 3, 26);
    assert!(!ctx.is_circuit_valid());
}

#[test]
fn attestation_circuit_fails_for_wrong_blinder() {
    let attestation = attestation_bytes(5, 6, 7);
    let commitment = compute_attestation_commitment(&attestation, &[1u8; 16]);
    let ctx = build_attestation_circuit(&attestation, &[2u8; 16], commitment, 5, 6, 7);
    assert!(!ctx.is_circuit_valid());
}

#[test]
fn attestation_fields_read_back() {
    let att = attestation_bytes(4294967296, 77, 999999999999);
    assert!(att.iter().all(|b| b.is_ascii_digit()));
    let text = std::str::from_utf8(&att).unwrap();
    assert_eq!(text[0..10].parse::<u64>().unwrap(), 4294967296);
    assert_eq!(text[10..20].parse::<u64>().unwrap(), 77);
    assert_eq!(text[20..32].parse::<u64>().unwrap(), 999999999999);
}
