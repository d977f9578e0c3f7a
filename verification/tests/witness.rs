use circuits::air::{Claim, Eval, N_INTERACTION_COLUMNS, N_TRACE_COLUMNS};
use circuits::eval_component::Component;
use circuits::field::{qm31_from_u32s, M31, QM31};
use circuits::poseidon2::poseidon2_value_qm31;
use circuits::poseidon_hash::{apply_external_round_matrix, apply_m4, pow5, pow5_expr};
use circuits::witness::{compute_row, write_trace};

#[test]
fn row_holds_inputs_and_output() {
    let in0 = [M31(7), M31(1), M31(2), M31(3)];
    let in1 = [M31(42), M31(4), M31(5), M31(6)];
    let row = compute_row(in0, in1);
    assert_eq!(&row[0..4], &in0);
    assert_eq!(&row[4..8], &in1);
    let out = poseidon2_value_qm31(QM31::from_m31_array(in0), QM31::from_m31_array(in1));
    assert_eq!(&row[8..12], &out);
}

#[test]
fn row_witnesses_follow_the_first_round() {
    let in0 = [M31(7), M31(0), M31(0), M31(0)];
    let in1 = [M31(42), M31(0), M31(0), M31(0)];
    let row = compute_row(in0, in1);
    let mut state = [M31(0); 16];
    state[0] = M31(7);
    state[1] = M31(42);
    apply_external_round_matrix(&mut state);
    let a0 = state[0].add(M31(circuits::poseidon_hash::RC_EXTERNAL[0][0]));
    assert_eq!(row[12], a0.mul(a0));
    assert_eq!(row[28], row[12].mul(row[12]));
    assert_eq!(row[8], M31(430726115));
}

#[test]
fn trace_of_gates() {
    let values = [qm31_from_u32s(7, 0, 0, 0), qm31_from_u32s(42, 0, 0, 0), qm31_from_u32s(1, 2, 3, 4)];
    let n = 16;
    let in0: Vec<usize> = (0..n).map(|i| i % 3).collect();
    let in1: Vec<usize> = (0..n).map(|i| (i + 1) % 3).collect();
    let out: Vec<usize> = (0..n).map(|i| 3 + i).collect();
    let mults: Vec<usize> = (0..n).map(|i| i % 2).collect();
    let (rows, log_size, lookup) = write_trace(&values, &in0, &in1, &out, &mults);
    assert_eq!(log_size, 4);
    assert_eq!(rows.len(), n);
    for r in 0..n {
        let a = values[in0[r]].to_m31_array();
        let b = values[in1[r]].to_m31_array();
        assert_eq!(rows[r], compute_row(a, b));
        assert_eq!(lookup.in_0[r], [M31(378353459), M31(in0[r] as u32), a[0], a[1], a[2], a[3]]);
        assert_eq!(lookup.in_1[r], [M31(378353459), M31(in1[r] as u32), b[0], b[1], b[2], b[3]]);
        assert_eq!(&lookup.out[r][2..6], &rows[r][8..12]);
        assert_eq!(lookup.out[r][1], M31(out[r] as u32));
        assert_eq!(lookup.out_mults[r], M31(mults[r] as u32));
    }
}

#[test]
fn claim_log_sizes() {
    let claim = Claim { log_size: 5 };
    let sizes = claim.log_sizes();
    assert_eq!(sizes.len(), 3);
    assert!(sizes[0].is_empty());
    assert_eq!(sizes[1], vec![5; N_TRACE_COLUMNS]);
    assert_eq!(sizes[2], vec![5; N_INTERACTION_COLUMNS]);
    let eval = Eval { claim };
    assert_eq!(eval.log_size(), 5);
    assert_eq!(eval.max_constraint_log_degree_bound(), 6);
}

#[test]
fn component_description() {
    let c = Component {};
    assert_eq!(c.name(), "poseidon_gate");
    assert_eq!(c.trace_columns(), 662);
    assert_eq!(c.interaction_columns(), 8);
    let uses = c.relation_uses_per_row();
    assert_eq!(uses[0].relation_id, "gate");
    assert_eq!(uses[0].uses, 3);
}

#[test]
fn m4_is_the_poseidon2_block() {
    let x = [M31(1), M31(10), M31(100), M31(1000)];
    assert_eq!(apply_m4(x), [M31(5 + 70 + 100 + 3000), M31(4 + 60 + 100 + 1000), M31(1 + 30 + 500 + 7000), M31(1 + 10 + 400 + 6000)]);
}

#[test]
fn fifth_powers() {
    assert_eq!(pow5(M31(2)), M31(32));
    assert_eq!(pow5_expr(M31(3)), M31(243));
}

#[test]
fn written_rows_satisfy_the_constraints() {
    let eval = Eval { claim: Claim { log_size: 4 } };
    let row = compute_row([M31(7), M31(1), M31(2), M31(3)], [M31(42), M31(4), M31(5), M31(6)]);
    let c = eval.evaluate(&[M31(0); 4], &row).0;
    assert_eq!(c.len(), 16 * 3 * 8 + 19 * 14 + 4);
    assert!(c.iter().all(|v| *v == M31(0)));
}

#[test]
fn a_changed_witness_breaks_a_constraint() {
    let eval = Eval { claim: Claim { log_size: 4 } };
    let mut row = compute_row([M31(7), M31(0), M31(0), M31(0)], [M31(42), M31(0), M31(0), M31(0)]);
    row[12] = row[12].add(M31(1));
    let c = eval.evaluate(&[M31(0); 4], &row).0;
    // The square of the first S-box input is now one too large.
    assert_eq!(c[0], M31(2147483646));
    let mut row = compute_row([M31(7), M31(0), M31(0), M31(0)], [M31(42), M31(0), M31(0), M31(0)]);
    let out1 = row[9];
    row[9] = out1.add(M31(5));
    let c = eval.evaluate(&[M31(0); 4], &row).0;
    let last = c.len() - 4;
    assert_eq!(c[last + 1], M31(5));
    assert!(c[..last].iter().all(|v| *v == M31(0)));
}

#[test]
fn relation_entries_are_the_stored_lookups() {
    let values = [qm31_from_u32s(7, 0, 0, 0), qm31_from_u32s(42, 1, 2, 3), qm31_from_u32s(5, 6, 7, 8)];
    let n = 16;
    let in0: Vec<usize> = (0..n).map(|i| i % 3).collect();
    let in1: Vec<usize> = (0..n).map(|i| (i + 2) % 3).collect();
    let out: Vec<usize> = (0..n).map(|i| 3 + i).collect();
    let mults: Vec<usize> = (0..n).map(|i| i % 4).collect();
    let (rows, log_size, lookup) = write_trace(&values, &in0, &in1, &out, &mults);
    let eval = Eval { claim: Claim { log_size } };
    for r in 0..n {
        let pre = [M31(in0[r] as u32), M31(in1[r] as u32), M31(out[r] as u32), M31(mults[r] as u32)];
        let e = eval.relation_entries(&pre, &rows[r]);
        assert_eq!(e[0], (M31(1), lookup.in_0[r]));
        assert_eq!(e[1], (M31(1), lookup.in_1[r]));
        assert_eq!(e[2], (M31(0).sub(lookup.out_mults[r]), lookup.out[r]));
    }
    assert_eq!(e_len(), Component {}.relation_uses_per_row()[0].uses as usize);
}

fn e_len() -> usize {
    let eval = Eval { claim: Claim { log_size: 4 } };
    let row = compute_row([M31(1), M31(2), M31(3), M31(4)], [M31(5), M31(6), M31(7), M31(8)]);
    eval.relation_entries(&[M31(0), M31(1), M31(2), M31(3)], &row).len()
}

#[test]
fn circuit_claim_reads_the_outputs() {
    let values = [qm31_from_u32s(7, 0, 0, 0), qm31_from_u32s(42, 1, 2, 3), qm31_from_u32s(5, 6, 7, 8)];
    let claim = circuits::air::circuit_claim([4, 5, 6], &values, &[2, 0, 2]);
    assert_eq!(claim.log_sizes, [4, 5, 6]);
    assert_eq!(claim.output_values, vec![values[2], values[0], values[2]]);
}
