//! The trace of the Poseidon gate component: one row of intermediate
//! Poseidon2 values per gate, and the entries that each row puts into the relation of gates.
use crate::air::N_TRACE_COLUMNS;
use crate::air::GATE_RELATION_ID;
use crate::field::{m31_mul, reduce, M31, QM31};
use crate::finalize::{is_power_of_two, log2_of_power_of_two, pow2, N_LANES};
use crate::poseidon_hash::{
    add_round_constants, apply_external_round_matrix, apply_internal_round_matrix, external,
    full_round, full_rounds, lemma_external, m31_ops, partial_round, partial_rounds, permutation,
    sbox, N_HALF_FULL_ROUNDS, N_PARTIAL_ROUNDS, N_STATE, RC_EXTERNAL, RC_INTERNAL,
};
use vstd::prelude::*;

verus! {

/// The 48 witness values of full round `r` applied to `s`: the squares of the
/// S-box inputs, their fourth powers, and the state after the round.
pub open spec fn full_round_witness(s: Seq<M31>, r: int) -> Seq<M31> {
    let o = m31_ops();
    let a = add_round_constants(o, s, r);
    let x2 = Seq::new(16, |i: int| m31_mul(a[i], a[i]));
    let x4 = Seq::new(16, |i: int| m31_mul(x2[i], x2[i]));
    x2 + x4 + full_round(o, s, r)
}

/// The 19 witness values of partial round `r` applied to `s`: the square,
/// fourth and fifth power of the S-box input, and the state after the round.
pub open spec fn partial_round_witness(s: Seq<M31>, r: int) -> Seq<M31> {
    let o = m31_ops();
    let a = crate::field::m31_add(s[0], M31(RC_INTERNAL[r]));
    let x2 = m31_mul(a, a);
    let x4 = m31_mul(x2, x2);
    seq![x2, x4, m31_mul(x4, a)] + partial_round(o, s, r)
}

/// The witnesses of full rounds `first .. first + n`, in order.
pub open spec fn full_rounds_witness(s: Seq<M31>, first: int, n: nat) -> Seq<M31>
    decreases n,
{
    if n == 0 {
        seq![]
    } else {
        full_rounds_witness(s, first, (n - 1) as nat) + full_round_witness(
            full_rounds(m31_ops(), s, first, (n - 1) as nat),
            first + n - 1,
        )
    }
}

/// The witnesses of partial rounds `0 .. n`, in order.
pub open spec fn partial_rounds_witness(s: Seq<M31>, n: nat) -> Seq<M31>
    decreases n,
{
    if n == 0 {
        seq![]
    } else {
        partial_rounds_witness(s, (n - 1) as nat) + partial_round_witness(
            partial_rounds(m31_ops(), s, (n - 1) as nat),
            n - 1,
        )
    }
}

/// The Poseidon2 state of a gate with inputs `in0` and `in1`, given by their
/// coordinates: `[in0[0], in1[0], in0[1], in0[2], in0[3], in1[1], in1[2], in1[3], 0, ..., 0]`.
pub open spec fn gate_state(in0: Seq<M31>, in1: Seq<M31>) -> Seq<M31> {
    seq![in0[0], in1[0], in0[1], in0[2], in0[3], in1[1], in1[2], in1[3]] + Seq::new(
        8,
        |i: int| M31(0),
    )
}

/// The row of the Poseidon gate: the coordinates of `in0`, of `in1` and of
/// the output (the first four elements of the permuted `gate_state`), then
/// the witnesses of the rounds after the initial external matrix.
pub open spec fn trace_row(in0: Seq<M31>, in1: Seq<M31>) -> Seq<M31> {
    let o = m31_ops();
    let s0 = gate_state(in0, in1);
    let x1 = external(o, s0);
    let x2 = full_rounds(o, x1, 0, 4);
    let x3 = partial_rounds(o, x2, 14);
    in0 + in1 + permutation(o, s0).take(4) + full_rounds_witness(x1, 0, 4) + partial_rounds_witness(x2, 14)
        + full_rounds_witness(x3, 4, 4)
}

/// Writes the witnesses of full round `round` at `col ..` and applies the round.
fn write_full_round(cols: &mut [M31; N_TRACE_COLUMNS], col: usize, state: &mut [M31; N_STATE], round: usize) -> (next: usize)
    requires
        col + 48 <= N_TRACE_COLUMNS,
        round < 8,
    ensures
        next == col + 48,
        final(state)@ == full_round(m31_ops(), old(state)@, round as int),
        final(cols)@.subrange(col as int, next as int) == full_round_witness(old(state)@, round as int),
        forall|k: int| 0 <= k < N_TRACE_COLUMNS && (k < col || k >= col + 48) ==> #[trigger] final(cols)@[k]
            == old(cols)@[k],
{
    let ghost s0 = state@;
    let ghost c0 = cols@;
    let ghost o = m31_ops();
    for i in 0..N_STATE
        invariant
            round < 8,
            forall|k: int| 0 <= k < 16 ==> #[trigger] state@[k] == if k < i {
                crate::field::m31_add(s0[k], M31(RC_EXTERNAL[round as int][k]))
            } else {
                s0[k]
            },
    {
        state[i] = state[i].add(M31::from_u32_unchecked(RC_EXTERNAL[round][i]));
    }
    let ghost a = add_round_constants(o, s0, round as int);
    assert(state@ =~= a);
    let before = *state;
    let ghost x2 = Seq::new(16, |i: int| m31_mul(a[i], a[i]));
    let ghost x4 = Seq::new(16, |i: int| m31_mul(x2[i], x2[i]));
    let start = col;
    let mut col = col;
    // x^2 witnesses
    for i in 0..N_STATE
        invariant
            col == start + i,
            col + 48 - i <= N_TRACE_COLUMNS,
            before@ == a,
            o == m31_ops(),
            a == add_round_constants(o, s0, round as int),
            x2 == Seq::new(16, |i: int| m31_mul(a[i], a[i])),
            x4 == Seq::new(16, |i: int| m31_mul(x2[i], x2[i])),
            forall|k: int| 0 <= k < 16 ==> #[trigger] state@[k] == if k < i { x2[k] } else { a[k] },
            forall|k: int| 0 <= k < i ==> #[trigger] cols@[start + k] == x2[k],
            forall|k: int| 0 <= k < N_TRACE_COLUMNS && (k < start || k >= start + i) ==> #[trigger] cols@[k]
                == c0[k],
    {
        let v = state[i].mul(state[i]);
        cols[col] = v;
        col += 1;
        state[i] = v;
    }
    // x^4 witnesses
    for i in 0..N_STATE
        invariant
            col == start + 16 + i,
            col + 32 - i <= N_TRACE_COLUMNS,
            before@ == a,
            o == m31_ops(),
            a == add_round_constants(o, s0, round as int),
            x2 == Seq::new(16, |i: int| m31_mul(a[i], a[i])),
            x4 == Seq::new(16, |i: int| m31_mul(x2[i], x2[i])),
            forall|k: int| 0 <= k < 16 ==> #[trigger] state@[k] == if k < i { x4[k] } else { x2[k] },
            forall|k: int| 0 <= k < 16 ==> #[trigger] cols@[start + k] == x2[k],
            forall|k: int| 0 <= k < i ==> #[trigger] cols@[start + 16 + k] == x4[k],
            forall|k: int| 0 <= k < N_TRACE_COLUMNS && (k < start || k >= start + 16 + i) ==> #[trigger] cols@[k]
                == c0[k],
    {
        let v = state[i].mul(state[i]);
        cols[col] = v;
        col += 1;
        state[i] = v;
    }
    // x^5 = x^4 * x, then the external matrix
    for i in 0..N_STATE
        invariant
            before@ == a,
            o == m31_ops(),
            a == add_round_constants(o, s0, round as int),
            x2 == Seq::new(16, |i: int| m31_mul(a[i], a[i])),
            x4 == Seq::new(16, |i: int| m31_mul(x2[i], x2[i])),
            forall|k: int| 0 <= k < 16 ==> #[trigger] state@[k] == if k < i { sbox(o, a[k]) } else { x4[k] },
    {
        state[i] = state[i].mul(before[i]);
    }
    assert(state@ =~= Seq::new(16, |i: int| sbox(o, a[i])));
    apply_external_round_matrix(state);
    assert(state@ == full_round(o, s0, round as int));
    proof {
        lemma_external(o, Seq::new(16, |i: int| sbox(o, a[i])), 0);
    }
    for i in 0..N_STATE
        invariant
            col == start + 32 + i,
            col + 16 - i <= N_TRACE_COLUMNS,
            state@ == full_round(o, s0, round as int),
            state@.len() == 16,
            o == m31_ops(),
            a == add_round_constants(o, s0, round as int),
            x2 == Seq::new(16, |i: int| m31_mul(a[i], a[i])),
            x4 == Seq::new(16, |i: int| m31_mul(x2[i], x2[i])),
            forall|k: int| 0 <= k < 16 ==> #[trigger] cols@[start + k] == x2[k],
            forall|k: int| 0 <= k < 16 ==> #[trigger] cols@[start + 16 + k] == x4[k],
            forall|k: int| 0 <= k < i ==> #[trigger] cols@[start + 32 + k] == state@[k],
            forall|k: int| 0 <= k < N_TRACE_COLUMNS && (k < start || k >= start + 32 + i) ==> #[trigger] cols@[k]
                == c0[k],
    {
        cols[col] = state[i];
        col += 1;
    }
    let ghost w = full_round_witness(s0, round as int);
    assert(w.len() == 48);
    assert forall|k: int| 0 <= k < 48 implies #[trigger] cols@.subrange(start as int, col as int)[k] == w[k] by {
        if k < 16 {
            assert(cols@[start + k] == x2[k]);
        } else if k < 32 {
            assert(cols@[start + 16 + (k - 16)] == x4[k - 16]);
        } else {
            assert(cols@[start + 32 + (k - 32)] == state@[k - 32]);
        }
    }
    assert(cols@.subrange(start as int, col as int) =~= w);
    col
}

/// Writes the witnesses of partial round `round` at `col ..` and applies the round.
fn write_partial_round(cols: &mut [M31; N_TRACE_COLUMNS], col: usize, state: &mut [M31; N_STATE], round: usize) -> (next: usize)
    requires
        col + 19 <= N_TRACE_COLUMNS,
        round < 14,
    ensures
        next == col + 19,
        final(state)@ == partial_round(m31_ops(), old(state)@, round as int),
        final(cols)@.subrange(col as int, next as int) == partial_round_witness(old(state)@, round as int),
        forall|k: int| 0 <= k < N_TRACE_COLUMNS && (k < col || k >= col + 19) ==> #[trigger] final(cols)@[k]
            == old(cols)@[k],
{
    let ghost s0 = state@;
    let ghost o = m31_ops();
    let start = col;
    let mut col = col;
    state[0] = state[0].add(M31::from_u32_unchecked(RC_INTERNAL[round]));
    let s0v = state[0];

    let s2 = s0v.mul(s0v);
    cols[col] = s2;
    col += 1;

    let s4 = s2.mul(s2);
    cols[col] = s4;
    col += 1;

    state[0] = s4.mul(s0v);
    cols[col] = state[0];
    col += 1;

    assert(state@ =~= s0.update(0, sbox(o, crate::field::m31_add(s0[0], M31(RC_INTERNAL[round as int])))));
    apply_internal_round_matrix(state);
    let ghost c1 = cols@;
    for i in 0..N_STATE
        invariant
            col == start + 3 + i,
            col + 16 - i <= N_TRACE_COLUMNS,
            state@.len() == 16,
            forall|k: int| 0 <= k < i ==> #[trigger] cols@[start + 3 + k] == state@[k],
            forall|k: int| 0 <= k < N_TRACE_COLUMNS && (k < start + 3 || k >= start + 3 + i) ==> #[trigger] cols@[k]
                == c1[k],
    {
        cols[col] = state[i];
        col += 1;
    }
    let ghost w = partial_round_witness(s0, round as int);
    assert forall|k: int| 0 <= k < 19 implies #[trigger] cols@.subrange(start as int, col as int)[k] == w[k] by {
        if k >= 3 {
            assert(cols@[start + 3 + (k - 3)] == state@[k - 3]);
        }
    }
    assert(cols@.subrange(start as int, col as int) =~= w);
    col
}

pub proof fn lemma_full_rounds_witness_len(s: Seq<M31>, first: int, n: nat)
    requires
        s.len() == 16,
    ensures
        full_rounds_witness(s, first, n).len() == 48 * n,
    decreases n,
{
    if n > 0 {
        lemma_full_rounds_witness_len(s, first, (n - 1) as nat);
        let x = full_rounds(m31_ops(), s, first, (n - 1) as nat);
        let a = add_round_constants(m31_ops(), x, first + n - 1);
        lemma_external(m31_ops(), Seq::new(16, |i: int| sbox(m31_ops(), a[i])), 0);
    }
}

pub proof fn lemma_partial_rounds_witness_len(s: Seq<M31>, n: nat)
    ensures
        partial_rounds_witness(s, n).len() == 19 * n,
    decreases n,
{
    if n > 0 {
        lemma_partial_rounds_witness_len(s, (n - 1) as nat);
    }
}

/// One row of the Poseidon gate's trace for a gate with inputs `in0` and
/// `in1` (their coordinates): columns 0..4 are `in0`, 4..8 are `in1`, 8..12
/// the output, and 12..662 the intermediate values of the rounds, as
/// `trace_row` lays them out.
pub fn compute_row(in0: [M31; 4], in1: [M31; 4]) -> (r: [M31; N_TRACE_COLUMNS])
    ensures
        r@ == trace_row(in0@, in1@),
        r@.subrange(8, 12) == permutation(
            m31_ops(),
            seq![in0@[0], in1@[0], in0@[1], in0@[2], in0@[3], in1@[1], in1@[2], in1@[3], M31(0), M31(0), M31(0), M31(0), M31(0), M31(0), M31(0), M31(0)],
        ).take(4),
        forall|q: int| 0 <= q < 14 ==> #[trigger] crate::air::partial_round_sbox_columns(r@, q),
        ({
            let e0 = external(
                m31_ops(),
                seq![in0@[0], in1@[0], in0@[1], in0@[2], in0@[3], in1@[1], in1@[2], in1@[3], M31(0), M31(0), M31(0), M31(0), M31(0), M31(0), M31(0), M31(0)],
            );
            forall|i: int| 0 <= i < 16 ==> #[trigger] crate::air::full_round_sbox_column(r@, e0, 0, i)
        }),
        forall|q: int, i: int|
            1 <= q < 8 && 0 <= i < 16 ==> #[trigger] crate::air::full_round_sbox_column(
                r@,
                r@.subrange(crate::air::full_round_base(q) - 16, crate::air::full_round_base(q)),
                q,
                i,
            ),
{
    let ghost o = m31_ops();
    let zero = M31::from_u32_unchecked(0);
    let mut cols = [zero; N_TRACE_COLUMNS];

    cols[0] = in0[0];
    cols[1] = in0[1];
    cols[2] = in0[2];
    cols[3] = in0[3];
    cols[4] = in1[0];
    cols[5] = in1[1];
    cols[6] = in1[2];
    cols[7] = in1[3];
    // cols[8..12] are written after the permutation (the output).

    let mut state = [zero; N_STATE];
    state[0] = in0[0];
    state[1] = in1[0];
    state[2] = in0[1];
    state[3] = in0[2];
    state[4] = in0[3];
    state[5] = in1[1];
    state[6] = in1[2];
    state[7] = in1[3];
    let ghost s0 = gate_state(in0@, in1@);
    assert(state@ =~= s0);
    let ghost head = in0@ + in1@;
    assert(cols@.subrange(0, 8) =~= head);

    apply_external_round_matrix(&mut state);
    let ghost x1 = state@;
    proof {
        lemma_external(o, s0, 0);
    }

    let mut col: usize = 12;

    // First 4 full rounds
    for round in 0..N_HALF_FULL_ROUNDS
        invariant
            o == m31_ops(),
            state@.len() == 16,
            x1.len() == 16,
            col == 12 + 48 * round,
            state@ == full_rounds(o, x1, 0, round as nat),
            cols@.subrange(0, 8) == head,
            cols@.subrange(12, col as int) == full_rounds_witness(x1, 0, round as nat),
    {
        let ghost c0 = cols@;
        let next = write_full_round(&mut cols, col, &mut state, round);
        assert(cols@.subrange(12, next as int) =~= c0.subrange(12, col as int) + cols@.subrange(col as int, next as int));
        assert(cols@.subrange(0, 8) =~= c0.subrange(0, 8));
        col = next;
        proof {
            crate::poseidon_hash::lemma_permutation_len(o, s0);
            lemma_external(o, Seq::new(16, |i: int| sbox(o, add_round_constants(o, full_rounds(o, x1, 0, round as nat), round as int)[i])), 0);
        }
    }
    let ghost x2 = state@;
    let ghost w1 = full_rounds_witness(x1, 0, 4);

    // 14 partial rounds
    for r in 0..N_PARTIAL_ROUNDS
        invariant
            o == m31_ops(),
            state@.len() == 16,
            col == 12 + 192 + 19 * r,
            state@ == partial_rounds(o, x2, r as nat),
            cols@.subrange(0, 8) == head,
            cols@.subrange(12, col as int) == w1 + partial_rounds_witness(x2, r as nat),
    {
        let ghost c0 = cols@;
        let next = write_partial_round(&mut cols, col, &mut state, r);
        assert(cols@.subrange(12, next as int) =~= c0.subrange(12, col as int) + cols@.subrange(col as int, next as int));
        assert(cols@.subrange(0, 8) =~= c0.subrange(0, 8));
        col = next;
        proof {
            crate::poseidon_hash::lemma_constants_below_modulus();
        }
    }
    let ghost x3 = state@;
    let ghost w2 = partial_rounds_witness(x2, 14);

    // Last 4 full rounds
    for round in 0..N_HALF_FULL_ROUNDS
        invariant
            o == m31_ops(),
            state@.len() == 16,
            x3.len() == 16,
            col == 12 + 192 + 266 + 48 * round,
            state@ == full_rounds(o, x3, 4, round as nat),
            cols@.subrange(0, 8) == head,
            cols@.subrange(12, col as int) == w1 + w2 + full_rounds_witness(x3, 4, round as nat),
    {
        let ghost c0 = cols@;
        let next = write_full_round(&mut cols, col, &mut state, round + N_HALF_FULL_ROUNDS);
        assert(cols@.subrange(12, next as int) =~= c0.subrange(12, col as int) + cols@.subrange(col as int, next as int));
        assert(cols@.subrange(0, 8) =~= c0.subrange(0, 8));
        col = next;
        proof {
            lemma_external(o, Seq::new(16, |i: int| sbox(o, add_round_constants(o, full_rounds(o, x3, 4, round as nat), 4 + round as int)[i])), 0);
        }
    }
    assert(col == N_TRACE_COLUMNS);

    // The output: the first four elements of the final state.
    let ghost c0 = cols@;
    cols[8] = state[0];
    cols[9] = state[1];
    cols[10] = state[2];
    cols[11] = state[3];
    proof {
        lemma_full_rounds_witness_len(x1, 0, 4);
        lemma_partial_rounds_witness_len(x2, 14);
        lemma_full_rounds_witness_len(x3, 4, 4);
        crate::poseidon_hash::lemma_permutation_len(o, s0);
        assert(state@ == permutation(o, s0));
        assert(cols@.subrange(12, 662) =~= c0.subrange(12, 662));
        assert(cols@.subrange(0, 8) =~= c0.subrange(0, 8));
        let t = trace_row(in0@, in1@);
        assert forall|k: int| 0 <= k < 662 implies #[trigger] cols@[k] == t[k] by {
            if k < 8 {
                assert(cols@[k] == cols@.subrange(0, 8)[k]);
            } else if k >= 12 {
                assert(cols@[k] == cols@.subrange(12, 662)[k - 12]);
            }
        }
        assert(cols@ =~= t);
        crate::air::lemma_trace_row_gate_output(in0@, in1@);
        assert forall|q: int| 0 <= q < 14 implies #[trigger] crate::air::partial_round_sbox_columns(cols@, q) by {
            crate::air::lemma_trace_row_partial_round_columns(in0@, in1@, q);
        }
        let e0 = external(
            m31_ops(),
            seq![in0@[0], in1@[0], in0@[1], in0@[2], in0@[3], in1@[1], in1@[2], in1@[3], M31(0), M31(0), M31(0), M31(0), M31(0), M31(0), M31(0), M31(0)],
        );
        assert forall|i: int| 0 <= i < 16 implies #[trigger] crate::air::full_round_sbox_column(cols@, e0, 0, i) by {
            crate::air::lemma_trace_row_full_round_columns(in0@, in1@, 0, i);
        }
        assert forall|q: int, i: int| 1 <= q < 8 && 0 <= i < 16 implies #[trigger] crate::air::full_round_sbox_column(
            cols@,
            cols@.subrange(crate::air::full_round_base(q) - 16, crate::air::full_round_base(q)),
            q,
            i,
        ) by {
            crate::air::lemma_trace_row_full_round_columns(in0@, in1@, q, i);
        }
    }
    cols
}

/// The coordinates of an extension element, in order.
pub open spec fn limbs(q: QM31) -> Seq<M31> {
    seq![q.0.0, q.0.1, q.1.0, q.1.1]
}

/// The relation entry of an input or output of a Poseidon gate: the
/// relation's identifier, the variable's address and its four coordinates.
pub open spec fn relation_entry(addr: usize, value: Seq<M31>) -> Seq<M31> {
    seq![M31(GATE_RELATION_ID), reduce(addr as int), value[0], value[1], value[2], value[3]]
}

/// What each row of the Poseidon gate component puts into the relation of gates:
/// it uses `in_0[r]` and `in_1[r]` once and yields `out[r]` `out_mults[r]` times.
pub struct LookupData {
    pub in_0: Vec<[M31; 6]>,
    pub in_1: Vec<[M31; 6]>,
    pub out: Vec<[M31; 6]>,
    pub out_mults: Vec<M31>,
}

/// A trace row and its lookup entries are those of a Poseidon gate with input
/// addresses `a0`, `a1`, output address `ao` and output multiplicity `mult`,
/// under the variable values `cv`.
#[verifier::opaque]
spec fn row_written(
    cv: Seq<QM31>,
    a0: usize,
    a1: usize,
    ao: usize,
    mult: usize,
    row: Seq<M31>,
    e0: Seq<M31>,
    e1: Seq<M31>,
    eo: Seq<M31>,
    m: M31,
) -> bool {
    let v0 = limbs(cv[a0 as int]);
    let v1 = limbs(cv[a1 as int]);
    let t = trace_row(v0, v1);
    &&& row == t
    &&& e0 == relation_entry(a0, v0)
    &&& e1 == relation_entry(a1, v1)
    &&& eo == relation_entry(ao, t.subrange(8, 12))
    &&& m == reduce(mult as int)
}

/// The trace of the Poseidon gate component for the gates whose input and
/// output addresses are the preprocessed columns `in0_address`,
/// `in1_address`, `out_address` (row `r` is one gate), with the output
/// multiplicities `out_mults`; `context_values` are the values of the
/// circuit's variables. Returns the rows (`trace_row` of each gate's inputs),
/// the log of their number, and the lookup entries of each row.
pub fn write_trace(
    context_values: &[QM31],
    in0_address: &[usize],
    in1_address: &[usize],
    out_address: &[usize],
    out_mults: &[usize],
) -> (r: (Vec<[M31; N_TRACE_COLUMNS]>, u32, LookupData))
    requires
        in0_address@.len() != 0,
        in0_address@.len() >= N_LANES,
        is_power_of_two(in0_address@.len() as nat),
        in1_address@.len() == in0_address@.len(),
        out_address@.len() == in0_address@.len(),
        out_mults@.len() == in0_address@.len(),
        forall|k: int| 0 <= k < in0_address@.len() ==> #[trigger] in0_address@[k] < context_values@.len(),
        forall|k: int| 0 <= k < in1_address@.len() ==> #[trigger] in1_address@[k] < context_values@.len(),
    ensures
        ({
            let (rows, log_size, lookup) = r;
            let n = in0_address@.len();
            &&& pow2(log_size as nat) == n
            &&& rows@.len() == n
            &&& lookup.in_0@.len() == n
            &&& lookup.in_1@.len() == n
            &&& lookup.out@.len() == n
            &&& lookup.out_mults@.len() == n
            &&& forall|k: int|
                0 <= k < n ==> {
                    let v0 = limbs(context_values@[in0_address@[k] as int]);
                    let v1 = limbs(context_values@[in1_address@[k] as int]);
                    let row = trace_row(v0, v1);
                    &&& (#[trigger] rows@[k])@ == row
                    &&& lookup.in_0@[k]@ == relation_entry(in0_address@[k], v0)
                    &&& lookup.in_1@[k]@ == relation_entry(in1_address@[k], v1)
                    &&& lookup.out@[k]@ == relation_entry(out_address@[k], row.subrange(8, 12))
                    &&& lookup.out_mults@[k] == reduce(out_mults@[k] as int)
                }
        }),
{
    let n_rows = in0_address.len();
    let log_size = log2_of_power_of_two(n_rows);
    let gate_relation_id = M31::from_u32(GATE_RELATION_ID);
    proof {
        crate::field::lemma_reduce_small(GATE_RELATION_ID as int);
    }
    let mut rows: Vec<[M31; N_TRACE_COLUMNS]> = Vec::new();
    let mut lookup = LookupData { in_0: Vec::new(), in_1: Vec::new(), out: Vec::new(), out_mults: Vec::new() };
    for k in 0..n_rows
        invariant
            n_rows == in0_address@.len(),
            in1_address@.len() == n_rows,
            out_address@.len() == n_rows,
            out_mults@.len() == n_rows,
            gate_relation_id == M31(GATE_RELATION_ID),
            forall|j: int| 0 <= j < n_rows ==> #[trigger] in0_address@[j] < context_values@.len(),
            forall|j: int| 0 <= j < n_rows ==> #[trigger] in1_address@[j] < context_values@.len(),
            rows@.len() == k,
            lookup.in_0@.len() == k,
            lookup.in_1@.len() == k,
            lookup.out@.len() == k,
            lookup.out_mults@.len() == k,
            forall|j: int|
                0 <= j < k ==> row_written(
                    context_values@,
                    in0_address@[j],
                    in1_address@[j],
                    out_address@[j],
                    out_mults@[j],
                    (#[trigger] rows@[j])@,
                    lookup.in_0@[j]@,
                    lookup.in_1@[j]@,
                    lookup.out@[j]@,
                    lookup.out_mults@[j],
                ),
    {
        let a0 = in0_address[k];
        let a1 = in1_address[k];
        let v0 = context_values[a0].to_m31_array();
        let v1 = context_values[a1].to_m31_array();
        let row = compute_row(v0, v1);
        let e0 = [gate_relation_id, M31::from_usize(a0), v0[0], row[1], row[2], row[3]];
        let e1 = [gate_relation_id, M31::from_usize(a1), v1[0], row[5], row[6], row[7]];
        let eo = [gate_relation_id, M31::from_usize(out_address[k]), row[8], row[9], row[10], row[11]];
        let m = M31::from_usize(out_mults[k]);
        proof {
            let t = trace_row(v0@, v1@);
            assert(v0@ =~= limbs(context_values@[a0 as int]));
            assert(v1@ =~= limbs(context_values@[a1 as int]));
            assert(t[1] == v0@[1] && t[2] == v0@[2] && t[3] == v0@[3]);
            assert(t[5] == v1@[1] && t[6] == v1@[2] && t[7] == v1@[3]);
            assert(e0@ =~= relation_entry(a0, v0@));
            assert(e1@ =~= relation_entry(a1, v1@));
            assert(eo@ =~= relation_entry(out_address@[k as int], t.subrange(8, 12)));
        }
        let ghost r0 = rows@;
        let ghost i0 = lookup.in_0@;
        let ghost i1 = lookup.in_1@;
        let ghost o0 = lookup.out@;
        let ghost m0 = lookup.out_mults@;
        rows.push(row);
        lookup.in_0.push(e0);
        lookup.in_1.push(e1);
        lookup.out.push(eo);
        lookup.out_mults.push(m);
        proof {
            assert(row_written(
                context_values@,
                a0,
                a1,
                out_address@[k as int],
                out_mults@[k as int],
                row@,
                e0@,
                e1@,
                eo@,
                m,
            )) by {
                reveal(row_written);
            }
            assert forall|j: int| 0 <= j < k + 1 implies row_written(
                context_values@,
                in0_address@[j],
                in1_address@[j],
                out_address@[j],
                out_mults@[j],
                (#[trigger] rows@[j])@,
                lookup.in_0@[j]@,
                lookup.in_1@[j]@,
                lookup.out@[j]@,
                lookup.out_mults@[j],
            ) by {
                if j < k {
                    assert(rows@[j] == r0[j]);
                    assert(lookup.in_0@[j] == i0[j]);
                    assert(lookup.in_1@[j] == i1[j]);
                    assert(lookup.out@[j] == o0[j]);
                    assert(lookup.out_mults@[j] == m0[j]);
                } else {
                    assert(rows@[j] == row);
                    assert(lookup.in_0@[j] == e0);
                    assert(lookup.in_1@[j] == e1);
                    assert(lookup.out@[j] == eo);
                    assert(lookup.out_mults@[j] == m);
                }
            }
        }
    }
    proof {
        reveal(row_written);
    }
    (rows, log_size, lookup)
}

/// The output columns of the row of a Poseidon gate with inputs `a` and `b`
/// hold the value that this gate yields in the circuit.
pub proof fn lemma_trace_row_output(a: QM31, b: QM31)
    ensures
        ({
            let row = trace_row(limbs(a), limbs(b));
            crate::field::qm31_of(row[8], row[9], row[10], row[11]) == crate::circuit::poseidon_gate_output(a, b)
        }),
{
    let o = m31_ops();
    let s0 = gate_state(limbs(a), limbs(b));
    assert(s0 =~= crate::poseidon2::qm31_pair_state(a, b));
    crate::poseidon_hash::lemma_permutation_len(o, s0);
    let row = trace_row(limbs(a), limbs(b));
    let p = permutation(o, s0);
    assert(row[8] == p[0]);
    assert(row[9] == p[1]);
    assert(row[10] == p[2]);
    assert(row[11] == p[3]);
}

/// In a context whose computing gates hold, the output coordinates of the
/// trace row of each Poseidon gate are the coordinates of the value of the
/// gate's output variable: what a row yields into the relation of gates is
/// what the circuit's readers of that variable use.
pub proof fn lemma_gate_rows_yield_outputs(c: &crate::context::Context, k: int)
    requires
        c.wf(),
        0 <= k < c.circuit.poseidon@.len(),
    ensures
        ({
            let g = c.circuit.poseidon@[k];
            let row = trace_row(limbs(c.values@[g.in0 as int]), limbs(c.values@[g.in1 as int]));
            &&& row.subrange(8, 12) == limbs(c.values@[g.out as int])
            &&& relation_entry(g.out, row.subrange(8, 12)) == relation_entry(g.out, limbs(c.values@[g.out as int]))
        }),
{
    let g = c.circuit.poseidon@[k];
    let a = c.values@[g.in0 as int];
    let b = c.values@[g.in1 as int];
    lemma_trace_row_output(a, b);
    let row = trace_row(limbs(a), limbs(b));
    let o = m31_ops();
    crate::poseidon_hash::lemma_permutation_len(o, gate_state(limbs(a), limbs(b)));
    assert(row.subrange(8, 12) =~= limbs(c.values@[g.out as int]));
}

} // verus!
