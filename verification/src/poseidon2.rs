//! Poseidon2 of two field elements: computed on field values, and as gates of
//! a circuit.
use crate::context::{binds, lemma_extends_trans, lemma_vals_preserved, vals_at, Context, Var};
use crate::circuit::{poseidon_gate_output, Poseidon};
use crate::field::{embed, lemma_reduce_small, qm31_add, qm31_from_u32s, qm31_mul, qm31_of, M31, QM31};
use crate::poseidon_hash::{
    add_round_constants, col_sum, external, full_round, full_rounds, internal, lemma_external, lemma_m4_layer, m31_ops,
    m4, m4_layer, partial_round, qm31_ops, partial_rounds, permutation, prefix_sum, sbox, INTERNAL_DIAG,
    N_HALF_FULL_ROUNDS, N_PARTIAL_ROUNDS, N_STATE, RC_EXTERNAL, RC_INTERNAL,
};
use vstd::prelude::*;

verus! {

/// The state `[a, b, zero, ..., zero]` that hashes `a` and `b`.
pub open spec fn two_input_state<F>(a: F, b: F, zero: F) -> Seq<F> {
    Seq::new(16, |i: int| if i == 0 { a } else if i == 1 { b } else { zero })
}

/// Poseidon2 of `a` and `b` over QM31, as `poseidon2_hash_two` computes it
/// with gates: element 0 of the permuted `[a, b, 0, ..., 0]`.
pub open spec fn spec_hash_two(a: QM31, b: QM31) -> QM31 {
    permutation(qm31_ops(), two_input_state(a, b, embed(M31(0))))[0]
}

/// The state that hashes two extension elements, one coordinate per slot:
/// `[a.0.0, b.0.0, a.0.1, a.1.0, a.1.1, b.0.1, b.1.0, b.1.1, 0, ..., 0]`.
pub open spec fn qm31_pair_state(a: QM31, b: QM31) -> Seq<M31> {
    seq![a.0.0, b.0.0, a.0.1, a.1.0, a.1.1, b.0.1, b.1.0, b.1.1] + Seq::new(8, |i: int| M31(0))
}

fn pow5_m31(x: M31) -> (r: M31)
    ensures
        r == sbox(m31_ops(), x),
{
    let x2 = x.mul(x);
    let x4 = x2.mul(x2);
    x4.mul(x)
}

fn apply_m4_m31(state: &mut [M31; N_STATE], base: usize)
    requires
        base + 3 < 16,
    ensures
        forall|k: int| 0 <= k < 16 ==> #[trigger] final(state)@[k] == if base <= k < base + 4 {
            m4(m31_ops(), old(state)@[base as int], old(state)@[base + 1], old(state)@[base + 2], old(state)@[base + 3])[k - base]
        } else {
            old(state)@[k]
        },
{
    let x0 = state[base];
    let x1 = state[base + 1];
    let x2 = state[base + 2];
    let x3 = state[base + 3];
    let t0 = x0.add(x1);
    let t02 = t0.add(t0);
    let t1 = x2.add(x3);
    let t12 = t1.add(t1);
    let t2 = x1.add(x1).add(t1);
    let t3 = x3.add(x3).add(t0);
    let t4 = t12.add(t12).add(t3);
    let t5 = t02.add(t02).add(t2);
    state[base] = t3.add(t5);
    state[base + 1] = t5;
    state[base + 2] = t2.add(t4);
    state[base + 3] = t4;
}

fn apply_external_m31(state: &mut [M31; N_STATE])
    ensures
        final(state)@ == external(m31_ops(), old(state)@),
{
    let ghost s0 = state@;
    let ghost y = m4_layer(m31_ops(), s0);
    for i in 0..4
        invariant
            y == m4_layer(m31_ops(), s0),
            forall|k: int| 0 <= k < 16 ==> #[trigger] state@[k] == if k < 4 * i { y[k] } else { s0[k] },
    {
        proof {
            lemma_m4_layer(m31_ops(), s0, i as int);
        }
        apply_m4_m31(state, 4 * i);
    }
    for j in 0..4
        invariant
            y == m4_layer(m31_ops(), s0),
            forall|k: int| 0 <= k < 16 ==> #[trigger] state@[k] == if k % 4 < j {
                crate::field::m31_add(y[k], col_sum(m31_ops(), y, k % 4))
            } else {
                y[k]
            },
    {
        let s = state[j].add(state[j + 4]).add(state[j + 8]).add(state[j + 12]);
        for i in 0..4
            invariant
                0 <= j < 4,
                s == col_sum(m31_ops(), y, j as int),
                forall|k: int| 0 <= k < 16 ==> #[trigger] state@[k] == if k % 4 < j || (k % 4 == j && k < 4 * i) {
                    crate::field::m31_add(y[k], col_sum(m31_ops(), y, k % 4))
                } else {
                    y[k]
                },
        {
            state[4 * i + j] = state[4 * i + j].add(s);
        }
    }
    assert forall|k: int| 0 <= k < 16 implies #[trigger] state@[k] == external(m31_ops(), s0)[k] by {
        lemma_external(m31_ops(), s0, k);
    }
    proof {
        lemma_external(m31_ops(), s0, 0);
    }
    assert(state@ =~= external(m31_ops(), s0));
}

fn apply_internal_m31(state: &mut [M31; N_STATE])
    ensures
        final(state)@ == internal(m31_ops(), old(state)@),
{
    let ghost s0 = state@;
    let mut sum = state[0];
    for i in 1..N_STATE
        invariant
            state@ == s0,
            sum == prefix_sum(m31_ops(), s0, i as nat),
    {
        sum = sum.add(state[i]);
    }
    for i in 0..N_STATE
        invariant
            sum == prefix_sum(m31_ops(), s0, 16),
            forall|k: int| 0 <= k < 16 ==> #[trigger] state@[k] == if k < i {
                crate::field::m31_add(crate::field::m31_mul(s0[k], M31(INTERNAL_DIAG[k])), sum)
            } else {
                s0[k]
            },
    {
        state[i] = state[i].mul(M31::from_u32_unchecked(INTERNAL_DIAG[i])).add(sum);
    }
    assert(state@ =~= internal(m31_ops(), s0));
}

/// One full round applied in place.
fn full_round_m31(state: &mut [M31; N_STATE], round: usize)
    requires
        round < 8,
    ensures
        final(state)@ == full_round(m31_ops(), old(state)@, round as int),
{
    let ghost s0 = state@;
    for i in 0..N_STATE
        invariant
            round < 8,
            forall|k: int| 0 <= k < 16 ==> #[trigger] state@[k] == if k < i {
                crate::field::m31_add(s0[k], M31(RC_EXTERNAL[round as int][k]))
            } else {
                s0[k]
            },
    {
        state[i] = state[i].add(M31::from_u32_unchecked(RC_EXTERNAL[round][i]));
    }
    let ghost s1 = state@;
    for i in 0..N_STATE
        invariant
            forall|k: int| 0 <= k < 16 ==> #[trigger] state@[k] == if k < i {
                sbox(m31_ops(), s1[k])
            } else {
                s1[k]
            },
    {
        state[i] = pow5_m31(state[i]);
    }
    assert(state@ =~= Seq::new(
        16,
        |i: int|
            sbox(m31_ops(), crate::poseidon_hash::add_round_constants(m31_ops(), s0, round as int)[i]),
    ));
    apply_external_m31(state);
}

/// One partial round applied in place.
fn partial_round_m31(state: &mut [M31; N_STATE], round: usize)
    requires
        round < 14,
    ensures
        final(state)@ == partial_round(m31_ops(), old(state)@, round as int),
{
    let ghost s0 = state@;
    state[0] = state[0].add(M31::from_u32_unchecked(RC_INTERNAL[round]));
    state[0] = pow5_m31(state[0]);
    assert(state@ =~= s0.update(
        0,
        sbox(m31_ops(), crate::field::m31_add(s0[0], M31(RC_INTERNAL[round as int]))),
    ));
    apply_internal_m31(state);
}

fn poseidon2_permutation(state: &mut [M31; N_STATE])
    ensures
        final(state)@ == permutation(m31_ops(), old(state)@),
{
    let ghost s0 = state@;
    apply_external_m31(state);
    let ghost s1 = state@;
    for round in 0..N_HALF_FULL_ROUNDS
        invariant
            state@ == full_rounds(m31_ops(), s1, 0, round as nat),
    {
        full_round_m31(state, round);
    }
    let ghost s2 = state@;
    for r in 0..N_PARTIAL_ROUNDS
        invariant
            state@ == partial_rounds(m31_ops(), s2, r as nat),
    {
        partial_round_m31(state, r);
    }
    let ghost s3 = state@;
    for round in 0..N_HALF_FULL_ROUNDS
        invariant
            state@ == full_rounds(m31_ops(), s3, 4, round as nat),
    {
        full_round_m31(state, round + N_HALF_FULL_ROUNDS);
    }
}

/// Poseidon2 of `a` and `b` over M31: the first four elements of the state
/// `[a, b, 0, ..., 0]` after the permutation.
pub fn poseidon2_value_full(a: M31, b: M31) -> (r: [M31; 4])
    ensures
        r@ == permutation(m31_ops(), two_input_state(a, b, M31(0))).take(4),
{
    let zero = M31::from_u32_unchecked(0);
    let mut state = [zero; N_STATE];
    state[0] = a;
    state[1] = b;
    assert(state@ =~= two_input_state(a, b, M31(0)));
    poseidon2_permutation(&mut state);
    let r = [state[0], state[1], state[2], state[3]];
    assert(r@ =~= state@.take(4));
    r
}

/// Poseidon2 of `a` and `b` over M31: element 0 of the permuted state.
pub fn poseidon2_value(a: M31, b: M31) -> (r: M31)
    ensures
        r == permutation(m31_ops(), two_input_state(a, b, M31(0)))[0],
{
    proof {
        crate::poseidon_hash::lemma_permutation_len(m31_ops(), two_input_state(a, b, M31(0)));
    }
    poseidon2_value_full(a, b)[0]
}

/// Poseidon2 of two extension elements, all eight coordinates in the state
/// (`qm31_pair_state`); the first four elements of the permuted state.
pub fn poseidon2_value_qm31(a: QM31, b: QM31) -> (r: [M31; 4])
    ensures
        r@ == permutation(m31_ops(), qm31_pair_state(a, b)).take(4),
        r@ == permutation(
            m31_ops(),
            seq![a.0.0, b.0.0, a.0.1, a.1.0, a.1.1, b.0.1, b.1.0, b.1.1, M31(0), M31(0), M31(0), M31(0), M31(0), M31(0), M31(0), M31(0)],
        ).take(4),
{
    proof {
        lemma_pair_state_slots(a, b);
    }
    let zero = M31::from_u32_unchecked(0);
    let mut state = [zero; N_STATE];
    state[0] = a.0.0;
    state[1] = b.0.0;
    state[2] = a.0.1;
    state[3] = a.1.0;
    state[4] = a.1.1;
    state[5] = b.0.1;
    state[6] = b.1.0;
    state[7] = b.1.1;
    assert(state@ =~= qm31_pair_state(a, b));
    poseidon2_permutation(&mut state);
    let r = [state[0], state[1], state[2], state[3]];
    assert(r@ =~= state@.take(4));
    r
}

/// Poseidon2 of `a` and `b`, for all values: element 0 of the Poseidon2
/// permutation, over the extension field, of `[a, b, 0, ..., 0]`.
pub proof fn lemma_hash_two_state(a: QM31, b: QM31)
    ensures
        ({
            let z = embed(M31(0));
            spec_hash_two(a, b) == permutation(qm31_ops(), seq![a, b, z, z, z, z, z, z, z, z, z, z, z, z, z, z])[0]
        }),
{
    let z = embed(M31(0));
    assert(two_input_state(a, b, z) =~= seq![a, b, z, z, z, z, z, z, z, z, z, z, z, z, z, z]);
}

/// Poseidon2 of two extension elements is canonical.
pub proof fn lemma_hash_two_canonical(a: QM31, b: QM31)
    ensures
        spec_hash_two(a, b).canonical(),
{
    let o = qm31_ops();
    let s = two_input_state(a, b, embed(M31(0)));
    let x = full_rounds(o, partial_rounds(o, full_rounds(o, external(o, s), 0, 4), 14), 4, 3);
    let z = Seq::new(16, |i: int| sbox(o, add_round_constants(o, x, 7)[i]));
    lemma_external(o, z, 0);
    crate::field::lemma_qm31_ops_canonical(m4_layer(o, z)[0], col_sum(o, m4_layer(o, z), 0));
}

/// Slot by slot, the state that hashes `a` and `b`: the first coordinate of
/// `a`, the first of `b`, the other three of `a`, the other three of `b`,
/// then eight zeros.
proof fn lemma_pair_state_slots(a: QM31, b: QM31)
    ensures
        qm31_pair_state(a, b) == seq![a.0.0, b.0.0, a.0.1, a.1.0, a.1.1, b.0.1, b.1.0, b.1.1, M31(0), M31(0), M31(0), M31(0), M31(0), M31(0), M31(0), M31(0)],
{
    assert(qm31_pair_state(a, b) =~= seq![a.0.0, b.0.0, a.0.1, a.1.0, a.1.1, b.0.1, b.1.0, b.1.1, M31(0), M31(0), M31(0), M31(0), M31(0), M31(0), M31(0), M31(0)]);
}

/// What a Poseidon gate outputs on `a` and `b`, for all values: the first
/// four elements of the Poseidon2 permutation of the state
/// `[a.l0, b.l0, a.l1, a.l2, a.l3, b.l1, b.l2, b.l3, 0, ..., 0]`, as one
/// extension element.
pub proof fn lemma_poseidon_gate_output_layout(a: QM31, b: QM31)
    ensures
        ({
            let p = permutation(
                m31_ops(),
                seq![a.0.0, b.0.0, a.0.1, a.1.0, a.1.1, b.0.1, b.1.0, b.1.1, M31(0), M31(0), M31(0), M31(0), M31(0), M31(0), M31(0), M31(0)],
            );
            poseidon_gate_output(a, b) == qm31_of(p[0], p[1], p[2], p[3])
        }),
{
    lemma_pair_state_slots(a, b);
}

/// When every coordinate but the first of `a` and `b` is zero, hashing them as
/// extension elements is hashing their first coordinates.
pub proof fn lemma_qm31_hash_of_base_elements(a: QM31, b: QM31)
    requires
        a.0.1 == M31(0),
        a.1.0 == M31(0),
        a.1.1 == M31(0),
        b.0.1 == M31(0),
        b.1.0 == M31(0),
        b.1.1 == M31(0),
    ensures
        permutation(m31_ops(), qm31_pair_state(a, b)) == permutation(
            m31_ops(),
            two_input_state(a.0.0, b.0.0, M31(0)),
        ),
{
    assert(qm31_pair_state(a, b) =~= two_input_state(a.0.0, b.0.0, M31(0)));
}

// --- Poseidon2 as gates of a circuit ---

fn add(ctx: &mut Context, a: Var, b: Var) -> (r: Var)
    requires
        old(ctx).wf(),
        old(ctx).has(a),
        old(ctx).has(b),
    ensures
        final(ctx).computes_from(old(ctx)),
        final(ctx).has(r),
        final(ctx).val(r) == qm31_add(old(ctx).val(a), old(ctx).val(b)),
        forall|d: Context, v: Seq<QM31>|
            #![trigger d.extends(final(ctx)), d.computes(v)]
            d.extends(final(ctx)) && d.computes(v) ==> v[r.idx as int] == qm31_add(v[a.idx as int], v[b.idx as int]),
{
    crate::ops::add(ctx, a, b)
}

fn add3(ctx: &mut Context, a: Var, b: Var, c: Var) -> (r: Var)
    requires
        old(ctx).wf(),
        old(ctx).has(a),
        old(ctx).has(b),
        old(ctx).has(c),
    ensures
        final(ctx).computes_from(old(ctx)),
        final(ctx).has(r),
        final(ctx).val(r) == qm31_add(qm31_add(old(ctx).val(a), old(ctx).val(b)), old(ctx).val(c)),
        forall|d: Context, v: Seq<QM31>|
            #![trigger d.extends(final(ctx)), d.computes(v)]
            d.extends(final(ctx)) && d.computes(v) ==> v[r.idx as int] == qm31_add(qm31_add(v[a.idx as int], v[b.idx as int]), v[c.idx as int]),
{
    let t = self::add(ctx, a, b);
    let ghost c1 = *ctx;
    let r = self::add(ctx, t, c);
    assert forall|d: Context, v: Seq<QM31>| d.extends(ctx) && d.computes(v) implies v[r.idx as int] == qm31_add(
        qm31_add(v[a.idx as int], v[b.idx as int]),
        v[c.idx as int],
    ) by {
        lemma_extends_trans(&d, &*ctx, &c1);
    }
    r
}

fn add4(ctx: &mut Context, a: Var, b: Var, c: Var, d: Var) -> (r: Var)
    requires
        old(ctx).wf(),
        old(ctx).has(a),
        old(ctx).has(b),
        old(ctx).has(c),
        old(ctx).has(d),
    ensures
        final(ctx).computes_from(old(ctx)),
        final(ctx).has(r),
        final(ctx).val(r) == qm31_add(
            qm31_add(qm31_add(old(ctx).val(a), old(ctx).val(b)), old(ctx).val(c)),
            old(ctx).val(d),
        ),
        forall|e: Context, v: Seq<QM31>|
            #![trigger e.extends(final(ctx)), e.computes(v)]
            e.extends(final(ctx)) && e.computes(v) ==> v[r.idx as int] == qm31_add(
                qm31_add(qm31_add(v[a.idx as int], v[b.idx as int]), v[c.idx as int]),
                v[d.idx as int],
            ),
{
    let t = add3(ctx, a, b, c);
    let ghost c1 = *ctx;
    let r = self::add(ctx, t, d);
    assert forall|e: Context, v: Seq<QM31>| e.extends(ctx) && e.computes(v) implies v[r.idx as int] == qm31_add(
        qm31_add(qm31_add(v[a.idx as int], v[b.idx as int]), v[c.idx as int]),
        v[d.idx as int],
    ) by {
        lemma_extends_trans(&e, &*ctx, &c1);
    }
    r
}

fn pow5(ctx: &mut Context, x: Var) -> (r: Var)
    requires
        old(ctx).wf(),
        old(ctx).has(x),
    ensures
        final(ctx).computes_from(old(ctx)),
        final(ctx).has(r),
        final(ctx).val(r) == sbox(qm31_ops(), old(ctx).val(x)),
        final(ctx).circuit.mul@.len() == old(ctx).circuit.mul@.len() + 3,
        forall|d: Context, v: Seq<QM31>|
            #![trigger d.extends(final(ctx)), d.computes(v)]
            d.extends(final(ctx)) && d.computes(v) ==> v[r.idx as int] == sbox(qm31_ops(), v[x.idx as int]),
{
    let x2 = crate::ops::mul(ctx, x, x);
    let ghost c1 = *ctx;
    let x4 = crate::ops::mul(ctx, x2, x2);
    let ghost c2 = *ctx;
    let r = crate::ops::mul(ctx, x4, x);
    assert forall|d: Context, v: Seq<QM31>| d.extends(ctx) && d.computes(v) implies v[r.idx as int] == sbox(
        qm31_ops(),
        v[x.idx as int],
    ) by {
        lemma_extends_trans(&d, &*ctx, &c2);
        lemma_extends_trans(&d, &c2, &c1);
    }
    r
}

#[verifier::rlimit(40)]
fn apply_m4(ctx: &mut Context, x0: Var, x1: Var, x2: Var, x3: Var) -> (r: [Var; 4])
    requires
        old(ctx).wf(),
        old(ctx).has(x0),
        old(ctx).has(x1),
        old(ctx).has(x2),
        old(ctx).has(x3),
    ensures
        final(ctx).computes_from(old(ctx)),
        final(ctx).has_all(r@),
        final(ctx).vals(r@) == m4(
            qm31_ops(),
            old(ctx).val(x0),
            old(ctx).val(x1),
            old(ctx).val(x2),
            old(ctx).val(x3),
        ),
        forall|d: Context, v: Seq<QM31>|
            #![trigger d.extends(final(ctx)), d.computes(v)]
            d.extends(final(ctx)) && d.computes(v) ==> vals_at(v, r@) == m4(
                qm31_ops(),
                v[x0.idx as int],
                v[x1.idx as int],
                v[x2.idx as int],
                v[x3.idx as int],
            ),
{
    let t0 = self::add(ctx, x0, x1);
    let ghost c1 = *ctx;
    let t02 = self::add(ctx, t0, t0);
    let ghost c2 = *ctx;
    let t1 = self::add(ctx, x2, x3);
    let ghost c3 = *ctx;
    let t12 = self::add(ctx, t1, t1);
    let ghost c4 = *ctx;
    let t2 = add3(ctx, x1, x1, t1);
    let ghost c5 = *ctx;
    let t3 = add3(ctx, x3, x3, t0);
    let ghost c6 = *ctx;
    let t4 = add3(ctx, t12, t12, t3);
    let ghost c7 = *ctx;
    let t5 = add3(ctx, t02, t02, t2);
    let ghost c8 = *ctx;
    let t6 = self::add(ctx, t3, t5);
    let ghost c9 = *ctx;
    let t7 = self::add(ctx, t2, t4);
    let r = [t6, t5, t7, t4];
    assert forall|d: Context, v: Seq<QM31>| d.extends(ctx) && d.computes(v) implies vals_at(v, r@) == m4(
        qm31_ops(),
        v[x0.idx as int],
        v[x1.idx as int],
        v[x2.idx as int],
        v[x3.idx as int],
    ) by {
        lemma_extends_trans(&d, &*ctx, &c9);
        lemma_extends_trans(&d, &c9, &c8);
        lemma_extends_trans(&d, &c8, &c7);
        lemma_extends_trans(&d, &c7, &c6);
        lemma_extends_trans(&d, &c6, &c5);
        lemma_extends_trans(&d, &c5, &c4);
        lemma_extends_trans(&d, &c4, &c3);
        lemma_extends_trans(&d, &c3, &c2);
        lemma_extends_trans(&d, &c2, &c1);
        assert(vals_at(v, r@) =~= m4(qm31_ops(), v[x0.idx as int], v[x1.idx as int], v[x2.idx as int], v[x3.idx as int]));
    }
    assert(ctx.vals(r@) =~= m4(
        qm31_ops(),
        old(ctx).val(x0),
        old(ctx).val(x1),
        old(ctx).val(x2),
        old(ctx).val(x3),
    ));
    r
}

/// The state after the first `i` blocks of the external matrix are applied.
spec fn ext_blocks(s: Seq<QM31>, i: int) -> Seq<QM31> {
    let y = m4_layer(qm31_ops(), s);
    Seq::new(16, |k: int| if k < 4 * i { y[k] } else { s[k] })
}

/// The state after the column sums of the external matrix are added to the
/// columns before `j`, and to the first `i` elements of column `j`.
spec fn ext_cols(s: Seq<QM31>, j: int, i: int) -> Seq<QM31> {
    let y = m4_layer(qm31_ops(), s);
    Seq::new(
        16,
        |k: int|
            if k % 4 < j || (k % 4 == j && k < 4 * i) {
                qm31_add(y[k], col_sum(qm31_ops(), y, k % 4))
            } else {
                y[k]
            },
    )
}

fn apply_external_round_matrix(ctx: &mut Context, state: &mut [Var; 16])
    requires
        old(ctx).wf(),
        old(ctx).has_all(old(state)@),
    ensures
        final(ctx).computes_from(old(ctx)),
        final(ctx).has_all(final(state)@),
        final(ctx).vals(final(state)@) == external(qm31_ops(), old(ctx).vals(old(state)@)),
        binds(final(ctx), final(state)@, old(state)@, |s: Seq<QM31>| external(qm31_ops(), s)),
{
    let ghost s0 = ctx.vals(state@);
    let ghost y = m4_layer(qm31_ops(), s0);
    let ghost sv = state@;
    assert forall|d: Context, v: Seq<QM31>| d.extends(ctx) && d.computes(v) implies vals_at(v, state@)
        == ext_blocks(vals_at(v, sv), 0) by {
        assert(vals_at(v, state@) =~= ext_blocks(vals_at(v, sv), 0));
    }
    for i in 0..4
        invariant
            sv == old(state)@,
            binds(ctx, state@, sv, |s: Seq<QM31>| ext_blocks(s, i as int)),
            ctx.computes_from(old(ctx)),
            ctx.has_all(state@),
            s0 == old(ctx).vals(old(state)@),
            y == m4_layer(qm31_ops(), s0),
            forall|k: int| 0 <= k < 16 ==> #[trigger] ctx.vals(state@)[k] == if k < 4 * i { y[k] } else { s0[k] },
    {
        proof {
            lemma_m4_layer(qm31_ops(), s0, i as int);
        }
        let ghost c0 = *ctx;
        let ghost st0 = state@;
        let r = apply_m4(ctx, state[4 * i], state[4 * i + 1], state[4 * i + 2], state[4 * i + 3]);
        proof {
            lemma_vals_preserved(ctx, &c0, st0);
            assert(ctx.vals(st0)[4 * i] == c0.vals(st0)[4 * i]);
            assert(ctx.vals(st0)[4 * i + 1] == c0.vals(st0)[4 * i + 1]);
            assert(ctx.vals(st0)[4 * i + 2] == c0.vals(st0)[4 * i + 2]);
            assert(ctx.vals(st0)[4 * i + 3] == c0.vals(st0)[4 * i + 3]);
        }
        state[4 * i] = r[0];
        state[4 * i + 1] = r[1];
        state[4 * i + 2] = r[2];
        state[4 * i + 3] = r[3];
        assert(ctx.vals(r@)[0] == ctx.vals(state@)[4 * i]);
        assert(ctx.vals(r@)[1] == ctx.vals(state@)[4 * i + 1]);
        assert(ctx.vals(r@)[2] == ctx.vals(state@)[4 * i + 2]);
        assert(ctx.vals(r@)[3] == ctx.vals(state@)[4 * i + 3]);
        assert forall|k: int| 0 <= k < 16 && (k < 4 * i || k >= 4 * i + 4) implies #[trigger] ctx.vals(state@)[k]
            == c0.vals(st0)[k] by {
            assert(state@[k] == st0[k]);
        }
        assert forall|d: Context, v: Seq<QM31>| d.extends(ctx) && d.computes(v) implies vals_at(v, state@)
            == ext_blocks(vals_at(v, sv), i + 1) by {
            lemma_extends_trans(&d, &*ctx, &c0);
            let sp = vals_at(v, sv);
            lemma_m4_layer(qm31_ops(), sp, i as int);
            assert(vals_at(v, st0) == ext_blocks(sp, i as int));
            assert(vals_at(v, st0)[4 * i] == sp[4 * i]);
            assert(vals_at(v, st0)[4 * i + 1] == sp[4 * i + 1]);
            assert(vals_at(v, st0)[4 * i + 2] == sp[4 * i + 2]);
            assert(vals_at(v, st0)[4 * i + 3] == sp[4 * i + 3]);
            assert forall|k: int| 0 <= k < 16 && (k < 4 * i || k >= 4 * i + 4) implies #[trigger] state@[k] == st0[k] by {}
            let mv = m4(qm31_ops(), v[st0[4 * i].idx as int], v[st0[4 * i + 1].idx as int], v[st0[4 * i + 2].idx as int], v[st0[4 * i + 3].idx as int]);
            assert(vals_at(v, r@) == mv);
            assert(v[state@[4 * i].idx as int] == vals_at(v, r@)[0]);
            assert(v[state@[4 * i + 1].idx as int] == vals_at(v, r@)[1]);
            assert(v[state@[4 * i + 2].idx as int] == vals_at(v, r@)[2]);
            assert(v[state@[4 * i + 3].idx as int] == vals_at(v, r@)[3]);
            assert forall|k: int| 0 <= k < 16 implies #[trigger] vals_at(v, state@)[k] == ext_blocks(sp, i + 1)[k] by {
                if k < 4 * i || k >= 4 * i + 4 {
                    assert(vals_at(v, st0)[k] == ext_blocks(sp, i as int)[k]);
                }
            }
            assert(vals_at(v, state@) =~= ext_blocks(sp, i + 1));
        }
    }
    assert forall|d: Context, v: Seq<QM31>| d.extends(ctx) && d.computes(v) implies vals_at(v, state@)
        == ext_cols(vals_at(v, sv), 0, 0) by {
        assert(vals_at(v, state@) =~= ext_cols(vals_at(v, sv), 0, 0));
    }
    for j in 0..4
        invariant
            sv == old(state)@,
            binds(ctx, state@, sv, |s: Seq<QM31>| ext_cols(s, j as int, 0)),
            ctx.computes_from(old(ctx)),
            ctx.has_all(state@),
            s0 == old(ctx).vals(old(state)@),
            y == m4_layer(qm31_ops(), s0),
            forall|k: int| 0 <= k < 16 ==> #[trigger] ctx.vals(state@)[k] == if k % 4 < j {
                qm31_add(y[k], col_sum(qm31_ops(), y, k % 4))
            } else {
                y[k]
            },
    {
        assert(ctx.vals(state@)[j as int] == y[j as int]);
        assert(ctx.vals(state@)[j + 4] == y[j + 4]);
        assert(ctx.vals(state@)[j + 8] == y[j + 8]);
        assert(ctx.vals(state@)[j + 12] == y[j + 12]);
        let ghost c1 = *ctx;
        let ghost stj = state@;
        let s = add4(ctx, state[j], state[j + 4], state[j + 8], state[j + 12]);
        proof {
            lemma_vals_preserved(ctx, &c1, state@);
        }
        assert forall|d: Context, v: Seq<QM31>| d.extends(ctx) && d.computes(v) implies vals_at(v, state@)
            == ext_cols(vals_at(v, sv), j as int, 0) && v[s.idx as int] == col_sum(
            qm31_ops(),
            m4_layer(qm31_ops(), vals_at(v, sv)),
            j as int,
        ) by {
            lemma_extends_trans(&d, &*ctx, &c1);
            let yv = m4_layer(qm31_ops(), vals_at(v, sv));
            assert(vals_at(v, stj) == ext_cols(vals_at(v, sv), j as int, 0));
            assert(vals_at(v, stj)[j as int] == yv[j as int]);
            assert(vals_at(v, stj)[j + 4] == yv[j + 4]);
            assert(vals_at(v, stj)[j + 8] == yv[j + 8]);
            assert(vals_at(v, stj)[j + 12] == yv[j + 12]);
            assert(vals_at(v, state@) =~= ext_cols(vals_at(v, sv), j as int, 0));
        }
        for i in 0..4
            invariant
                0 <= j < 4,
                sv == old(state)@,
                binds(ctx, state@, sv, |x: Seq<QM31>| ext_cols(x, j as int, i as int)),
                forall|d: Context, v: Seq<QM31>|
                    #![trigger d.extends(&*ctx), d.computes(v)]
                    d.extends(&*ctx) && d.computes(v) ==> v[s.idx as int] == col_sum(
                        qm31_ops(),
                        m4_layer(qm31_ops(), vals_at(v, sv)),
                        j as int,
                    ),
                ctx.computes_from(old(ctx)),
                ctx.has_all(state@),
                ctx.has(s),
                ctx.val(s) == col_sum(qm31_ops(), y, j as int),
                forall|k: int| 0 <= k < 16 ==> #[trigger] ctx.vals(state@)[k] == if k % 4 < j || (k % 4 == j && k < 4 * i) {
                    qm31_add(y[k], col_sum(qm31_ops(), y, k % 4))
                } else {
                    y[k]
                },
        {
            let ghost c0 = *ctx;
            let ghost st0 = state@;
            let idx: usize = 4 * i + j;
            assert(ctx.vals(state@)[idx as int] == y[idx as int]);
            let t = self::add(ctx, state[idx], s);
            proof {
                lemma_vals_preserved(ctx, &c0, st0);
            }
            state[idx] = t;
            assert forall|k: int| 0 <= k < 16 && k != idx implies #[trigger] ctx.vals(state@)[k]
                == c0.vals(st0)[k] by {
                assert(state@[k] == st0[k]);
            }
            assert forall|d: Context, v: Seq<QM31>| d.extends(ctx) && d.computes(v) implies vals_at(v, state@)
                == ext_cols(vals_at(v, sv), j as int, i + 1) && v[s.idx as int] == col_sum(
                qm31_ops(),
                m4_layer(qm31_ops(), vals_at(v, sv)),
                j as int,
            ) by {
                lemma_extends_trans(&d, &*ctx, &c0);
                assert(vals_at(v, st0) == ext_cols(vals_at(v, sv), j as int, i as int));
                assert(idx % 4 == j && idx == 4 * i + j);
                assert forall|k: int| 0 <= k < 16 && k != idx implies #[trigger] state@[k] == st0[k] by {}
                let sp = vals_at(v, sv);
                let yv = m4_layer(qm31_ops(), sp);
                assert(v[s.idx as int] == col_sum(qm31_ops(), yv, j as int));
                assert(vals_at(v, st0)[idx as int] == ext_cols(sp, j as int, i as int)[idx as int]);
                assert(v[t.idx as int] == qm31_add(v[st0[idx as int].idx as int], v[s.idx as int]));
                assert(state@[idx as int] == t);
                assert forall|k: int| 0 <= k < 16 implies #[trigger] vals_at(v, state@)[k] == ext_cols(sp, j as int, i + 1)[k] by {
                    if k != idx {
                        assert(vals_at(v, st0)[k] == ext_cols(sp, j as int, i as int)[k]);
                    }
                }
                assert(vals_at(v, state@) =~= ext_cols(vals_at(v, sv), j as int, i + 1));
            }
        }
        assert forall|d: Context, v: Seq<QM31>| d.extends(ctx) && d.computes(v) implies vals_at(v, state@)
            == ext_cols(vals_at(v, sv), j + 1, 0) by {
            assert(vals_at(v, state@) == ext_cols(vals_at(v, sv), j as int, 4));
            assert(ext_cols(vals_at(v, sv), j as int, 4) =~= ext_cols(vals_at(v, sv), j + 1, 0));
        }
    }
    assert forall|d: Context, v: Seq<QM31>| d.extends(ctx) && d.computes(v) implies vals_at(v, state@)
        == external(qm31_ops(), vals_at(v, sv)) by {
        let sp = vals_at(v, sv);
        assert(vals_at(v, state@) == ext_cols(sp, 4, 0));
        assert forall|k: int| 0 <= k < 16 implies #[trigger] ext_cols(sp, 4, 0)[k] == external(qm31_ops(), sp)[k] by {
            lemma_external(qm31_ops(), sp, k);
        }
        lemma_external(qm31_ops(), sp, 0);
        assert(ext_cols(sp, 4, 0) =~= external(qm31_ops(), sp));
    }
    assert forall|k: int| 0 <= k < 16 implies #[trigger] ctx.vals(state@)[k] == external(qm31_ops(), s0)[k] by {
        lemma_external(qm31_ops(), s0, k);
    }
    proof {
        lemma_external(qm31_ops(), s0, 0);
    }
    assert(ctx.vals(state@) =~= external(qm31_ops(), s0));
}

/// The state after the first `i` elements of the internal matrix are
/// computed.
spec fn int_partial(s: Seq<QM31>, i: int) -> Seq<QM31> {
    let total = prefix_sum(qm31_ops(), s, 16);
    Seq::new(16, |k: int| if k < i { qm31_add(qm31_mul(s[k], embed(M31(INTERNAL_DIAG[k]))), total) } else { s[k] })
}

fn apply_internal_round_matrix(ctx: &mut Context, state: &mut [Var; 16])
    requires
        old(ctx).wf(),
        old(ctx).has_all(old(state)@),
    ensures
        final(ctx).computes_from(old(ctx)),
        final(ctx).has_all(final(state)@),
        final(ctx).vals(final(state)@) == internal(qm31_ops(), old(ctx).vals(old(state)@)),
        binds(final(ctx), final(state)@, old(state)@, |s: Seq<QM31>| internal(qm31_ops(), s)),
{
    let ghost s0 = ctx.vals(state@);
    let ghost sv = state@;
    let mut sum = state[0];
    for i in 1..N_STATE
        invariant
            sv == old(state)@,
            forall|d: Context, v: Seq<QM31>|
                #![trigger d.extends(&*ctx), d.computes(v)]
                d.extends(&*ctx) && d.computes(v) ==> v[sum.idx as int] == prefix_sum(qm31_ops(), vals_at(v, sv), i as nat),
            ctx.computes_from(old(ctx)),
            ctx.has_all(state@),
            state@ == old(state)@,
            s0 == old(ctx).vals(old(state)@),
            ctx.vals(state@) == s0,
            ctx.has(sum),
            ctx.val(sum) == prefix_sum(qm31_ops(), s0, i as nat),
    {
        let ghost c0 = *ctx;
        let ghost sum0 = sum;
        sum = self::add(ctx, sum, state[i]);
        proof {
            lemma_vals_preserved(ctx, &c0, state@);
        }
        assert forall|d: Context, v: Seq<QM31>| d.extends(ctx) && d.computes(v) implies v[sum.idx as int]
            == prefix_sum(qm31_ops(), vals_at(v, sv), (i + 1) as nat) by {
            lemma_extends_trans(&d, &*ctx, &c0);
            assert(v[sum0.idx as int] == prefix_sum(qm31_ops(), vals_at(v, sv), i as nat));
            assert(vals_at(v, sv)[i as int] == v[sv[i as int].idx as int]);
        }
    }
    assert forall|d: Context, v: Seq<QM31>| d.extends(ctx) && d.computes(v) implies vals_at(v, state@)
        == int_partial(vals_at(v, sv), 0) by {
        assert(vals_at(v, state@) =~= int_partial(vals_at(v, sv), 0));
    }
    let ghost total = ctx.val(sum);
    proof {
        crate::poseidon_hash::lemma_constants_below_modulus();
    }
    for i in 0..N_STATE
        invariant
            sv == old(state)@,
            binds(ctx, state@, sv, |x: Seq<QM31>| int_partial(x, i as int)),
            forall|d: Context, v: Seq<QM31>|
                #![trigger d.extends(&*ctx), d.computes(v)]
                d.extends(&*ctx) && d.computes(v) ==> v[sum.idx as int] == prefix_sum(qm31_ops(), vals_at(v, sv), 16),
            ctx.computes_from(old(ctx)),
            ctx.has_all(state@),
            ctx.has(sum),
            ctx.val(sum) == total,
            total == prefix_sum(qm31_ops(), s0, 16),
            forall|k: int| 0 <= k < 16 ==> #[trigger] INTERNAL_DIAG[k] < crate::field::P,
            forall|k: int| 0 <= k < 16 ==> #[trigger] ctx.vals(state@)[k] == if k < i {
                qm31_add(qm31_mul(s0[k], embed(M31(INTERNAL_DIAG[k]))), total)
            } else {
                s0[k]
            },
    {
        let ghost c0 = *ctx;
        let ghost st0 = state@;
        proof {
            lemma_reduce_small(INTERNAL_DIAG[i as int] as int);
            lemma_reduce_small(0);
        }
        assert(c0.vals(st0)[i as int] == s0[i as int]);
        assert(c0.val(state[i as int]) == s0[i as int]);
        let cv = qm31_from_u32s(INTERNAL_DIAG[i], 0, 0, 0);
        let coeff = ctx.constant(cv);
        let ghost c1 = *ctx;
        assert(ctx.val(state[i as int]) == s0[i as int]);
        let prod = crate::ops::mul(ctx, state[i], coeff);
        let ghost c2 = *ctx;
        assert(ctx.val(prod) == qm31_mul(s0[i as int], embed(M31(INTERNAL_DIAG[i as int]))));
        let t = self::add(ctx, prod, sum);
        proof {
            lemma_vals_preserved(ctx, &c0, st0);
        }
        state[i] = t;
        assert(ctx.vals(state@)[i as int] == qm31_add(qm31_mul(s0[i as int], embed(M31(INTERNAL_DIAG[i as int]))), total));
        assert forall|k: int| 0 <= k < 16 && k != i implies #[trigger] ctx.vals(state@)[k] == c0.vals(st0)[k] by {
            assert(state@[k] == st0[k]);
        }
        assert forall|d: Context, v: Seq<QM31>| d.extends(ctx) && d.computes(v) implies vals_at(v, state@)
            == int_partial(vals_at(v, sv), i + 1) && v[sum.idx as int] == prefix_sum(qm31_ops(), vals_at(v, sv), 16) by {
            lemma_extends_trans(&d, &*ctx, &c2);
            lemma_extends_trans(&d, &c2, &c1);
            lemma_extends_trans(&d, &c1, &c0);
            let sp = vals_at(v, sv);
            assert(vals_at(v, st0) == int_partial(sp, i as int));
            assert(v[coeff.idx as int] == cv);
            assert(vals_at(v, st0)[i as int] == sp[i as int]);
            assert(v[prod.idx as int] == qm31_mul(v[st0[i as int].idx as int], v[coeff.idx as int]));
            assert(state@[i as int] == t);
            assert forall|k: int| 0 <= k < 16 && k != i implies #[trigger] state@[k] == st0[k] by {}
            assert forall|k: int| 0 <= k < 16 implies #[trigger] vals_at(v, state@)[k] == int_partial(sp, i + 1)[k] by {
                if k != i {
                    assert(vals_at(v, st0)[k] == int_partial(sp, i as int)[k]);
                }
            }
            assert(vals_at(v, state@) =~= int_partial(sp, i + 1));
        }
    }
    assert(ctx.vals(state@) =~= internal(qm31_ops(), s0));
    assert forall|d: Context, v: Seq<QM31>| d.extends(ctx) && d.computes(v) implies vals_at(v, state@)
        == internal(qm31_ops(), vals_at(v, sv)) by {
        assert(int_partial(vals_at(v, sv), 16) =~= internal(qm31_ops(), vals_at(v, sv)));
    }
}

/// The state after the round constants of round `r` are added to its first
/// `i` elements.
spec fn rc_partial(s: Seq<QM31>, r: int, i: int) -> Seq<QM31> {
    Seq::new(16, |k: int| if k < i { qm31_add(s[k], embed(M31(RC_EXTERNAL[r][k]))) } else { s[k] })
}

/// The state after the S-box is applied to its first `i` elements.
spec fn sbox_partial(s: Seq<QM31>, i: int) -> Seq<QM31> {
    Seq::new(16, |k: int| if k < i { sbox(qm31_ops(), s[k]) } else { s[k] })
}

fn full_round_gates(ctx: &mut Context, state: &mut [Var; 16], round: usize)
    requires
        round < 8,
        old(ctx).wf(),
        old(ctx).has_all(old(state)@),
    ensures
        final(ctx).computes_from(old(ctx)),
        final(ctx).has_all(final(state)@),
        final(ctx).vals(final(state)@) == crate::poseidon_hash::full_round(
            qm31_ops(),
            old(ctx).vals(old(state)@),
            round as int,
        ),
        binds(
            final(ctx),
            final(state)@,
            old(state)@,
            |s: Seq<QM31>| crate::poseidon_hash::full_round(qm31_ops(), s, round as int),
        ),
        final(ctx).circuit.mul@.len() >= old(ctx).circuit.mul@.len() + 48,
{
    let ghost s0 = ctx.vals(state@);
    let ghost sv = state@;
    proof {
        crate::poseidon_hash::lemma_constants_below_modulus();
        lemma_reduce_small(0);
    }
    assert forall|d: Context, v: Seq<QM31>| d.extends(ctx) && d.computes(v) implies vals_at(v, state@)
        == rc_partial(vals_at(v, sv), round as int, 0) by {
        assert(vals_at(v, state@) =~= rc_partial(vals_at(v, sv), round as int, 0));
    }
    for i in 0..N_STATE
        invariant
            sv == old(state)@,
            binds(ctx, state@, sv, |x: Seq<QM31>| rc_partial(x, round as int, i as int)),
            round < 8,
            ctx.computes_from(old(ctx)),
            ctx.has_all(state@),
            s0 == old(ctx).vals(old(state)@),
            forall|r: int, k: int| 0 <= r < 8 && 0 <= k < 16 ==> #[trigger] RC_EXTERNAL[r][k] < crate::field::P,
            forall|k: int| 0 <= k < 16 ==> #[trigger] ctx.vals(state@)[k] == if k < i {
                qm31_add(s0[k], embed(M31(RC_EXTERNAL[round as int][k])))
            } else {
                s0[k]
            },
    {
        let ghost c0 = *ctx;
        let ghost st0 = state@;
        proof {
            lemma_reduce_small(RC_EXTERNAL[round as int][i as int] as int);
        }
        assert(c0.vals(st0)[i as int] == s0[i as int]);
        assert(c0.val(state[i as int]) == s0[i as int]);
        let cv = qm31_from_u32s(RC_EXTERNAL[round][i], 0, 0, 0);
        let rc = ctx.constant(cv);
        let ghost c1 = *ctx;
        assert(ctx.val(state[i as int]) == s0[i as int]);
        let t = self::add(ctx, state[i], rc);
        proof {
            lemma_vals_preserved(ctx, &c0, st0);
        }
        state[i] = t;
        assert(ctx.vals(state@)[i as int] == qm31_add(s0[i as int], embed(M31(RC_EXTERNAL[round as int][i as int]))));
        assert forall|k: int| 0 <= k < 16 && k != i implies #[trigger] ctx.vals(state@)[k] == c0.vals(st0)[k] by {
            assert(state@[k] == st0[k]);
        }
        assert forall|d: Context, v: Seq<QM31>| d.extends(ctx) && d.computes(v) implies vals_at(v, state@)
            == rc_partial(vals_at(v, sv), round as int, i + 1) by {
            lemma_extends_trans(&d, &*ctx, &c1);
            lemma_extends_trans(&d, &c1, &c0);
            let sp = vals_at(v, sv);
            assert(vals_at(v, st0) == rc_partial(sp, round as int, i as int));
            assert(v[rc.idx as int] == cv);
            assert(vals_at(v, st0)[i as int] == sp[i as int]);
            assert(v[t.idx as int] == qm31_add(v[st0[i as int].idx as int], v[rc.idx as int]));
            assert(state@[i as int] == t);
            assert forall|k: int| 0 <= k < 16 && k != i implies #[trigger] state@[k] == st0[k] by {}
            assert forall|k: int| 0 <= k < 16 implies #[trigger] vals_at(v, state@)[k] == rc_partial(sp, round as int, i + 1)[k] by {
                if k != i {
                    assert(vals_at(v, st0)[k] == rc_partial(sp, round as int, i as int)[k]);
                }
            }
            assert(vals_at(v, state@) =~= rc_partial(sp, round as int, i + 1));
        }
    }
    let ghost s1 = ctx.vals(state@);
    let ghost sa = state@;
    assert forall|d: Context, v: Seq<QM31>| d.extends(ctx) && d.computes(v) implies vals_at(v, state@)
        == sbox_partial(vals_at(v, sa), 0) by {
        assert(vals_at(v, state@) =~= sbox_partial(vals_at(v, sa), 0));
    }
    let ghost cs = *ctx;
    let ghost m1 = ctx.circuit.mul@.len();
    assert(m1 >= old(ctx).circuit.mul@.len());
    for i in 0..N_STATE
        invariant
            sv == old(state)@,
            ctx.extends(&cs),
            binds(&cs, sa, sv, |x: Seq<QM31>| rc_partial(x, round as int, 16)),
            binds(ctx, state@, sa, |x: Seq<QM31>| sbox_partial(x, i as int)),
            m1 >= old(ctx).circuit.mul@.len(),
            ctx.circuit.mul@.len() >= m1 + 3 * i,
            ctx.computes_from(old(ctx)),
            ctx.has_all(state@),
            forall|k: int| 0 <= k < 16 ==> #[trigger] ctx.vals(state@)[k] == if k < i {
                sbox(qm31_ops(), s1[k])
            } else {
                s1[k]
            },
    {
        let ghost c0 = *ctx;
        let ghost st0 = state@;
        assert(c0.vals(st0)[i as int] == s1[i as int]);
        assert(c0.val(state[i as int]) == s1[i as int]);
        let t = self::pow5(ctx, state[i]);
        proof {
            lemma_vals_preserved(ctx, &c0, st0);
            lemma_extends_trans(&*ctx, &c0, &cs);
        }
        state[i] = t;
        assert(ctx.vals(state@)[i as int] == sbox(qm31_ops(), s1[i as int]));
        assert forall|k: int| 0 <= k < 16 && k != i implies #[trigger] ctx.vals(state@)[k] == c0.vals(st0)[k] by {
            assert(state@[k] == st0[k]);
        }
        assert forall|d: Context, v: Seq<QM31>| d.extends(ctx) && d.computes(v) implies vals_at(v, state@)
            == sbox_partial(vals_at(v, sa), i + 1) by {
            lemma_extends_trans(&d, &*ctx, &c0);
            let sp = vals_at(v, sa);
            assert(vals_at(v, st0) == sbox_partial(sp, i as int));
            assert(vals_at(v, st0)[i as int] == sp[i as int]);
            assert(v[t.idx as int] == sbox(qm31_ops(), v[st0[i as int].idx as int]));
            assert(state@[i as int] == t);
            assert forall|k: int| 0 <= k < 16 && k != i implies #[trigger] state@[k] == st0[k] by {}
            assert forall|k: int| 0 <= k < 16 implies #[trigger] vals_at(v, state@)[k] == sbox_partial(sp, i + 1)[k] by {
                if k != i {
                    assert(vals_at(v, st0)[k] == sbox_partial(sp, i as int)[k]);
                }
            }
            assert(vals_at(v, state@) =~= sbox_partial(sp, i + 1));
        }
    }
    let ghost sb = state@;
    let ghost cb = *ctx;
    assert(ctx.circuit.mul@.len() >= old(ctx).circuit.mul@.len() + 48);
    assert(ctx.vals(state@) =~= Seq::new(
        16,
        |i: int| sbox(qm31_ops(), crate::poseidon_hash::add_round_constants(qm31_ops(), s0, round as int)[i]),
    ));
    apply_external_round_matrix(ctx, state);
    assert forall|d: Context, v: Seq<QM31>| d.extends(ctx) && d.computes(v) implies vals_at(v, state@)
        == crate::poseidon_hash::full_round(qm31_ops(), vals_at(v, sv), round as int) by {
        lemma_extends_trans(&d, &*ctx, &cb);
        lemma_extends_trans(&d, &cb, &cs);
        let sp = vals_at(v, sv);
        let a = crate::poseidon_hash::add_round_constants(qm31_ops(), sp, round as int);
        assert(vals_at(v, sa) == rc_partial(sp, round as int, 16));
        assert(rc_partial(sp, round as int, 16) =~= a);
        assert(vals_at(v, sb) == sbox_partial(vals_at(v, sa), 16));
        assert(sbox_partial(a, 16) =~= Seq::new(16, |k: int| sbox(qm31_ops(), a[k])));
    }
}

fn partial_round_gates(ctx: &mut Context, state: &mut [Var; 16], round: usize)
    requires
        round < 14,
        old(ctx).wf(),
        old(ctx).has_all(old(state)@),
    ensures
        final(ctx).computes_from(old(ctx)),
        final(ctx).has_all(final(state)@),
        final(ctx).vals(final(state)@) == crate::poseidon_hash::partial_round(
            qm31_ops(),
            old(ctx).vals(old(state)@),
            round as int,
        ),
        binds(
            final(ctx),
            final(state)@,
            old(state)@,
            |s: Seq<QM31>| crate::poseidon_hash::partial_round(qm31_ops(), s, round as int),
        ),
{
    let ghost s0 = ctx.vals(state@);
    let ghost st0 = state@;
    proof {
        crate::poseidon_hash::lemma_constants_below_modulus();
        lemma_reduce_small(RC_INTERNAL[round as int] as int);
        lemma_reduce_small(0);
    }
    let cv = qm31_from_u32s(RC_INTERNAL[round], 0, 0, 0);
    let rc = ctx.constant(cv);
    let ghost c1 = *ctx;
    let t1 = self::add(ctx, state[0], rc);
    let ghost c2 = *ctx;
    let t = self::pow5(ctx, t1);
    proof {
        lemma_vals_preserved(ctx, old(ctx), st0);
    }
    state[0] = t;
    assert(ctx.vals(state@) =~= s0.update(
        0,
        sbox(qm31_ops(), qm31_add(s0[0], embed(M31(RC_INTERNAL[round as int])))),
    ));
    let ghost cb = *ctx;
    let ghost sb = state@;
    apply_internal_round_matrix(ctx, state);
    assert forall|d: Context, v: Seq<QM31>| d.extends(ctx) && d.computes(v) implies vals_at(v, state@)
        == crate::poseidon_hash::partial_round(qm31_ops(), vals_at(v, st0), round as int) by {
        lemma_extends_trans(&d, &*ctx, &cb);
        lemma_extends_trans(&d, &cb, &c2);
        lemma_extends_trans(&d, &c2, &c1);
        let sp = vals_at(v, st0);
        assert(v[rc.idx as int] == cv);
        assert(v[t1.idx as int] == qm31_add(v[st0[0].idx as int], v[rc.idx as int]));
        assert(v[t.idx as int] == sbox(qm31_ops(), v[t1.idx as int]));
        assert(vals_at(v, sb) =~= sp.update(0, sbox(qm31_ops(), qm31_add(sp[0], embed(M31(RC_INTERNAL[round as int]))))));
    }
}

/// Poseidon2 of `a` and `b` as gates of the circuit: the permutation of
/// `[a, b, 0, ..., 0]` over QM31, whose element 0 is returned. The gates fix
/// it: every assignment under which the circuit's constants and computing
/// gates hold gives the result `spec_hash_two` of what it gives `a` and `b`.
pub fn poseidon2_hash_two(ctx: &mut Context, a: Var, b: Var) -> (r: Var)
    requires
        old(ctx).wf(),
        old(ctx).has(a),
        old(ctx).has(b),
    ensures
        final(ctx).computes_from(old(ctx)),
        final(ctx).has(r),
        final(ctx).val(r) == permutation(
            qm31_ops(),
            two_input_state(old(ctx).val(a), old(ctx).val(b), embed(M31(0))),
        )[0],
        forall|d: Context, v: Seq<QM31>|
            #![trigger d.extends(final(ctx)), d.computes(v)]
            d.extends(final(ctx)) && d.computes(v) ==> v[r.idx as int] == spec_hash_two(v[a.idx as int], v[b.idx as int]),
        final(ctx).circuit.mul@.len() >= old(ctx).circuit.mul@.len() + 384,
        final(ctx).circuit.sub@ == old(ctx).circuit.sub@,
{
    let zero = ctx.zero();
    let ghost c0 = *ctx;
    let mut state = [zero; 16];
    state[0] = a;
    state[1] = b;
    let ghost si = state@;
    assert(ctx.vals(state@) =~= two_input_state(old(ctx).val(a), old(ctx).val(b), embed(M31(0))));
    let ghost s0 = ctx.vals(state@);

    // Initial external round matrix.
    apply_external_round_matrix(ctx, &mut state);
    let ghost s1 = ctx.vals(state@);
    let ghost c1 = *ctx;
    let ghost st1 = state@;
    assert forall|d: Context, v: Seq<QM31>| d.extends(ctx) && d.computes(v) implies vals_at(v, state@)
        == full_rounds(qm31_ops(), vals_at(v, st1), 0, 0) by {}

    // First half full rounds.
    for round in 0..N_HALF_FULL_ROUNDS
        invariant
            ctx.computes_from(old(ctx)),
            ctx.extends(&c1),
            ctx.has_all(state@),
            ctx.vals(state@) == full_rounds(qm31_ops(), s1, 0, round as nat),
            binds(ctx, state@, st1, |x: Seq<QM31>| full_rounds(qm31_ops(), x, 0, round as nat)),
            ctx.circuit.mul@.len() >= old(ctx).circuit.mul@.len() + 48 * round,
    {
        let ghost cp = *ctx;
        let ghost sp = state@;
        self::full_round_gates(ctx, &mut state, round);
        proof {
            lemma_extends_trans(&*ctx, &cp, &c1);
        }
        assert forall|d: Context, v: Seq<QM31>| d.extends(ctx) && d.computes(v) implies vals_at(v, state@)
            == full_rounds(qm31_ops(), vals_at(v, st1), 0, (round + 1) as nat) by {
            lemma_extends_trans(&d, &*ctx, &cp);
            assert(vals_at(v, sp) == full_rounds(qm31_ops(), vals_at(v, st1), 0, round as nat));
        }
    }
    let ghost s2 = ctx.vals(state@);
    let ghost c2 = *ctx;
    let ghost st2 = state@;
    assert forall|d: Context, v: Seq<QM31>| d.extends(ctx) && d.computes(v) implies vals_at(v, state@)
        == partial_rounds(qm31_ops(), vals_at(v, st2), 0) by {}

    // Partial rounds.
    for r in 0..N_PARTIAL_ROUNDS
        invariant
            ctx.computes_from(old(ctx)),
            ctx.extends(&c2),
            ctx.has_all(state@),
            ctx.vals(state@) == partial_rounds(qm31_ops(), s2, r as nat),
            binds(ctx, state@, st2, |x: Seq<QM31>| partial_rounds(qm31_ops(), x, r as nat)),
            ctx.circuit.mul@.len() >= old(ctx).circuit.mul@.len() + 192,
    {
        let ghost cp = *ctx;
        let ghost sp = state@;
        self::partial_round_gates(ctx, &mut state, r);
        proof {
            lemma_extends_trans(&*ctx, &cp, &c2);
        }
        assert forall|d: Context, v: Seq<QM31>| d.extends(ctx) && d.computes(v) implies vals_at(v, state@)
            == partial_rounds(qm31_ops(), vals_at(v, st2), (r + 1) as nat) by {
            lemma_extends_trans(&d, &*ctx, &cp);
            assert(vals_at(v, sp) == partial_rounds(qm31_ops(), vals_at(v, st2), r as nat));
        }
    }
    let ghost s3 = ctx.vals(state@);
    let ghost c3 = *ctx;
    let ghost st3 = state@;
    assert forall|d: Context, v: Seq<QM31>| d.extends(ctx) && d.computes(v) implies vals_at(v, state@)
        == full_rounds(qm31_ops(), vals_at(v, st3), 4, 0) by {}

    // Second half full rounds.
    for round in 0..N_HALF_FULL_ROUNDS
        invariant
            ctx.computes_from(old(ctx)),
            ctx.extends(&c3),
            ctx.has_all(state@),
            ctx.vals(state@) == full_rounds(qm31_ops(), s3, 4, round as nat),
            binds(ctx, state@, st3, |x: Seq<QM31>| full_rounds(qm31_ops(), x, 4, round as nat)),
            ctx.circuit.mul@.len() >= old(ctx).circuit.mul@.len() + 192 + 48 * round,
    {
        let ghost cp = *ctx;
        let ghost sp = state@;
        self::full_round_gates(ctx, &mut state, round + N_HALF_FULL_ROUNDS);
        proof {
            lemma_extends_trans(&*ctx, &cp, &c3);
        }
        assert forall|d: Context, v: Seq<QM31>| d.extends(ctx) && d.computes(v) implies vals_at(v, state@)
            == full_rounds(qm31_ops(), vals_at(v, st3), 4, (round + 1) as nat) by {
            lemma_extends_trans(&d, &*ctx, &cp);
            assert(vals_at(v, sp) == full_rounds(qm31_ops(), vals_at(v, st3), 4, round as nat));
        }
    }
    assert(ctx.vals(state@)[0] == ctx.val(state[0]));
    let r = state[0];
    assert forall|d: Context, v: Seq<QM31>| d.extends(ctx) && d.computes(v) implies v[r.idx as int] == spec_hash_two(
        v[a.idx as int],
        v[b.idx as int],
    ) by {
        lemma_extends_trans(&d, &*ctx, &c3);
        lemma_extends_trans(&d, &c3, &c2);
        lemma_extends_trans(&d, &c2, &c1);
        lemma_extends_trans(&d, &c1, &c0);
        let x0 = vals_at(v, si);
        assert(x0 =~= two_input_state(v[a.idx as int], v[b.idx as int], embed(M31(0)))) by {
            assert(v[zero.idx as int] == embed(M31(0)));
        }
        assert(vals_at(v, st1) == external(qm31_ops(), x0));
        assert(vals_at(v, st2) == full_rounds(qm31_ops(), vals_at(v, st1), 0, 4));
        assert(vals_at(v, st3) == partial_rounds(qm31_ops(), vals_at(v, st2), 14));
        assert(vals_at(v, state@) == full_rounds(qm31_ops(), vals_at(v, st3), 4, 4));
        assert(vals_at(v, state@)[0] == v[r.idx as int]);
    }
    r
}

/// What a Poseidon gate outputs on inputs `a` and `b`: the first four
/// elements of the permuted `qm31_pair_state(a, b)`, as one extension element.
pub fn poseidon2_gate_value(a: QM31, b: QM31) -> (r: QM31)
    ensures
        r == poseidon_gate_output(a, b),
        r.canonical(),
        ({
            let p = permutation(
                m31_ops(),
                seq![a.0.0, b.0.0, a.0.1, a.1.0, a.1.1, b.0.1, b.1.0, b.1.1, M31(0), M31(0), M31(0), M31(0), M31(0), M31(0), M31(0), M31(0)],
            );
            r == qm31_of(p[0], p[1], p[2], p[3])
        }),
{
    proof {
        lemma_poseidon_gate_output_layout(a, b);
        crate::poseidon_hash::lemma_permutation_canonical(qm31_pair_state(a, b));
        crate::poseidon_hash::lemma_permutation_len(m31_ops(), qm31_pair_state(a, b));
    }
    QM31::from_m31_array(poseidon2_value_qm31(a, b))
}

/// Adds one Poseidon gate: a new variable holding `poseidon2_gate_value` of
/// the values of `a` and `b`.
pub fn poseidon_gate(ctx: &mut Context, a: Var, b: Var) -> (r: Var)
    requires
        old(ctx).wf(),
        old(ctx).has(a),
        old(ctx).has(b),
    ensures
        final(ctx).wf(),
        final(ctx).extends(old(ctx)),
        r.idx == old(ctx).values@.len(),
        final(ctx).values@ == old(ctx).values@.push(poseidon_gate_output(old(ctx).val(a), old(ctx).val(b))),
        final(ctx).guessed@ == old(ctx).guessed@,
        final(ctx).circuit.constants@ == old(ctx).circuit.constants@,
        final(ctx).circuit.poseidon@ == old(ctx).circuit.poseidon@.push(
            Poseidon { in0: a.idx, in1: b.idx, out: r.idx },
        ),
        old(ctx).yields_once() ==> final(ctx).yields_once(),
        forall|d: Context, v: Seq<QM31>|
            #![trigger d.extends(final(ctx)), d.computes(v)]
            d.extends(final(ctx)) && d.computes(v) ==> v[r.idx as int] == poseidon_gate_output(
                v[a.idx as int],
                v[b.idx as int],
            ),
        final(ctx).circuit.add@ == old(ctx).circuit.add@,
        final(ctx).circuit.sub@ == old(ctx).circuit.sub@,
        final(ctx).circuit.mul@ == old(ctx).circuit.mul@,
        final(ctx).circuit.eq@ == old(ctx).circuit.eq@,
        final(ctx).circuit.output@ == old(ctx).circuit.output@,
{
    let a_val = ctx.get(a);
    let b_val = ctx.get(b);
    let out_val = poseidon2_gate_value(a_val, b_val);
    let out_var = ctx.new_var(out_val);
    ctx.circuit.poseidon.push(Poseidon { in0: a.idx, in1: b.idx, out: out_var.idx });
    proof {
        if old(ctx).yields_once() {
            crate::context::lemma_yields_once_step(ctx, old(ctx), 4);
        }
    }
    assert forall|d: Context, v: Seq<QM31>| d.extends(ctx) && d.computes(v) implies v[out_var.idx as int]
        == poseidon_gate_output(v[a.idx as int], v[b.idx as int]) by {
        let k = ctx.circuit.poseidon@.len() - 1;
        assert(d.circuit.poseidon@[k] == ctx.circuit.poseidon@[k]);
    }
    out_var
}

/// Seeing base-field elements in the extension respects addition,
/// multiplication and the round constants.
pub proof fn lemma_embed_is_hom()
    ensures
        crate::poseidon_hash::is_hom(m31_ops(), qm31_ops(), |a: M31| embed(a)),
{
    reveal(crate::field::m31_add);
    reveal(crate::field::m31_sub);
    reveal(crate::field::m31_mul);
    assert forall|a: M31, b: M31| embed(crate::field::m31_add(a, b)) == qm31_add(embed(a), embed(b)) by {}
    assert forall|a: M31, b: M31| embed(crate::field::m31_mul(a, b)) == qm31_mul(embed(a), embed(b)) by {
        let z = M31(0);
        let zc = crate::field::CM31(z, z);
        crate::field::lemma_m31_ops_canonical(a, b);
        crate::field::lemma_m31_identities(crate::field::m31_mul(a, b), z);
        crate::field::lemma_m31_identities(z, z);
        crate::field::lemma_m31_identities(M31(1), z);
        crate::field::lemma_m31_identities(M31(2), z);
        assert(crate::field::m31_mul(a, z) == z);
        assert(crate::field::m31_mul(z, b) == z);
        assert(crate::field::cm31_mul(crate::field::CM31(a, z), crate::field::CM31(b, z)) == crate::field::CM31(
            crate::field::m31_mul(a, b),
            z,
        ));
        assert(crate::field::cm31_mul(crate::field::qm31_r(), zc) == zc);
        assert(crate::field::cm31_mul(zc, zc) == zc);
        assert(crate::field::cm31_mul(crate::field::CM31(a, z), zc) == zc);
        assert(crate::field::cm31_mul(zc, crate::field::CM31(b, z)) == zc);
    }
}

/// On base-field inputs, the gates of `poseidon2_hash_two` compute the value
/// that `poseidon2_value` computes, seen in the extension.
pub proof fn lemma_hash_gates_agree_with_value(x: M31, y: M31)
    ensures
        permutation(qm31_ops(), two_input_state(embed(x), embed(y), embed(M31(0))))[0] == embed(
            permutation(m31_ops(), two_input_state(x, y, M31(0)))[0],
        ),
{
    lemma_embed_is_hom();
    let h = |a: M31| embed(a);
    let s = two_input_state(x, y, M31(0));
    assert(two_input_state(embed(x), embed(y), embed(M31(0))) =~= s.map_values(h));
    crate::poseidon_hash::lemma_permutation_hom(m31_ops(), qm31_ops(), h, s);
    crate::poseidon_hash::lemma_permutation_len(m31_ops(), s);
}

/// On base-field inputs, a Poseidon gate's first coordinate is the hash that
/// the gates of `poseidon2_hash_two` compute.
pub proof fn lemma_poseidon_gate_agrees_with_hash_gates(x: M31, y: M31)
    ensures
        poseidon_gate_output(embed(x), embed(y)).0.0 == permutation(
            qm31_ops(),
            two_input_state(embed(x), embed(y), embed(M31(0))),
        )[0].0.0,
{
    lemma_qm31_hash_of_base_elements(embed(x), embed(y));
    lemma_hash_gates_agree_with_value(x, y);
}

} // verus!
