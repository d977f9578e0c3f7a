//! The Poseidon gate component of the AIR: the sizes of its trace and its
//! claims.
use crate::field::{m31_add, m31_mul, m31_sub, reduce, M31, QM31};
use crate::poseidon_hash::{
    add_round_constants, apply_external_round_matrix, apply_internal_round_matrix, external,
    full_round, full_rounds, internal, lemma_external, m31_ops, partial_round, partial_rounds,
    permutation, sbox, N_HALF_FULL_ROUNDS, N_PARTIAL_ROUNDS, N_STATE, RC_EXTERNAL, RC_INTERNAL,
};
use crate::witness::{
    full_round_witness, full_rounds_witness, gate_state, lemma_full_rounds_witness_len,
    lemma_partial_rounds_witness_len, partial_round_witness, partial_rounds_witness, trace_row,
};
use crate::channel::{blake2s_mixed_felts, blake2s_mixed_u64, Blake2sChannel};
use vstd::prelude::*;

verus! {

/// Columns of one row: 12 for the coordinates of `in0`, `in1` and `out`, and
/// 650 intermediate Poseidon2 values (192 for each half of the full rounds,
/// 266 for the partial rounds).
pub const N_TRACE_COLUMNS: usize = 662;

/// Interaction columns: two logup fractions of 4 coordinates each.
pub const N_INTERACTION_COLUMNS: usize = 8;

/// The identifier of the relation of gates in lookups.
pub const GATE_RELATION_ID: u32 = 378353459;

/// How many times a component uses a relation in each row.
#[derive(Clone, Copy, Debug)]
pub struct RelationUse {
    pub relation_id: &'static str,
    pub uses: u32,
}

/// The size of the Poseidon gate component: `2^log_size` rows.
#[derive(Clone, Copy, Debug)]
pub struct Claim {
    pub log_size: u32,
}

/// The sum of the component's logup fractions.
#[derive(Clone, Copy, Debug)]
pub struct InteractionClaim {
    pub claimed_sum: QM31,
}

/// The constraint evaluator of the Poseidon gate component.
pub struct Eval {
    pub claim: Claim,
}

impl Claim {
    /// The column sizes of the three trace trees: no preprocessed columns of
    /// its own, `N_TRACE_COLUMNS` trace columns and `N_INTERACTION_COLUMNS`
    /// interaction columns, each of size `log_size`.
    pub fn log_sizes(&self) -> (r: Vec<Vec<u32>>)
        ensures
            r@.len() == 3,
            r@[0]@.len() == 0,
            r@[1]@ == Seq::new(N_TRACE_COLUMNS as nat, |i: int| self.log_size),
            r@[2]@ == Seq::new(N_INTERACTION_COLUMNS as nat, |i: int| self.log_size),
    {
        let mut trace_log_sizes: Vec<u32> = Vec::new();
        for i in 0..N_TRACE_COLUMNS
            invariant
                trace_log_sizes@ == Seq::new(i as nat, |j: int| self.log_size),
        {
            trace_log_sizes.push(self.log_size);
        }
        let mut interaction_log_sizes: Vec<u32> = Vec::new();
        for i in 0..N_INTERACTION_COLUMNS
            invariant
                interaction_log_sizes@ == Seq::new(i as nat, |j: int| self.log_size),
        {
            interaction_log_sizes.push(self.log_size);
        }
        let mut r: Vec<Vec<u32>> = Vec::new();
        r.push(Vec::new());
        r.push(trace_log_sizes);
        r.push(interaction_log_sizes);
        r
    }
}

impl Claim {
    /// Mixes the claim into the channel: its `log_size`, as a `u64`.
    pub fn mix_into(&self, channel: &mut Blake2sChannel)
        ensures
            final(channel).digest@ == blake2s_mixed_u64(old(channel).digest@, self.log_size as u64),
            final(channel).n_draws == 0,
    {
        channel.mix_u64(self.log_size as u64);
    }
}

impl InteractionClaim {
    /// Mixes the claimed sum into the channel.
    pub fn mix_into(&self, channel: &mut Blake2sChannel)
        ensures
            final(channel).digest@ == blake2s_mixed_felts(old(channel).digest@, seq![self.claimed_sum]),
            final(channel).n_draws == 0,
    {
        let sums = [self.claimed_sum];
        assert(sums@ =~= seq![self.claimed_sum]);
        channel.mix_felts(&sums);
    }
}

/// The components of the circuit AIR, in the order of their claims.
#[derive(Clone, Copy, Debug, PartialEq, Eq, Structural)]
pub enum ComponentList {
    Eq,
    Qm31Ops,
    PoseidonGate,
}

/// The number of components of the circuit AIR.
pub const N_COMPONENTS: usize = 3;

/// The claimed logup sums of the circuit's components, one per component in
/// the order of `ComponentList`.
#[derive(Clone, Copy, Debug)]
pub struct CircuitInteractionClaim {
    pub claimed_sums: [QM31; N_COMPONENTS],
}

/// The claim of the whole circuit: the log size of each component, in the
/// order of `ComponentList`, and the values of the output gates.
pub struct CircuitClaim {
    pub log_sizes: [u32; N_COMPONENTS],
    pub output_values: Vec<QM31>,
}

/// The claim that writing the circuit's trace makes: the components' log
/// sizes as given, and the values of the variables at `output_addresses`,
/// in order.
pub fn circuit_claim(log_sizes: [u32; N_COMPONENTS], context_values: &[QM31], output_addresses: &[usize]) -> (r:
    CircuitClaim)
    requires
        forall|k: int| 0 <= k < output_addresses@.len() ==> #[trigger] output_addresses@[k] < context_values@.len(),
    ensures
        r.log_sizes == log_sizes,
        r.output_values@ == Seq::new(
            output_addresses@.len(),
            |k: int| context_values@[output_addresses@[k] as int],
        ),
{
    let mut output_values: Vec<QM31> = Vec::new();
    for k in 0..output_addresses.len()
        invariant
            forall|j: int| 0 <= j < output_addresses@.len() ==> #[trigger] output_addresses@[j] < context_values@.len(),
            output_values@ == Seq::new(k as nat, |j: int| context_values@[output_addresses@[j] as int]),
    {
        output_values.push(context_values[output_addresses[k]]);
        assert(output_values@ =~= Seq::new((k + 1) as nat, |j: int| context_values@[output_addresses@[j] as int]));
    }
    CircuitClaim { log_sizes, output_values }
}

impl CircuitInteractionClaim {
    /// Mixes the claimed sums into the channel, in the order of the components.
    pub fn mix_into(&self, channel: &mut Blake2sChannel)
        ensures
            final(channel).digest@ == blake2s_mixed_felts(old(channel).digest@, self.claimed_sums@),
            final(channel).n_draws == 0,
    {
        channel.mix_felts(&self.claimed_sums);
    }
}

impl Eval {
    pub fn log_size(&self) -> (r: u32)
        ensures
            r == self.claim.log_size,
    {
        self.claim.log_size
    }

    /// The constraints have degree 2, so their evaluation needs one more bit.
    pub fn max_constraint_log_degree_bound(&self) -> (r: u32)
        requires
            self.claim.log_size < u32::MAX,
        ensures
            r == self.claim.log_size + 1,
    {
        self.log_size() + 1
    }
}

/// The component uses the relation of gates three times per row: two inputs and
/// one output.
pub fn relation_uses_per_row() -> (r: [RelationUse; 1])
    ensures
        r[0].relation_id@ == "gate"@,
        r[0].uses == 3,
        forall|pre: Seq<M31>, row: Seq<M31>| r[0].uses == #[trigger] row_relation_entries(pre, row).len(),
{
    [RelationUse { relation_id: "gate", uses: 3 }]
}

// --- The constraints of the Poseidon gate component on one row ---

/// Every value of `c` is zero.
pub open spec fn all_zero(c: Seq<M31>) -> bool {
    forall|k: int| 0 <= k < c.len() ==> #[trigger] c[k] == M31(0)
}

/// Every value of `row` is canonical.
pub open spec fn canonical_row(row: Seq<M31>) -> bool {
    forall|k: int| 0 <= k < row.len() ==> (#[trigger] row[k]).canonical()
}

/// The values of the constraints of full round `r`, entered with state `s`,
/// whose 48 trace values are `w`: `a^2 - w[i]`, `w[i]^2 - w[16 + i]`, and
/// the external matrix of `w[16 + i] a` minus `w[32 + i]`, where `a` is the
/// state with the round constants added.
pub open spec fn full_round_constraints(s: Seq<M31>, r: int, w: Seq<M31>) -> Seq<M31> {
    let o = m31_ops();
    let a = add_round_constants(o, s, r);
    let e = external(o, Seq::new(16, |i: int| m31_mul(w[16 + i], a[i])));
    Seq::new(16, |i: int| m31_sub(m31_mul(a[i], a[i]), w[i])) + Seq::new(
        16,
        |i: int| m31_sub(m31_mul(w[i], w[i]), w[16 + i]),
    ) + Seq::new(16, |i: int| m31_sub(e[i], w[32 + i]))
}

/// The values of the constraints of partial round `r`, entered with state
/// `s`, whose 19 trace values are `w`: the square, fourth and fifth power of
/// `a = s[0] + c`, then the internal matrix of the state with `w[2]` in
/// place of `s[0]` minus `w[3 ..]`.
pub open spec fn partial_round_constraints(s: Seq<M31>, r: int, w: Seq<M31>) -> Seq<M31> {
    let a = m31_add(s[0], M31(RC_INTERNAL[r]));
    let t = internal(m31_ops(), s.update(0, w[2]));
    seq![m31_sub(m31_mul(a, a), w[0]), m31_sub(m31_mul(w[0], w[0]), w[1]), m31_sub(m31_mul(w[1], a), w[2])]
        + Seq::new(16, |i: int| m31_sub(t[i], w[3 + i]))
}

/// The state that enters the `k`-th of a run of rounds of `width` trace
/// values each, laid out from `base`: `s` for the first, else the last 16
/// trace values of the round before.
pub open spec fn entering_state(row: Seq<M31>, s: Seq<M31>, base: int, width: int, k: int) -> Seq<M31> {
    if k == 0 {
        s
    } else {
        row.subrange(base + width * k - 16, base + width * k)
    }
}

/// The constraint values of full rounds `first .. first + n` whose trace
/// starts at `base`, entered with state `s`.
pub open spec fn full_rounds_constraints(row: Seq<M31>, s: Seq<M31>, first: int, n: nat, base: int) -> Seq<M31>
    decreases n,
{
    if n == 0 {
        seq![]
    } else {
        full_rounds_constraints(row, s, first, (n - 1) as nat, base) + full_round_constraints(
            entering_state(row, s, base, 48, n - 1),
            first + n - 1,
            row.subrange(base + 48 * (n - 1), base + 48 * n),
        )
    }
}

/// The constraint values of partial rounds `0 .. n` whose trace starts at
/// `base`, entered with state `s`.
pub open spec fn partial_rounds_constraints(row: Seq<M31>, s: Seq<M31>, n: nat, base: int) -> Seq<M31>
    decreases n,
{
    if n == 0 {
        seq![]
    } else {
        partial_rounds_constraints(row, s, (n - 1) as nat, base) + partial_round_constraints(
            entering_state(row, s, base, 19, n - 1),
            n - 1,
            row.subrange(base + 19 * (n - 1), base + 19 * n),
        )
    }
}

/// The values of all constraints of the Poseidon gate component on `row`:
/// the rounds, each entered with the trace values of the round before, and
/// the output columns minus the last state.
pub open spec fn constraint_values(row: Seq<M31>) -> Seq<M31> {
    let s0 = external(m31_ops(), gate_state(row.subrange(0, 4), row.subrange(4, 8)));
    full_rounds_constraints(row, s0, 0, 4, 12) + partial_rounds_constraints(row, row.subrange(188, 204), 14, 204)
        + full_rounds_constraints(row, row.subrange(454, 470), 4, 4, 470) + Seq::new(
        4,
        |k: int| m31_sub(row[8 + k], row[646 + k]),
    )
}

/// For canonical values, a difference is zero exactly when they are equal.
proof fn lemma_sub_zero(x: M31, w: M31)
    requires
        x.canonical(),
        w.canonical(),
    ensures
        (m31_sub(x, w) == M31(0)) <==> (x == w),
{
    reveal(m31_sub);
    if x != w {
        assert((x.0 - w.0) % (crate::field::P as int) != 0);
    }
}

proof fn lemma_all_zero_concat(a: Seq<M31>, b: Seq<M31>)
    ensures
        all_zero(a + b) <==> all_zero(a) && all_zero(b),
{
    if all_zero(a + b) {
        assert forall|k: int| 0 <= k < b.len() implies #[trigger] b[k] == M31(0) by {
            assert((a + b)[a.len() + k] == b[k]);
        }
        assert forall|k: int| 0 <= k < a.len() implies #[trigger] a[k] == M31(0) by {
            assert((a + b)[k] == a[k]);
        }
    }
}

/// The constraints of one full round hold exactly when its trace values are
/// the round's witnesses.
proof fn lemma_full_round_constraints(s: Seq<M31>, r: int, w: Seq<M31>)
    requires
        s.len() == 16,
        w.len() == 48,
        canonical_row(w),
    ensures
        all_zero(full_round_constraints(s, r, w)) <==> w == full_round_witness(s, r),
{
    let o = m31_ops();
    let a = add_round_constants(o, s, r);
    let x2 = Seq::new(16, |i: int| m31_mul(a[i], a[i]));
    let x4 = Seq::new(16, |i: int| m31_mul(x2[i], x2[i]));
    let c = full_round_constraints(s, r, w);
    let wit = full_round_witness(s, r);
    let inner = Seq::new(16, |i: int| m31_mul(w[16 + i], a[i]));
    let e = external(o, inner);
    lemma_external(o, inner, 0);
    let sb = Seq::new(16, |i: int| sbox(o, a[i]));
    lemma_external(o, sb, 0);
    assert forall|i: int| 0 <= i < 16 implies (#[trigger] e[i]).canonical() by {
        lemma_external(o, inner, i);
        crate::field::lemma_m31_ops_canonical(
            crate::poseidon_hash::m4_layer(o, inner)[i],
            crate::poseidon_hash::col_sum(o, crate::poseidon_hash::m4_layer(o, inner), i % 4),
        );
    }
    assert forall|i: int| 0 <= i < 16 implies #[trigger] c[i] == m31_sub(x2[i], w[i]) && c[16 + i] == m31_sub(
        m31_mul(w[i], w[i]),
        w[16 + i],
    ) && c[32 + i] == m31_sub(e[i], w[32 + i]) by {}
    if all_zero(c) {
        assert forall|i: int| 0 <= i < 16 implies #[trigger] w[i] == x2[i] by {
            assert(c[i] == M31(0));
            crate::field::lemma_m31_ops_canonical(a[i], a[i]);
            lemma_sub_zero(x2[i], w[i]);
        }
        assert forall|i: int| 0 <= i < 16 implies #[trigger] w[16 + i] == x4[i] by {
            assert(c[16 + i] == M31(0));
            crate::field::lemma_m31_ops_canonical(w[i], w[i]);
            lemma_sub_zero(m31_mul(w[i], w[i]), w[16 + i]);
        }
        assert(inner =~= sb);
        assert forall|i: int| 0 <= i < 16 implies #[trigger] w[32 + i] == e[i] by {
            assert(c[32 + i] == M31(0));
            lemma_sub_zero(e[i], w[32 + i]);
        }
        assert(full_round(o, s, r) == e);
        assert forall|k: int| 0 <= k < 48 implies #[trigger] w[k] == wit[k] by {
            if k < 16 {
            } else if k < 32 {
                assert(w[16 + (k - 16)] == x4[k - 16]);
            } else {
                assert(w[32 + (k - 32)] == e[k - 32]);
            }
        }
        assert(w =~= wit);
    }
    if w == wit {
        assert(inner =~= sb);
        assert(full_round(o, s, r) == e);
        assert forall|i: int| 0 <= i < 16 implies w[i] == x2[i] && w[16 + i] == x4[i] && w[32 + i] == e[i] by {
            assert(wit[i] == x2[i]);
            assert(wit[16 + i] == x4[i]);
            assert(wit[32 + i] == e[i]);
        }
        assert forall|k: int| 0 <= k < c.len() implies #[trigger] c[k] == M31(0) by {
            if k < 16 {
                crate::field::lemma_m31_ops_canonical(a[k], a[k]);
                lemma_sub_zero(x2[k], w[k]);
            } else if k < 32 {
                crate::field::lemma_m31_ops_canonical(w[k - 16], w[k - 16]);
                lemma_sub_zero(m31_mul(w[k - 16], w[k - 16]), w[k]);
            } else {
                lemma_sub_zero(e[k - 32], w[k]);
            }
        }
    }
}

/// The constraints of one partial round hold exactly when its trace values
/// are the round's witnesses.
proof fn lemma_partial_round_constraints(s: Seq<M31>, r: int, w: Seq<M31>)
    requires
        s.len() == 16,
        w.len() == 19,
        canonical_row(w),
    ensures
        all_zero(partial_round_constraints(s, r, w)) <==> w == partial_round_witness(s, r),
{
    let o = m31_ops();
    let a = m31_add(s[0], M31(RC_INTERNAL[r]));
    let x2 = m31_mul(a, a);
    let x4 = m31_mul(x2, x2);
    let x5 = m31_mul(x4, a);
    let c = partial_round_constraints(s, r, w);
    let wit = partial_round_witness(s, r);
    crate::field::lemma_m31_ops_canonical(a, a);
    crate::field::lemma_m31_ops_canonical(x2, x2);
    crate::field::lemma_m31_ops_canonical(x4, a);
    crate::field::lemma_m31_ops_canonical(w[0], w[0]);
    crate::field::lemma_m31_ops_canonical(w[1], a);
    let t = internal(o, s.update(0, w[2]));
    let sum = crate::poseidon_hash::prefix_sum(o, s.update(0, w[2]), 16);
    assert forall|i: int| 0 <= i < 16 implies (#[trigger] t[i]).canonical() by {
        crate::field::lemma_m31_ops_canonical(
            m31_mul(s.update(0, w[2])[i], M31(crate::poseidon_hash::INTERNAL_DIAG[i])),
            sum,
        );
    }
    assert(partial_round(o, s, r) == internal(o, s.update(0, x5)));
    if all_zero(c) {
        assert(c[0] == M31(0) && c[1] == M31(0) && c[2] == M31(0));
        lemma_sub_zero(x2, w[0]);
        lemma_sub_zero(x4, w[1]);
        lemma_sub_zero(x5, w[2]);
        assert(t == partial_round(o, s, r));
        assert forall|i: int| 0 <= i < 16 implies #[trigger] w[3 + i] == t[i] by {
            assert(c[3 + i] == M31(0));
            lemma_sub_zero(t[i], w[3 + i]);
        }
        assert forall|k: int| 0 <= k < 19 implies #[trigger] w[k] == wit[k] by {
            if k >= 3 {
                assert(w[3 + (k - 3)] == t[k - 3]);
            }
        }
        assert(w =~= wit);
    }
    if w == wit {
        assert(w[0] == x2 && w[1] == x4 && w[2] == x5);
        assert(t == partial_round(o, s, r));
        assert forall|k: int| 0 <= k < c.len() implies #[trigger] c[k] == M31(0) by {
            if k == 0 {
                lemma_sub_zero(x2, w[0]);
            } else if k == 1 {
                lemma_sub_zero(x4, w[1]);
            } else if k == 2 {
                lemma_sub_zero(x5, w[2]);
            } else {
                assert(wit[k] == t[k - 3]);
                lemma_sub_zero(t[k - 3], w[k]);
            }
        }
    }
}

proof fn lemma_concat_eq(a: Seq<M31>, b: Seq<M31>, c: Seq<M31>, d: Seq<M31>)
    requires
        a.len() == c.len(),
    ensures
        (a + b == c + d) <==> (a == c && b == d),
{
    if a + b == c + d {
        assert((a + b).len() == (c + d).len());
        assert forall|k: int| 0 <= k < a.len() implies a[k] == c[k] by {
            assert((a + b)[k] == (c + d)[k]);
        }
        assert forall|k: int| 0 <= k < b.len() implies b[k] == d[k] by {
            assert((a + b)[a.len() + k] == (c + d)[c.len() + k]);
        }
        assert(a =~= c);
        assert(b =~= d);
    }
}

proof fn lemma_full_round_witness_last(s: Seq<M31>, r: int)
    requires
        s.len() == 16,
    ensures
        full_round_witness(s, r).len() == 48,
        full_round_witness(s, r).subrange(32, 48) == full_round(m31_ops(), s, r),
{
    let o = m31_ops();
    let a = add_round_constants(o, s, r);
    lemma_external(o, Seq::new(16, |i: int| sbox(o, a[i])), 0);
    assert(full_round_witness(s, r).subrange(32, 48) =~= full_round(o, s, r));
}

proof fn lemma_full_rounds_len(s: Seq<M31>, first: int, n: nat)
    requires
        s.len() == 16,
    ensures
        full_rounds(m31_ops(), s, first, n).len() == 16,
    decreases n,
{
    if n > 0 {
        lemma_full_rounds_len(s, first, (n - 1) as nat);
        lemma_full_round_witness_last(full_rounds(m31_ops(), s, first, (n - 1) as nat), first + n - 1);
    }
}

proof fn lemma_full_rounds_witness_last(s: Seq<M31>, first: int, k: nat)
    requires
        s.len() == 16,
        k >= 1,
    ensures
        full_rounds_witness(s, first, k).len() == 48 * k,
        full_rounds_witness(s, first, k).subrange(48 * k - 16, 48 * k as int) == full_rounds(m31_ops(), s, first, k),
{
    lemma_full_rounds_witness_len(s, first, k);
    lemma_full_rounds_witness_len(s, first, (k - 1) as nat);
    lemma_full_rounds_len(s, first, (k - 1) as nat);
    let prev = full_rounds_witness(s, first, (k - 1) as nat);
    let last = full_round_witness(full_rounds(m31_ops(), s, first, (k - 1) as nat), first + k - 1);
    lemma_full_round_witness_last(full_rounds(m31_ops(), s, first, (k - 1) as nat), first + k - 1);
    assert((prev + last).subrange(48 * k - 16, 48 * k as int) =~= last.subrange(32, 48));
}

proof fn lemma_partial_rounds_len(s: Seq<M31>, n: nat)
    requires
        s.len() == 16,
    ensures
        partial_rounds(m31_ops(), s, n).len() == 16,
    decreases n,
{
    if n > 0 {
        lemma_partial_rounds_len(s, (n - 1) as nat);
    }
}

proof fn lemma_partial_rounds_witness_last(s: Seq<M31>, k: nat)
    requires
        s.len() == 16,
        k >= 1,
    ensures
        partial_rounds_witness(s, k).len() == 19 * k,
        partial_rounds_witness(s, k).subrange(19 * k - 16, 19 * k as int) == partial_rounds(m31_ops(), s, k),
{
    lemma_partial_rounds_witness_len(s, k);
    lemma_partial_rounds_witness_len(s, (k - 1) as nat);
    lemma_partial_rounds_len(s, (k - 1) as nat);
    let prev = partial_rounds_witness(s, (k - 1) as nat);
    let last = partial_round_witness(partial_rounds(m31_ops(), s, (k - 1) as nat), k - 1);
    assert((prev + last).subrange(19 * k - 16, 19 * k as int) =~= partial_rounds(m31_ops(), s, k));
}

/// The constraints of a run of full rounds hold exactly when its trace values
/// are the witnesses of those rounds.
proof fn lemma_full_rounds_constraints(row: Seq<M31>, s: Seq<M31>, first: int, n: nat, base: int)
    requires
        s.len() == 16,
        0 <= base,
        base + 48 * n <= row.len(),
        canonical_row(row),
    ensures
        all_zero(full_rounds_constraints(row, s, first, n, base)) <==> row.subrange(base, base + 48 * n)
            == full_rounds_witness(s, first, n),
    decreases n,
{
    if n == 0 {
        assert(row.subrange(base, base) =~= full_rounds_witness(s, first, 0));
    } else {
        let m = (n - 1) as nat;
        lemma_full_rounds_constraints(row, s, first, m, base);
        lemma_full_rounds_witness_len(s, first, m);
        lemma_full_rounds_len(s, first, m);
        let prev = full_rounds_constraints(row, s, first, m, base);
        let st = entering_state(row, s, base, 48, m as int);
        let w = row.subrange(base + 48 * m, base + 48 * n);
        let fr = full_rounds(m31_ops(), s, first, m);
        lemma_all_zero_concat(prev, full_round_constraints(st, first + m, w));
        assert(row.subrange(base, base + 48 * n) =~= row.subrange(base, base + 48 * m) + w);
        let wm = full_rounds_witness(s, first, m);
        lemma_concat_eq(row.subrange(base, base + 48 * m), w, wm, full_round_witness(fr, first + m));
        assert(canonical_row(w));
        if row.subrange(base, base + 48 * m) == wm {
            if m > 0 {
                lemma_full_rounds_witness_last(s, first, m);
                assert(st =~= wm.subrange(48 * m - 16, 48 * m as int));
            }
            assert(st == fr);
            lemma_full_round_constraints(st, first + m, w);
        }
    }
}

/// The constraints of a run of partial rounds hold exactly when its trace
/// values are the witnesses of those rounds.
proof fn lemma_partial_rounds_constraints(row: Seq<M31>, s: Seq<M31>, n: nat, base: int)
    requires
        s.len() == 16,
        0 <= base,
        base + 19 * n <= row.len(),
        canonical_row(row),
    ensures
        all_zero(partial_rounds_constraints(row, s, n, base)) <==> row.subrange(base, base + 19 * n)
            == partial_rounds_witness(s, n),
    decreases n,
{
    if n == 0 {
        assert(row.subrange(base, base) =~= partial_rounds_witness(s, 0));
    } else {
        let m = (n - 1) as nat;
        lemma_partial_rounds_constraints(row, s, m, base);
        lemma_partial_rounds_witness_len(s, m);
        lemma_partial_rounds_len(s, m);
        let prev = partial_rounds_constraints(row, s, m, base);
        let st = entering_state(row, s, base, 19, m as int);
        let w = row.subrange(base + 19 * m, base + 19 * n);
        let pr = partial_rounds(m31_ops(), s, m);
        lemma_all_zero_concat(prev, partial_round_constraints(st, m as int, w));
        assert(row.subrange(base, base + 19 * n) =~= row.subrange(base, base + 19 * m) + w);
        let wm = partial_rounds_witness(s, m);
        lemma_concat_eq(row.subrange(base, base + 19 * m), w, wm, partial_round_witness(pr, m as int));
        assert(canonical_row(w));
        if row.subrange(base, base + 19 * m) == wm {
            if m > 0 {
                lemma_partial_rounds_witness_last(s, m);
                assert(st =~= wm.subrange(19 * m - 16, 19 * m as int));
            }
            assert(st == pr);
            lemma_partial_round_constraints(st, m as int, w);
        }
    }
}

/// The constraints of the Poseidon gate component hold on a row of canonical
/// values exactly when the row is the trace row of its input columns: they
/// accept the rows that `compute_row` writes and no other.
pub proof fn lemma_constraints_hold_iff_trace_row(row: Seq<M31>)
    requires
        row.len() == N_TRACE_COLUMNS,
        canonical_row(row),
    ensures
        all_zero(constraint_values(row)) <==> row == trace_row(row.subrange(0, 4), row.subrange(4, 8)),
{
    let o = m31_ops();
    let in0 = row.subrange(0, 4);
    let in1 = row.subrange(4, 8);
    let s0 = gate_state(in0, in1);
    let x1 = external(o, s0);
    lemma_external(o, s0, 0);
    let x2 = full_rounds(o, x1, 0, 4);
    let x3 = partial_rounds(o, x2, 14);
    let w1 = full_rounds_witness(x1, 0, 4);
    let w2 = partial_rounds_witness(x2, 14);
    let w3 = full_rounds_witness(x3, 4, 4);
    let perm = permutation(o, s0);
    crate::poseidon_hash::lemma_permutation_len(o, s0);
    lemma_full_rounds_len(x1, 0, 4);
    lemma_partial_rounds_len(x2, 14);
    lemma_full_rounds_witness_last(x1, 0, 4);
    lemma_partial_rounds_witness_last(x2, 14);
    lemma_full_rounds_witness_last(x3, 4, 4);
    crate::poseidon_hash::lemma_constants_below_modulus();
    let t = trace_row(in0, in1);
    assert(t == in0 + in1 + perm.take(4) + w1 + w2 + w3);
    assert(t.len() == 662);

    let a = full_rounds_constraints(row, x1, 0, 4, 12);
    let b = partial_rounds_constraints(row, row.subrange(188, 204), 14, 204);
    let c = full_rounds_constraints(row, row.subrange(454, 470), 4, 4, 470);
    let d = Seq::new(4, |k: int| m31_sub(row[8 + k], row[646 + k]));
    assert(constraint_values(row) == a + b + c + d);
    lemma_all_zero_concat(a + b + c, d);
    lemma_all_zero_concat(a + b, c);
    lemma_all_zero_concat(a, b);
    lemma_full_rounds_constraints(row, x1, 0, 4, 12);
    lemma_partial_rounds_constraints(row, row.subrange(188, 204), 14, 204);
    lemma_full_rounds_constraints(row, row.subrange(454, 470), 4, 4, 470);
    assert(all_zero(d) <==> row.subrange(8, 12) == row.subrange(646, 662).take(4)) by {
        if all_zero(d) {
            assert forall|k: int| 0 <= k < 4 implies #[trigger] row.subrange(8, 12)[k] == row.subrange(
                646,
                662,
            ).take(4)[k] by {
                assert(d[k] == M31(0));
                lemma_sub_zero(row[8 + k], row[646 + k]);
            }
            assert(row.subrange(8, 12) =~= row.subrange(646, 662).take(4));
        }
        if row.subrange(8, 12) == row.subrange(646, 662).take(4) {
            assert forall|k: int| 0 <= k < 4 implies #[trigger] d[k] == M31(0) by {
                assert(row.subrange(8, 12)[k] == row.subrange(646, 662).take(4)[k]);
                lemma_sub_zero(row[8 + k], row[646 + k]);
            }
        }
    }
    assert(t.subrange(0, 4) =~= in0);
    assert(t.subrange(4, 8) =~= in1);
    assert(t.subrange(8, 12) =~= perm.take(4));
    assert(t.subrange(12, 204) =~= w1);
    assert(t.subrange(204, 470) =~= w2);
    assert(t.subrange(470, 662) =~= w3);
    assert(w1.subrange(176, 192) == x2);
    assert(w2.subrange(250, 266) == x3);
    assert(w3.subrange(176, 192) == perm);
    if all_zero(constraint_values(row)) {
        assert(row.subrange(12, 204) == w1);
        assert(row.subrange(188, 204) =~= w1.subrange(176, 192));
        assert(row.subrange(204, 470) == w2);
        assert(row.subrange(454, 470) =~= w2.subrange(250, 266));
        assert(row.subrange(470, 662) == w3);
        assert(row.subrange(646, 662) =~= w3.subrange(176, 192));
        assert forall|k: int| 0 <= k < 662 implies #[trigger] row[k] == t[k] by {
            if k < 4 {
                assert(t.subrange(0, 4)[k] == t[k]);
            } else if k < 8 {
                assert(t.subrange(4, 8)[k - 4] == t[k]);
            } else if k < 12 {
                assert(row.subrange(8, 12)[k - 8] == row[k]);
                assert(t.subrange(8, 12)[k - 8] == t[k]);
            } else if k < 204 {
                assert(row.subrange(12, 204)[k - 12] == row[k]);
                assert(t.subrange(12, 204)[k - 12] == t[k]);
            } else if k < 470 {
                assert(row.subrange(204, 470)[k - 204] == row[k]);
                assert(t.subrange(204, 470)[k - 204] == t[k]);
            } else {
                assert(row.subrange(470, 662)[k - 470] == row[k]);
                assert(t.subrange(470, 662)[k - 470] == t[k]);
            }
        }
        assert(row =~= t);
    }
    if row == t {
        assert(row.subrange(12, 204) == w1);
        assert(row.subrange(188, 204) =~= w1.subrange(176, 192));
        assert(row.subrange(204, 470) == w2);
        assert(row.subrange(454, 470) =~= w2.subrange(250, 266));
        assert(row.subrange(470, 662) == w3);
        assert(row.subrange(646, 662) =~= w3.subrange(176, 192));
        assert(row.subrange(8, 12) == perm.take(4));
    }
}

proof fn lemma_canonical_concat(a: Seq<M31>, b: Seq<M31>)
    ensures
        canonical_row(a + b) <==> canonical_row(a) && canonical_row(b),
{
    if canonical_row(a) && canonical_row(b) {
        assert forall|k: int| 0 <= k < (a + b).len() implies (#[trigger] (a + b)[k]).canonical() by {
            if k >= a.len() {
                assert((a + b)[k] == b[k - a.len()]);
            }
        }
    }
    if canonical_row(a + b) {
        assert forall|k: int| 0 <= k < b.len() implies (#[trigger] b[k]).canonical() by {
            assert((a + b)[a.len() + k] == b[k]);
        }
        assert forall|k: int| 0 <= k < a.len() implies (#[trigger] a[k]).canonical() by {
            assert((a + b)[k] == a[k]);
        }
    }
}

/// Every value the external matrix gives over M31 is canonical.
proof fn lemma_external_canonical(s: Seq<M31>)
    ensures
        canonical_row(external(m31_ops(), s)),
{
    let o = m31_ops();
    lemma_external(o, s, 0);
    assert forall|k: int| 0 <= k < 16 implies (#[trigger] external(o, s)[k]).canonical() by {
        lemma_external(o, s, k);
        crate::field::lemma_m31_ops_canonical(
            crate::poseidon_hash::m4_layer(o, s)[k],
            crate::poseidon_hash::col_sum(o, crate::poseidon_hash::m4_layer(o, s), k % 4),
        );
    }
}

proof fn lemma_full_round_witness_canonical(s: Seq<M31>, r: int)
    requires
        s.len() == 16,
    ensures
        canonical_row(full_round_witness(s, r)),
{
    let o = m31_ops();
    let a = add_round_constants(o, s, r);
    let x2 = Seq::new(16, |i: int| m31_mul(a[i], a[i]));
    let x4 = Seq::new(16, |i: int| m31_mul(x2[i], x2[i]));
    assert forall|k: int| 0 <= k < 16 implies (#[trigger] x2[k]).canonical() && x4[k].canonical() by {
        crate::field::lemma_m31_ops_canonical(a[k], a[k]);
        crate::field::lemma_m31_ops_canonical(x2[k], x2[k]);
    }
    lemma_external_canonical(Seq::new(16, |i: int| sbox(o, a[i])));
    lemma_canonical_concat(x2, x4);
    lemma_canonical_concat(x2 + x4, full_round(o, s, r));
}

proof fn lemma_partial_round_witness_canonical(s: Seq<M31>, r: int)
    requires
        s.len() == 16,
    ensures
        canonical_row(partial_round_witness(s, r)),
{
    let o = m31_ops();
    let a = m31_add(s[0], M31(RC_INTERNAL[r]));
    let x2 = m31_mul(a, a);
    let x4 = m31_mul(x2, x2);
    crate::field::lemma_m31_ops_canonical(a, a);
    crate::field::lemma_m31_ops_canonical(x2, x2);
    crate::field::lemma_m31_ops_canonical(x4, a);
    let u = s.update(0, sbox(o, m31_add(s[0], M31(RC_INTERNAL[r]))));
    let sum = crate::poseidon_hash::prefix_sum(o, u, 16);
    assert forall|k: int| 0 <= k < 16 implies (#[trigger] partial_round(o, s, r)[k]).canonical() by {
        crate::field::lemma_m31_ops_canonical(
            m31_mul(u[k], M31(crate::poseidon_hash::INTERNAL_DIAG[k])),
            sum,
        );
    }
    lemma_canonical_concat(seq![x2, x4, m31_mul(x4, a)], partial_round(o, s, r));
}

proof fn lemma_full_rounds_witness_canonical(s: Seq<M31>, first: int, n: nat)
    requires
        s.len() == 16,
    ensures
        canonical_row(full_rounds_witness(s, first, n)),
    decreases n,
{
    if n > 0 {
        lemma_full_rounds_witness_canonical(s, first, (n - 1) as nat);
        lemma_full_rounds_len(s, first, (n - 1) as nat);
        let fr = full_rounds(m31_ops(), s, first, (n - 1) as nat);
        lemma_full_round_witness_canonical(fr, first + n - 1);
        lemma_canonical_concat(full_rounds_witness(s, first, (n - 1) as nat), full_round_witness(fr, first + n - 1));
    }
}

proof fn lemma_partial_rounds_witness_canonical(s: Seq<M31>, n: nat)
    requires
        s.len() == 16,
    ensures
        canonical_row(partial_rounds_witness(s, n)),
    decreases n,
{
    if n > 0 {
        lemma_partial_rounds_witness_canonical(s, (n - 1) as nat);
        lemma_partial_rounds_len(s, (n - 1) as nat);
        let pr = partial_rounds(m31_ops(), s, (n - 1) as nat);
        lemma_partial_round_witness_canonical(pr, n - 1);
        lemma_canonical_concat(partial_rounds_witness(s, (n - 1) as nat), partial_round_witness(pr, n - 1));
    }
}

/// The trace row of a gate whose input coordinates are canonical satisfies
/// every constraint of the component: each row that the trace writes is
/// accepted.
pub proof fn lemma_trace_row_satisfies_constraints(in0: Seq<M31>, in1: Seq<M31>)
    requires
        in0.len() == 4,
        in1.len() == 4,
        canonical_row(in0),
        canonical_row(in1),
    ensures
        all_zero(constraint_values(trace_row(in0, in1))),
{
    let o = m31_ops();
    let s0 = gate_state(in0, in1);
    let x1 = external(o, s0);
    lemma_external(o, s0, 0);
    lemma_full_rounds_len(x1, 0, 4);
    let x2 = full_rounds(o, x1, 0, 4);
    lemma_partial_rounds_len(x2, 14);
    let x3 = partial_rounds(o, x2, 14);
    let perm = permutation(o, s0);
    crate::poseidon_hash::lemma_permutation_len(o, s0);
    crate::poseidon_hash::lemma_permutation_canonical(s0);
    assert(canonical_row(perm.take(4)));
    lemma_full_rounds_witness_canonical(x1, 0, 4);
    lemma_partial_rounds_witness_canonical(x2, 14);
    lemma_full_rounds_witness_canonical(x3, 4, 4);
    lemma_canonical_concat(in0, in1);
    lemma_canonical_concat(in0 + in1, perm.take(4));
    lemma_canonical_concat(in0 + in1 + perm.take(4), full_rounds_witness(x1, 0, 4));
    lemma_canonical_concat(in0 + in1 + perm.take(4) + full_rounds_witness(x1, 0, 4), partial_rounds_witness(x2, 14));
    lemma_canonical_concat(
        in0 + in1 + perm.take(4) + full_rounds_witness(x1, 0, 4) + partial_rounds_witness(x2, 14),
        full_rounds_witness(x3, 4, 4),
    );
    let t = trace_row(in0, in1);
    lemma_full_rounds_witness_last(x1, 0, 4);
    lemma_partial_rounds_witness_last(x2, 14);
    lemma_full_rounds_witness_last(x3, 4, 4);
    assert(t.len() == 662);
    assert(t.subrange(0, 4) =~= in0);
    assert(t.subrange(4, 8) =~= in1);
    lemma_constraints_hold_iff_trace_row(t);
}

// --- Evaluating the constraints on one row ---

/// Adds the 48 constraint values of full round `round` at `col ..` to `c`, and
/// moves `state` to the round's last 16 trace values.
fn eval_full_round(
    row: &[M31; N_TRACE_COLUMNS],
    col: usize,
    state: &mut [M31; N_STATE],
    round: usize,
    c: &mut Vec<M31>,
)
    requires
        col + 48 <= N_TRACE_COLUMNS,
        round < 8,
    ensures
        final(c)@ == old(c)@ + full_round_constraints(old(state)@, round as int, row@.subrange(col as int, col + 48)),
        final(state)@ == row@.subrange(col + 32, col + 48),
{
    let ghost o = m31_ops();
    let ghost s0 = state@;
    let ghost w = row@.subrange(col as int, col + 48);
    let ghost c0 = c@;
    let mut a = *state;
    for i in 0..N_STATE
        invariant
            round < 8,
            forall|k: int| 0 <= k < 16 ==> #[trigger] a@[k] == if k < i {
                m31_add(s0[k], M31(RC_EXTERNAL[round as int][k]))
            } else {
                s0[k]
            },
    {
        a[i] = a[i].add(M31::from_u32_unchecked(RC_EXTERNAL[round][i]));
    }
    let ghost av = add_round_constants(o, s0, round as int);
    assert(a@ =~= av);
    let ghost sq = Seq::new(16, |k: int| m31_sub(m31_mul(av[k], av[k]), w[k]));
    for i in 0..N_STATE
        invariant
            col + 48 <= N_TRACE_COLUMNS,
            a@ == av,
            w == row@.subrange(col as int, col + 48),
            sq == Seq::new(16, |k: int| m31_sub(m31_mul(av[k], av[k]), w[k])),
            c@ == c0 + sq.take(i as int),
    {
        c.push(a[i].mul(a[i]).sub(row[col + i]));
        assert(sq.take(i + 1) =~= sq.take(i as int).push(sq[i as int]));
    }
    assert(sq.take(16) =~= sq);
    let ghost fourth = Seq::new(16, |k: int| m31_sub(m31_mul(w[k], w[k]), w[16 + k]));
    for i in 0..N_STATE
        invariant
            col + 48 <= N_TRACE_COLUMNS,
            w == row@.subrange(col as int, col + 48),
            fourth == Seq::new(16, |k: int| m31_sub(m31_mul(w[k], w[k]), w[16 + k])),
            c@ == c0 + sq + fourth.take(i as int),
    {
        let wi = row[col + i];
        c.push(wi.mul(wi).sub(row[col + 16 + i]));
        assert(fourth.take(i + 1) =~= fourth.take(i as int).push(fourth[i as int]));
    }
    assert(fourth.take(16) =~= fourth);
    let mut m = a;
    for i in 0..N_STATE
        invariant
            col + 48 <= N_TRACE_COLUMNS,
            a@ == av,
            w == row@.subrange(col as int, col + 48),
            forall|k: int| 0 <= k < 16 ==> #[trigger] m@[k] == if k < i {
                m31_mul(w[16 + k], av[k])
            } else {
                av[k]
            },
    {
        m[i] = row[col + 16 + i].mul(a[i]);
    }
    let ghost inner = Seq::new(16, |k: int| m31_mul(w[16 + k], av[k]));
    assert(m@ =~= inner);
    apply_external_round_matrix(&mut m);
    let ghost e = external(o, inner);
    let ghost last = Seq::new(16, |k: int| m31_sub(e[k], w[32 + k]));
    for i in 0..N_STATE
        invariant
            col + 48 <= N_TRACE_COLUMNS,
            m@ == e,
            w == row@.subrange(col as int, col + 48),
            last == Seq::new(16, |k: int| m31_sub(e[k], w[32 + k])),
            c@ == c0 + sq + fourth + last.take(i as int),
    {
        c.push(m[i].sub(row[col + 32 + i]));
        assert(last.take(i + 1) =~= last.take(i as int).push(last[i as int]));
    }
    assert(last.take(16) =~= last);
    assert(c@ =~= c0 + full_round_constraints(s0, round as int, w));
    for i in 0..N_STATE
        invariant
            col + 48 <= N_TRACE_COLUMNS,
            forall|k: int| 0 <= k < i ==> #[trigger] state@[k] == row@[col + 32 + k],
    {
        state[i] = row[col + 32 + i];
    }
    assert(state@ =~= row@.subrange(col + 32, col + 48));
}

/// Adds the 19 constraint values of partial round `round` at `col ..` to `c`,
/// and moves `state` to the round's last 16 trace values.
fn eval_partial_round(
    row: &[M31; N_TRACE_COLUMNS],
    col: usize,
    state: &mut [M31; N_STATE],
    round: usize,
    c: &mut Vec<M31>,
)
    requires
        col + 19 <= N_TRACE_COLUMNS,
        round < 14,
    ensures
        final(c)@ == old(c)@ + partial_round_constraints(old(state)@, round as int, row@.subrange(col as int, col + 19)),
        final(state)@ == row@.subrange(col + 3, col + 19),
{
    let ghost o = m31_ops();
    let ghost s0 = state@;
    let ghost w = row@.subrange(col as int, col + 19);
    let ghost c0 = c@;
    let a = state[0].add(M31::from_u32_unchecked(RC_INTERNAL[round]));
    let w0 = row[col];
    let w1 = row[col + 1];
    let w2 = row[col + 2];
    c.push(a.mul(a).sub(w0));
    c.push(w0.mul(w0).sub(w1));
    c.push(w1.mul(a).sub(w2));
    state[0] = w2;
    assert(state@ =~= s0.update(0, w[2]));
    apply_internal_round_matrix(state);
    let ghost t = internal(o, s0.update(0, w[2]));
    let ghost rest = Seq::new(16, |k: int| m31_sub(t[k], w[3 + k]));
    let ghost head = seq![m31_sub(m31_mul(a, a), w[0]), m31_sub(m31_mul(w[0], w[0]), w[1]), m31_sub(m31_mul(w[1], a), w[2])];
    assert(c@ =~= c0 + head);
    for i in 0..N_STATE
        invariant
            col + 19 <= N_TRACE_COLUMNS,
            state@ == t,
            w == row@.subrange(col as int, col + 19),
            rest == Seq::new(16, |k: int| m31_sub(t[k], w[3 + k])),
            c@ == c0 + head + rest.take(i as int),
    {
        c.push(state[i].sub(row[col + 3 + i]));
        assert(rest.take(i + 1) =~= rest.take(i as int).push(rest[i as int]));
    }
    assert(rest.take(16) =~= rest);
    assert(c@ =~= c0 + partial_round_constraints(s0, round as int, w));
    for i in 0..N_STATE
        invariant
            col + 19 <= N_TRACE_COLUMNS,
            forall|k: int| 0 <= k < i ==> #[trigger] state@[k] == row@[col + 3 + k],
    {
        state[i] = row[col + 3 + i];
    }
    assert(state@ =~= row@.subrange(col + 3, col + 19));
}

impl Eval {
    /// What the component adds on one row of trace values whose preprocessed
    /// values (`in0_address`, `in1_address`, `out_address`, `out_mults`) are
    /// `preprocessed`: the values of its constraints, in the order in which
    /// they are added (the rounds, then the output coordinates), and the three
    /// entries it adds to the relation of gates (`relation_entries`). The row
    /// satisfies the constraints when all values are zero.
    pub fn evaluate(&self, preprocessed: &[M31; 4], row: &[M31; N_TRACE_COLUMNS]) -> (r: (Vec<M31>, [(M31, [M31; 6]); 3]))
        ensures
            r.0@ == constraint_values(row@),
            forall|k: int|
                0 <= k < 3 ==> (#[trigger] r.1[k]).0 == row_relation_entries(preprocessed@, row@)[k].0 && r.1[k].1@
                    == row_relation_entries(preprocessed@, row@)[k].1,
    {
        let c = self.constraint_values_of(row);
        let e = self.relation_entries(preprocessed, row);
        (c, e)
    }

    /// The values of the component's constraints on one row.
    fn constraint_values_of(&self, row: &[M31; N_TRACE_COLUMNS]) -> (c: Vec<M31>)
        ensures
            c@ == constraint_values(row@),
    {
        let ghost o = m31_ops();
        let ghost r = row@;
        let zero = M31::from_u32_unchecked(0);
        let mut state = [zero; N_STATE];
        state[0] = row[0];
        state[1] = row[4];
        state[2] = row[1];
        state[3] = row[2];
        state[4] = row[3];
        state[5] = row[5];
        state[6] = row[6];
        state[7] = row[7];
        assert(state@ =~= gate_state(r.subrange(0, 4), r.subrange(4, 8)));
        apply_external_round_matrix(&mut state);
        let ghost s0 = state@;
        proof {
            lemma_external(o, gate_state(r.subrange(0, 4), r.subrange(4, 8)), 0);
        }
        let mut c: Vec<M31> = Vec::new();
        let mut col: usize = 12;
        for round in 0..N_HALF_FULL_ROUNDS
            invariant
                r == row@,
                s0.len() == 16,
                col == 12 + 48 * round,
                c@ == full_rounds_constraints(r, s0, 0, round as nat, 12),
                state@ == entering_state(r, s0, 12, 48, round as int),
        {
            eval_full_round(row, col, &mut state, round, &mut c);
            col = col + 48;
        }
        let ghost a = c@;
        let ghost s1 = r.subrange(188, 204);
        assert(c@ =~= a + partial_rounds_constraints(r, s1, 0, 204));
        for round in 0..N_PARTIAL_ROUNDS
            invariant
                r == row@,
                s1 == r.subrange(188, 204),
                col == 204 + 19 * round,
                c@ == a + partial_rounds_constraints(r, s1, round as nat, 204),
                state@ == entering_state(r, s1, 204, 19, round as int),
        {
            eval_partial_round(row, col, &mut state, round, &mut c);
            col = col + 19;
        }
        let ghost b = c@;
        let ghost s2 = r.subrange(454, 470);
        assert(c@ =~= b + full_rounds_constraints(r, s2, 4, 0, 470));
        for round in 0..N_HALF_FULL_ROUNDS
            invariant
                r == row@,
                s2 == r.subrange(454, 470),
                col == 470 + 48 * round,
                c@ == b + full_rounds_constraints(r, s2, 4, round as nat, 470),
                state@ == entering_state(r, s2, 470, 48, round as int),
        {
            eval_full_round(row, col, &mut state, round + N_HALF_FULL_ROUNDS, &mut c);
            col = col + 48;
        }
        let ghost d = c@;
        for k in 0..4
            invariant
                r == row@,
                state@ == r.subrange(646, 662),
                c@ == d + Seq::new(k as nat, |j: int| m31_sub(r[8 + j], r[646 + j])),
        {
            c.push(row[8 + k].sub(state[k]));
            assert(Seq::new((k + 1) as nat, |j: int| m31_sub(r[8 + j], r[646 + j])) =~= Seq::new(
                k as nat,
                |j: int| m31_sub(r[8 + j], r[646 + j]),
            ).push(m31_sub(r[8 + k], r[646 + k])));
        }
        c
    }
}

// --- The entries that one row adds to the relation of gates ---

/// The entries that a row adds to the relation of gates, each with its
/// multiplicity: the first input used once, the second input used once, the
/// output yielded `out_mults` times (multiplicity `-out_mults`). Each entry is
/// the relation's identifier, an address and four coordinates; `pre` holds
/// the row's preprocessed values `in0_address`, `in1_address`, `out_address`,
/// `out_mults`.
pub open spec fn row_relation_entries(pre: Seq<M31>, row: Seq<M31>) -> Seq<(M31, Seq<M31>)> {
    let id = M31(GATE_RELATION_ID);
    seq![
        (M31(1), seq![id, pre[0]] + row.subrange(0, 4)),
        (M31(1), seq![id, pre[1]] + row.subrange(4, 8)),
        (m31_sub(M31(0), pre[3]), seq![id, pre[2]] + row.subrange(8, 12)),
    ]
}

impl Eval {
    /// The entries that one row adds to the relation of gates, in the order in
    /// which they are added (`row_relation_entries`); `preprocessed` holds the
    /// row's values of the columns `in0_address`, `in1_address`,
    /// `out_address` and `out_mults`. There are as many as
    /// `relation_uses_per_row` counts.
    pub fn relation_entries(&self, preprocessed: &[M31; 4], row: &[M31; N_TRACE_COLUMNS]) -> (r: [(
        M31,
        [M31; 6],
    ); 3])
        ensures
            forall|k: int|
                0 <= k < 3 ==> (#[trigger] r[k]).0 == row_relation_entries(preprocessed@, row@)[k].0
                    && r[k].1@ == row_relation_entries(preprocessed@, row@)[k].1,
    {
        let id = M31::from_u32_unchecked(GATE_RELATION_ID);
        let zero = M31::from_u32_unchecked(0);
        let one = M31::from_u32_unchecked(1);
        let e0 = [id, preprocessed[0], row[0], row[1], row[2], row[3]];
        let e1 = [id, preprocessed[1], row[4], row[5], row[6], row[7]];
        let eo = [id, preprocessed[2], row[8], row[9], row[10], row[11]];
        let r = [(one, e0), (one, e1), (zero.sub(preprocessed[3]), eo)];
        let ghost t = row_relation_entries(preprocessed@, row@);
        assert(e0@ =~= t[0].1);
        assert(e1@ =~= t[1].1);
        assert(eo@ =~= t[2].1);
        r
    }
}

/// The entries that the evaluator adds for a row that the trace wrote are the
/// lookup entries that the trace stored for it: the inputs' relation entries
/// with multiplicity 1, and the output's with multiplicity `-out_mults`.
pub proof fn lemma_relation_entries_of_written_rows(
    in0: Seq<M31>,
    in1: Seq<M31>,
    a0: usize,
    a1: usize,
    ao: usize,
    mult: usize,
)
    requires
        in0.len() == 4,
        in1.len() == 4,
    ensures
        ({
            let row = trace_row(in0, in1);
            let pre = seq![reduce(a0 as int), reduce(a1 as int), reduce(ao as int), reduce(mult as int)];
            let t = row_relation_entries(pre, row);
            &&& t[0] == (M31(1), crate::witness::relation_entry(a0, in0))
            &&& t[1] == (M31(1), crate::witness::relation_entry(a1, in1))
            &&& t[2] == (m31_sub(M31(0), reduce(mult as int)), crate::witness::relation_entry(ao, row.subrange(8, 12)))
        }),
{
    let row = trace_row(in0, in1);
    let pre = seq![reduce(a0 as int), reduce(a1 as int), reduce(ao as int), reduce(mult as int)];
    let t = row_relation_entries(pre, row);
    assert(row.subrange(0, 4) =~= in0);
    assert(row.subrange(4, 8) =~= in1);
    assert(t[0].1 =~= crate::witness::relation_entry(a0, in0));
    assert(t[1].1 =~= crate::witness::relation_entry(a1, in1));
    assert(t[2].1 =~= crate::witness::relation_entry(ao, row.subrange(8, 12)));
}

// --- Where the Poseidon gate component's row keeps what ---

/// The S-box columns of partial round `r` in a row of the component: with
/// `x` the S-box input, the first state element entering the round (column
/// `188 + 19 r`) plus the round's constant, column `204 + 19 r` holds
/// `x^2`, column `205 + 19 r` the square of that (`x^4`), and column
/// `206 + 19 r` that times `x` (`x^5`).
pub open spec fn partial_round_sbox_columns(row: Seq<M31>, r: int) -> bool {
    let x = m31_add(row[188 + 19 * r], M31(RC_INTERNAL[r]));
    &&& row[204 + 19 * r] == m31_mul(x, x)
    &&& row[205 + 19 * r] == m31_mul(row[204 + 19 * r], row[204 + 19 * r])
    &&& row[206 + 19 * r] == m31_mul(row[205 + 19 * r], x)
}

/// Value `19 q + k` of the witnesses of partial rounds `0 .. n` is value `k`
/// of the witness of round `q`.
proof fn lemma_partial_rounds_witness_at(s: Seq<M31>, n: nat, q: int, k: int)
    requires
        s.len() == 16,
        0 <= q < n,
        0 <= k < 19,
    ensures
        partial_rounds_witness(s, n)[19 * q + k] == partial_round_witness(
            partial_rounds(m31_ops(), s, q as nat),
            q,
        )[k],
    decreases n,
{
    let m = (n - 1) as nat;
    lemma_partial_rounds_witness_len(s, m);
    if q < m {
        lemma_partial_rounds_witness_at(s, m, q, k);
    }
}

/// The trace row of every gate keeps, in partial round `r`, the square, the
/// fourth and the fifth power of the round's S-box input in columns
/// `204 + 19 r`, `205 + 19 r` and `206 + 19 r`.
pub proof fn lemma_trace_row_partial_round_columns(in0: Seq<M31>, in1: Seq<M31>, r: int)
    requires
        in0.len() == 4,
        in1.len() == 4,
        0 <= r < 14,
    ensures
        partial_round_sbox_columns(trace_row(in0, in1), r),
{
    let o = m31_ops();
    let s0 = gate_state(in0, in1);
    let x1 = external(o, s0);
    lemma_external(o, s0, 0);
    lemma_full_rounds_len(x1, 0, 4);
    let x2 = full_rounds(o, x1, 0, 4);
    lemma_partial_rounds_len(x2, 14);
    let x3 = partial_rounds(o, x2, 14);
    let w1 = full_rounds_witness(x1, 0, 4);
    let w2 = partial_rounds_witness(x2, 14);
    let w3 = full_rounds_witness(x3, 4, 4);
    let perm = permutation(o, s0);
    crate::poseidon_hash::lemma_permutation_len(o, s0);
    lemma_full_rounds_witness_last(x1, 0, 4);
    lemma_partial_rounds_witness_len(x2, 14);
    lemma_full_rounds_witness_len(x3, 4, 4);
    let row = trace_row(in0, in1);
    let head = in0 + in1 + perm.take(4);
    assert(head.len() == 12);
    assert(row == head + w1 + w2 + w3);
    assert forall|j: int| 0 <= j < 266 implies #[trigger] row[204 + j] == w2[j] by {
        assert((head + w1 + w2)[204 + j] == w2[j]);
    }
    let st = partial_rounds(o, x2, r as nat);
    lemma_partial_rounds_len(x2, r as nat);
    let pw = partial_round_witness(st, r);
    lemma_partial_rounds_witness_at(x2, 14, r, 0);
    lemma_partial_rounds_witness_at(x2, 14, r, 1);
    lemma_partial_rounds_witness_at(x2, 14, r, 2);
    assert(row[204 + 19 * r] == pw[0]);
    assert(row[205 + 19 * r] == pw[1]);
    assert(row[206 + 19 * r] == pw[2]);
    // The first state element entering round `r` is in column `188 + 19 r`.
    if r == 0 {
        assert(row[188] == (head + w1)[188]);
        assert(w1.subrange(176, 192)[0] == w1[176]);
        assert(row[188] == x2[0]);
    } else {
        let prev = partial_rounds(o, x2, (r - 1) as nat);
        lemma_partial_rounds_len(x2, (r - 1) as nat);
        lemma_partial_rounds_witness_at(x2, 14, r - 1, 3);
        assert(row[188 + 19 * r] == w2[19 * (r - 1) + 3]);
        assert(partial_round_witness(prev, r - 1)[3] == partial_round(o, prev, r - 1)[0]);
        assert(st == partial_round(o, prev, r - 1));
    }
    assert(row[188 + 19 * r] == st[0]);
}

/// Whenever the constraints of the component hold on a row of canonical
/// values, partial round `r` keeps the square, fourth and fifth power of its
/// S-box input in columns `204 + 19 r`, `205 + 19 r` and `206 + 19 r`.
pub proof fn lemma_constraints_force_partial_round_columns(row: Seq<M31>, r: int)
    requires
        row.len() == N_TRACE_COLUMNS,
        canonical_row(row),
        all_zero(constraint_values(row)),
        0 <= r < 14,
    ensures
        partial_round_sbox_columns(row, r),
{
    lemma_constraints_hold_iff_trace_row(row);
    lemma_trace_row_partial_round_columns(row.subrange(0, 4), row.subrange(4, 8), r);
}

/// The trace row of a gate with input coordinates `in0` and `in1` keeps them
/// in columns 0..4 and 4..8, and in columns 8..12 the first four elements of
/// the Poseidon2 permutation of the state
/// `[in0[0], in1[0], in0[1], in0[2], in0[3], in1[1], in1[2], in1[3], 0, ..., 0]`.
pub proof fn lemma_trace_row_gate_output(in0: Seq<M31>, in1: Seq<M31>)
    requires
        in0.len() == 4,
        in1.len() == 4,
    ensures
        trace_row(in0, in1).subrange(0, 4) == in0,
        trace_row(in0, in1).subrange(4, 8) == in1,
        trace_row(in0, in1).subrange(8, 12) == permutation(
            m31_ops(),
            seq![in0[0], in1[0], in0[1], in0[2], in0[3], in1[1], in1[2], in1[3], M31(0), M31(0), M31(0), M31(0), M31(0), M31(0), M31(0), M31(0)],
        ).take(4),
{
    let o = m31_ops();
    let s0 = gate_state(in0, in1);
    let lit = seq![in0[0], in1[0], in0[1], in0[2], in0[3], in1[1], in1[2], in1[3], M31(0), M31(0), M31(0), M31(0), M31(0), M31(0), M31(0), M31(0)];
    assert(s0 =~= lit);
    crate::poseidon_hash::lemma_permutation_len(o, s0);
    let row = trace_row(in0, in1);
    let perm = permutation(o, s0);
    let x1 = external(o, s0);
    let x2 = full_rounds(o, x1, 0, 4);
    let x3 = partial_rounds(o, x2, 14);
    let tail = full_rounds_witness(x1, 0, 4) + partial_rounds_witness(x2, 14) + full_rounds_witness(x3, 4, 4);
    assert(row =~= in0 + in1 + perm.take(4) + tail);
    assert(row.subrange(0, 4) =~= in0);
    assert(row.subrange(4, 8) =~= in1);
    assert(row.subrange(8, 12) =~= perm.take(4));
}

/// Whenever the constraints of the component hold on a row of canonical
/// values, its columns 8..12 are the first four elements of the Poseidon2
/// permutation of the state
/// `[row[0], row[4], row[1], row[2], row[3], row[5], row[6], row[7], 0, ..., 0]`.
pub proof fn lemma_constraints_force_gate_output(row: Seq<M31>)
    requires
        row.len() == N_TRACE_COLUMNS,
        canonical_row(row),
        all_zero(constraint_values(row)),
    ensures
        row.subrange(8, 12) == permutation(
            m31_ops(),
            seq![row[0], row[4], row[1], row[2], row[3], row[5], row[6], row[7], M31(0), M31(0), M31(0), M31(0), M31(0), M31(0), M31(0), M31(0)],
        ).take(4),
{
    lemma_constraints_hold_iff_trace_row(row);
    let in0 = row.subrange(0, 4);
    let in1 = row.subrange(4, 8);
    lemma_trace_row_gate_output(in0, in1);
    assert(seq![in0[0], in1[0], in0[1], in0[2], in0[3], in1[1], in1[2], in1[3], M31(0), M31(0), M31(0), M31(0), M31(0), M31(0), M31(0), M31(0)]
        =~= seq![row[0], row[4], row[1], row[2], row[3], row[5], row[6], row[7], M31(0), M31(0), M31(0), M31(0), M31(0), M31(0), M31(0), M31(0)]);
}

/// The column where the trace values of full round `r` (of 8) start: the
/// first four rounds from column 12, the last four from column 470.
pub open spec fn full_round_base(r: int) -> int {
    if r < 4 {
        12 + 48 * r
    } else {
        470 + 48 * (r - 4)
    }
}

/// The S-box columns of element `i` in full round `r`, entered with state
/// `e`: with `x = e[i]` plus the round's constant for `i`, column
/// `full_round_base(r) + i` holds `x^2` and column `full_round_base(r) + 16 + i`
/// the square of that (`x^4`).
pub open spec fn full_round_sbox_column(row: Seq<M31>, e: Seq<M31>, r: int, i: int) -> bool {
    let base = full_round_base(r);
    let x = m31_add(e[i], M31(RC_EXTERNAL[r][i]));
    &&& row[base + i] == m31_mul(x, x)
    &&& row[base + 16 + i] == m31_mul(row[base + i], row[base + i])
}

/// Value `48 q + k` of the witnesses of full rounds `first .. first + n` is
/// value `k` of the witness of round `first + q`.
proof fn lemma_full_rounds_witness_at(s: Seq<M31>, first: int, n: nat, q: int, k: int)
    requires
        s.len() == 16,
        0 <= q < n,
        0 <= k < 48,
    ensures
        full_rounds_witness(s, first, n)[48 * q + k] == full_round_witness(
            full_rounds(m31_ops(), s, first, q as nat),
            first + q,
        )[k],
    decreases n,
{
    let m = (n - 1) as nat;
    lemma_full_rounds_witness_len(s, first, m);
    lemma_full_rounds_len(s, first, m);
    lemma_full_round_witness_last(full_rounds(m31_ops(), s, first, m), first + m);
    if q < m {
        lemma_full_rounds_witness_at(s, first, m, q, k);
    }
}

/// The trace row of every gate keeps, for each element `i` of each full
/// round `r`, the square and the fourth power of the element's S-box input:
/// the state entering the round plus the round's constant. The first round
/// is entered with the external matrix applied to
/// `[in0[0], in1[0], in0[1], in0[2], in0[3], in1[1], in1[2], in1[3], 0, ..., 0]`;
/// every other round with the 16 columns just before its own.
pub proof fn lemma_trace_row_full_round_columns(in0: Seq<M31>, in1: Seq<M31>, r: int, i: int)
    requires
        in0.len() == 4,
        in1.len() == 4,
        0 <= r < 8,
        0 <= i < 16,
    ensures
        ({
            let row = trace_row(in0, in1);
            let e = if r == 0 {
                external(
                    m31_ops(),
                    seq![in0[0], in1[0], in0[1], in0[2], in0[3], in1[1], in1[2], in1[3], M31(0), M31(0), M31(0), M31(0), M31(0), M31(0), M31(0), M31(0)],
                )
            } else {
                row.subrange(full_round_base(r) - 16, full_round_base(r))
            };
            full_round_sbox_column(row, e, r, i)
        }),
{
    let o = m31_ops();
    let s0 = gate_state(in0, in1);
    let lit = seq![in0[0], in1[0], in0[1], in0[2], in0[3], in1[1], in1[2], in1[3], M31(0), M31(0), M31(0), M31(0), M31(0), M31(0), M31(0), M31(0)];
    assert(s0 =~= lit);
    let x1 = external(o, s0);
    lemma_external(o, s0, 0);
    lemma_full_rounds_len(x1, 0, 4);
    let x2 = full_rounds(o, x1, 0, 4);
    lemma_partial_rounds_len(x2, 14);
    let x3 = partial_rounds(o, x2, 14);
    let w1 = full_rounds_witness(x1, 0, 4);
    let w2 = partial_rounds_witness(x2, 14);
    let w3 = full_rounds_witness(x3, 4, 4);
    let perm = permutation(o, s0);
    crate::poseidon_hash::lemma_permutation_len(o, s0);
    lemma_full_rounds_witness_len(x1, 0, 4);
    lemma_partial_rounds_witness_len(x2, 14);
    lemma_full_rounds_witness_len(x3, 4, 4);
    let row = trace_row(in0, in1);
    let head = in0 + in1 + perm.take(4);
    assert(head.len() == 12);
    assert(row == head + w1 + w2 + w3);
    let base = full_round_base(r);
    let e = if r == 0 {
        external(o, lit)
    } else {
        row.subrange(base - 16, base)
    };
    if r < 4 {
        assert forall|j: int| 0 <= j < 192 implies #[trigger] row[12 + j] == w1[j] by {
            assert((head + w1)[12 + j] == w1[j]);
            assert((head + w1 + w2 + w3)[12 + j] == (head + w1)[12 + j]);
        }
        let st = full_rounds(o, x1, 0, r as nat);
        lemma_full_rounds_len(x1, 0, r as nat);
        lemma_full_rounds_witness_at(x1, 0, 4, r, i);
        lemma_full_rounds_witness_at(x1, 0, 4, r, 16 + i);
        if r > 0 {
            lemma_full_rounds_witness_last(x1, 0, r as nat);
            lemma_full_rounds_witness_len(x1, 0, 4);
            assert(w1.subrange(0, 48 * r) =~= full_rounds_witness(x1, 0, r as nat)) by {
                lemma_full_rounds_witness_prefix(x1, 0, r as nat, 4);
            }
            assert(row[base - 16 + i] == w1[48 * r - 16 + i]);
            assert(full_rounds_witness(x1, 0, r as nat).subrange(48 * r - 16, 48 * r)[i] == w1[48 * r - 16 + i]);
            assert(e[i] == st[i]);
        } else {
            assert(e == st);
        }
    } else {
        let q = r - 4;
        assert forall|j: int| 0 <= j < 192 implies #[trigger] row[470 + j] == w3[j] by {
            assert((head + w1 + w2 + w3)[470 + j] == w3[j]);
        }
        let st = full_rounds(o, x3, 4, q as nat);
        lemma_full_rounds_len(x3, 4, q as nat);
        lemma_full_rounds_witness_at(x3, 4, 4, q, i);
        lemma_full_rounds_witness_at(x3, 4, 4, q, 16 + i);
        if q > 0 {
            lemma_full_rounds_witness_last(x3, 4, q as nat);
            assert(w3.subrange(0, 48 * q) =~= full_rounds_witness(x3, 4, q as nat)) by {
                lemma_full_rounds_witness_prefix(x3, 4, q as nat, 4);
            }
            assert(row[base - 16 + i] == w3[48 * q - 16 + i]);
            assert(full_rounds_witness(x3, 4, q as nat).subrange(48 * q - 16, 48 * q)[i] == w3[48 * q - 16 + i]);
            assert(e[i] == st[i]);
        } else {
            lemma_partial_rounds_witness_last(x2, 14);
            assert(row[454 + i] == (head + w1 + w2)[454 + i]);
            assert(row[454 + i] == w2[250 + i]);
            assert(w2.subrange(250, 266)[i] == w2[250 + i]);
            assert(e[i] == st[i]);
        }
    }
}

/// The witnesses of the first `m` of `n` full rounds are the first values of
/// the witnesses of all `n`.
proof fn lemma_full_rounds_witness_prefix(s: Seq<M31>, first: int, m: nat, n: nat)
    requires
        s.len() == 16,
        m <= n,
    ensures
        full_rounds_witness(s, first, n).subrange(0, (48 * m) as int) == full_rounds_witness(s, first, m),
    decreases n,
{
    lemma_full_rounds_witness_len(s, first, n);
    lemma_full_rounds_witness_len(s, first, m);
    if m < n {
        lemma_full_rounds_witness_prefix(s, first, m, (n - 1) as nat);
        lemma_full_rounds_witness_len(s, first, (n - 1) as nat);
        let prev = full_rounds_witness(s, first, (n - 1) as nat);
        let last = full_round_witness(full_rounds(m31_ops(), s, first, (n - 1) as nat), first + n - 1);
        assert((prev + last).subrange(0, (48 * m) as int) =~= prev.subrange(0, (48 * m) as int));
    } else {
        assert(full_rounds_witness(s, first, n).subrange(0, (48 * m) as int) =~= full_rounds_witness(s, first, m));
    }
}

/// Whenever the constraints of the component hold on a row of canonical
/// values, each full round keeps the square and the fourth power of each
/// element's S-box input, as in `lemma_trace_row_full_round_columns`.
pub proof fn lemma_constraints_force_full_round_columns(row: Seq<M31>, r: int, i: int)
    requires
        row.len() == N_TRACE_COLUMNS,
        canonical_row(row),
        all_zero(constraint_values(row)),
        0 <= r < 8,
        0 <= i < 16,
    ensures
        ({
            let e = if r == 0 {
                external(
                    m31_ops(),
                    seq![row[0], row[4], row[1], row[2], row[3], row[5], row[6], row[7], M31(0), M31(0), M31(0), M31(0), M31(0), M31(0), M31(0), M31(0)],
                )
            } else {
                row.subrange(full_round_base(r) - 16, full_round_base(r))
            };
            full_round_sbox_column(row, e, r, i)
        }),
{
    lemma_constraints_hold_iff_trace_row(row);
    let in0 = row.subrange(0, 4);
    let in1 = row.subrange(4, 8);
    lemma_trace_row_full_round_columns(in0, in1, r, i);
    assert(seq![in0[0], in1[0], in0[1], in0[2], in0[3], in1[1], in1[2], in1[3], M31(0), M31(0), M31(0), M31(0), M31(0), M31(0), M31(0), M31(0)]
        =~= seq![row[0], row[4], row[1], row[2], row[3], row[5], row[6], row[7], M31(0), M31(0), M31(0), M31(0), M31(0), M31(0), M31(0), M31(0)]);
}

} // verus!
