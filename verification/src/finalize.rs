//! Finishing a circuit: a hash of its constants becomes an output, and each
//! component is padded to a power-of-two number of rows, at least `N_LANES`.
use crate::circuit::poseidon_gate_output;
use crate::context::{lemma_extends_trans, Context, Var};
use crate::circuit::Add;
use crate::field::{embed, qm31_from_u32s, M31, QM31};
use crate::poseidon2::poseidon_gate;
use rand_chacha::rand_core::{Rng, SeedableRng};
use rand_chacha::ChaCha20Rng;
use crate::field::spec_qm31_from_u32s;
use vstd::prelude::*;

verus! {

/// Rows that the prover handles at once; the least size of a component.
pub const N_LANES: usize = 16;

/// `p` is `2^k` for some `k`.
pub open spec fn is_power_of_two(p: nat) -> bool
    decreases p,
{
    if p == 0 {
        false
    } else if p == 1 {
        true
    } else {
        p % 2 == 0 && is_power_of_two(p / 2)
    }
}

/// `2^k`.
pub open spec fn pow2(k: nat) -> nat
    decreases k,
{
    if k == 0 {
        1
    } else {
        2 * pow2((k - 1) as nat)
    }
}

/// Of two powers of two, the smaller is at most half the larger.
proof fn lemma_smaller_power_of_two(p: nat, n: nat)
    requires
        is_power_of_two(p),
        is_power_of_two(n),
        p < n,
    ensures
        2 * p <= n,
    decreases p,
{
    if p > 1 {
        lemma_smaller_power_of_two(p / 2, n / 2);
    }
}

proof fn lemma_pow2_is_power_of_two(k: nat)
    ensures
        is_power_of_two(pow2(k)),
    decreases k,
{
    if k > 0 {
        lemma_pow2_is_power_of_two((k - 1) as nat);
        assert(pow2(k) / 2 == pow2((k - 1) as nat));
    }
}

proof fn lemma_pow2_monotone(a: nat, b: nat)
    requires
        a <= b,
    ensures
        pow2(a) <= pow2(b),
    decreases b,
{
    if a < b {
        lemma_pow2_monotone(a, (b - 1) as nat);
    }
}

proof fn lemma_pow2_64()
    ensures
        pow2(64) == 0x1_0000_0000_0000_0000,
{
    reveal_with_fuel(pow2, 65);
}

/// `n.ilog2()` for a power of two `n`: the `k` with `2^k = n`.
pub fn log2_of_power_of_two(n: usize) -> (r: u32)
    requires
        is_power_of_two(n as nat),
    ensures
        pow2(r as nat) == n,
{
    let mut p: usize = 1;
    let mut l: u32 = 0;
    while p < n
        invariant
            is_power_of_two(n as nat),
            p as nat == pow2(l as nat),
            p <= n,
            l < 64,
        decreases n - p,
    {
        proof {
            lemma_pow2_64();
            if l + 1 >= 64 {
                lemma_pow2_monotone(64, (l + 1) as nat);
            }
            lemma_pow2_is_power_of_two(l as nat);
            lemma_smaller_power_of_two(p as nat, n as nat);
        }
        p = 2 * p;
        l = l + 1;
    }
    l
}

/// The least power of two that is at least `n`.
pub open spec fn spec_next_power_of_two(n: nat) -> nat
    decreases n,
{
    if n <= 1 {
        1
    } else {
        2 * spec_next_power_of_two(((n + 1) / 2) as nat)
    }
}

/// The number of rows a component of `n` rows is padded to.
pub open spec fn padded_size(n: nat) -> nat {
    if spec_next_power_of_two(n) < N_LANES {
        N_LANES as nat
    } else {
        spec_next_power_of_two(n)
    }
}

proof fn lemma_next_power_of_two(n: nat)
    ensures
        is_power_of_two(spec_next_power_of_two(n)),
        n <= spec_next_power_of_two(n),
        spec_next_power_of_two(n) == 1 || spec_next_power_of_two(n) / 2 < n,
    decreases n,
{
    if n > 1 {
        lemma_next_power_of_two(((n + 1) / 2) as nat);
        let q = spec_next_power_of_two(((n + 1) / 2) as nat);
        assert((2 * q) / 2 == q);
    }
}

/// A component of `n` rows is padded to the least power of two that is at
/// least `n` and at least 16.
pub proof fn lemma_padded_size(n: nat)
    ensures
        is_power_of_two(padded_size(n)),
        n <= padded_size(n),
        N_LANES <= padded_size(n),
        padded_size(n) == N_LANES || padded_size(n) / 2 < n,
{
    lemma_next_power_of_two(n);
    assert(is_power_of_two(16)) by {
        reveal_with_fuel(is_power_of_two, 5);
    }
}

/// `n.next_power_of_two()`: the least power of two that is at least `n`.
pub fn next_power_of_two(n: usize) -> (r: usize)
    requires
        n <= usize::MAX / 2,
    ensures
        r == spec_next_power_of_two(n as nat),
        is_power_of_two(r as nat),
        n <= r,
    decreases n,
{
    proof {
        lemma_next_power_of_two(n as nat);
    }
    if n <= 1 {
        1
    } else {
        let q = next_power_of_two((n - 1) / 2 + 1);
        assert((n as nat + 1) / 2 == (n - 1) / 2 + 1);
        2 * q
    }
}

fn padded_count(n: usize) -> (r: usize)
    requires
        n <= usize::MAX / 2,
    ensures
        r == padded_size(n as nat),
{
    let p = next_power_of_two(n);
    if p < N_LANES {
        N_LANES
    } else {
        p
    }
}

/// The equality gates from index `from` on compare a variable holding zero
/// with itself.
pub open spec fn eq_gates_on_zero(c: &Context, from: int) -> bool {
    forall|l: int|
        0 <= l && from <= l < c.circuit.eq@.len() ==> {
            let g = #[trigger] c.circuit.eq@[l];
            g.in0 == g.in1 && c.values@[g.in0 as int] == embed(M31(0))
        }
}

/// The addition gates from index `from` on add a variable holding zero to
/// itself.
pub open spec fn add_gates_on_zero(c: &Context, from: int) -> bool {
    forall|l: int|
        0 <= l && from <= l < c.circuit.add@.len() ==> {
            let g = #[trigger] c.circuit.add@[l];
            g.in0 == g.in1 && c.values@[g.in0 as int] == embed(M31(0))
        }
}

/// The Poseidon gates from index `from` on hash a variable holding zero with
/// itself.
pub open spec fn poseidon_gates_on_zero(c: &Context, from: int) -> bool {
    forall|l: int|
        0 <= l && from <= l < c.circuit.poseidon@.len() ==> {
            let g = #[trigger] c.circuit.poseidon@[l];
            g.in0 == g.in1 && c.values@[g.in0 as int] == embed(M31(0))
        }
}

/// Growing a context keeps the padding gates of a list it leaves as it is.
proof fn lemma_on_zero_preserved(new: &Context, old: &Context, from: int)
    requires
        old.wf(),
        new.extends(old),
    ensures
        new.circuit.eq@ == old.circuit.eq@ && eq_gates_on_zero(old, from) ==> eq_gates_on_zero(new, from),
        new.circuit.add@ == old.circuit.add@ && add_gates_on_zero(old, from) ==> add_gates_on_zero(new, from),
        new.circuit.poseidon@ == old.circuit.poseidon@ && poseidon_gates_on_zero(old, from)
            ==> poseidon_gates_on_zero(new, from),
{
    if new.circuit.eq@ == old.circuit.eq@ && eq_gates_on_zero(old, from) {
        assert forall|l: int| 0 <= l && from <= l < new.circuit.eq@.len() implies {
            let g = #[trigger] new.circuit.eq@[l];
            g.in0 == g.in1 && new.values@[g.in0 as int] == embed(M31(0))
        } by {
            let g = old.circuit.eq@[l];
            assert(old.values@[g.in0 as int] == new.values@[g.in0 as int]);
        }
    }
    if new.circuit.add@ == old.circuit.add@ && add_gates_on_zero(old, from) {
        assert forall|l: int| 0 <= l && from <= l < new.circuit.add@.len() implies {
            let g = #[trigger] new.circuit.add@[l];
            g.in0 == g.in1 && new.values@[g.in0 as int] == embed(M31(0))
        } by {
            let g = old.circuit.add@[l];
            assert(old.values@[g.in0 as int] == new.values@[g.in0 as int]);
        }
    }
    if new.circuit.poseidon@ == old.circuit.poseidon@ && poseidon_gates_on_zero(old, from) {
        assert forall|l: int| 0 <= l && from <= l < new.circuit.poseidon@.len() implies {
            let g = #[trigger] new.circuit.poseidon@[l];
            g.in0 == g.in1 && new.values@[g.in0 as int] == embed(M31(0))
        } by {
            let g = old.circuit.poseidon@[l];
            assert(old.values@[g.in0 as int] == new.values@[g.in0 as int]);
        }
    }
}

/// Pads the computing gates (add, sub, mul) with `0 + 0` gates to
/// `padded_size` of their number.
fn pad_qm31_ops(context: &mut Context)
    requires
        old(context).wf(),
        old(context).circuit.add@.len() + old(context).circuit.sub@.len() + old(context).circuit.mul@.len()
            <= usize::MAX / 2,
    ensures
        old(context).yields_once() ==> final(context).yields_once(),
        final(context).wf(),
        final(context).extends(old(context)),
        final(context).circuit.add@.len() + final(context).circuit.sub@.len() + final(context).circuit.mul@.len()
            == padded_size(
            (old(context).circuit.add@.len() + old(context).circuit.sub@.len() + old(context).circuit.mul@.len()) as nat,
        ),
        add_gates_on_zero(final(context), old(context).circuit.add@.len() as int),
        final(context).guessed@ == old(context).guessed@,
        final(context).circuit.sub@ == old(context).circuit.sub@,
        final(context).circuit.mul@ == old(context).circuit.mul@,
        final(context).circuit.eq@ == old(context).circuit.eq@,
        final(context).circuit.poseidon@ == old(context).circuit.poseidon@,
        final(context).circuit.output@ == old(context).circuit.output@,
{
    let qm31_ops_n_rows = context.circuit.add.len() + context.circuit.sub.len() + context.circuit.mul.len();
    let target = padded_count(qm31_ops_n_rows);
    proof {
        lemma_padded_size(qm31_ops_n_rows as nat);
    }
    let qm31_padding = target - qm31_ops_n_rows;
    let zero = context.zero();
    for k in 0..qm31_padding
        invariant
            old(context).yields_once() ==> context.yields_once(),
            context.wf(),
            context.extends(old(context)),
            context.has(zero),
            context.val(zero) == embed(M31(0)),
            context.circuit.add@.len() == old(context).circuit.add@.len() + k,
            add_gates_on_zero(context, old(context).circuit.add@.len() as int),
            forall|l: int|
                old(context).circuit.add@.len() <= l < context.circuit.add@.len() ==> (#[trigger] context.circuit.add@[l]).in0
                    == zero.idx,
            context.guessed@ == old(context).guessed@,
            context.circuit.sub@ == old(context).circuit.sub@,
            context.circuit.mul@ == old(context).circuit.mul@,
            context.circuit.eq@ == old(context).circuit.eq@,
            context.circuit.poseidon@ == old(context).circuit.poseidon@,
            context.circuit.output@ == old(context).circuit.output@,
    {
        crate::ops::add(context, zero, zero);
    }
}

/// Pads the equality gates with `0 = 0` to `padded_size` of their number.
fn pad_eq(context: &mut Context)
    requires
        old(context).wf(),
        old(context).circuit.eq@.len() <= usize::MAX / 2,
    ensures
        old(context).yields_once() ==> final(context).yields_once(),
        final(context).wf(),
        final(context).extends(old(context)),
        final(context).circuit.eq@.len() == padded_size(old(context).circuit.eq@.len() as nat),
        final(context).circuit.eq_holds(final(context).values@) == old(context).circuit.eq_holds(
            old(context).values@,
        ),
        eq_gates_on_zero(final(context), old(context).circuit.eq@.len() as int),
        final(context).guessed@ == old(context).guessed@,
        final(context).circuit.add@ == old(context).circuit.add@,
        final(context).circuit.sub@ == old(context).circuit.sub@,
        final(context).circuit.mul@ == old(context).circuit.mul@,
        final(context).circuit.poseidon@ == old(context).circuit.poseidon@,
        final(context).circuit.output@ == old(context).circuit.output@,
{
    let eq_n_rows = context.circuit.eq.len();
    let target = padded_count(eq_n_rows);
    proof {
        lemma_padded_size(eq_n_rows as nat);
    }
    let eq_padding = target - eq_n_rows;
    let zero = context.zero();
    proof {
        crate::context::lemma_eq_holds_preserved(context, old(context));
    }
    let ghost c0 = *context;
    for k in 0..eq_padding
        invariant
            old(context).yields_once() ==> context.yields_once(),
            context.wf(),
            context.extends(old(context)),
            context.extends(&c0),
            c0.wf(),
            c0.circuit.eq@ == old(context).circuit.eq@,
            c0.circuit.eq_holds(c0.values@) == old(context).circuit.eq_holds(old(context).values@),
            context.has(zero),
            context.val(zero) == embed(M31(0)),
            context.circuit.eq@.len() == old(context).circuit.eq@.len() + k,
            forall|l: int|
                old(context).circuit.eq@.len() <= l < context.circuit.eq@.len() ==> (#[trigger] context.circuit.eq@[l]).in0
                    == zero.idx && context.circuit.eq@[l].in1 == zero.idx,
            context.values@ == c0.values@,
            context.guessed@ == old(context).guessed@,
            context.circuit.add@ == old(context).circuit.add@,
            context.circuit.sub@ == old(context).circuit.sub@,
            context.circuit.mul@ == old(context).circuit.mul@,
            context.circuit.poseidon@ == old(context).circuit.poseidon@,
            context.circuit.output@ == old(context).circuit.output@,
    {
        crate::ops::eq(context, zero, zero);
    }
    proof {
        let n0 = old(context).circuit.eq@.len();
        if c0.circuit.eq_holds(c0.values@) {
            assert forall|k: int| 0 <= k < context.circuit.eq@.len() implies {
                let g = #[trigger] context.circuit.eq@[k];
                context.values@[g.in0 as int] == context.values@[g.in1 as int]
            } by {
                if k < n0 {
                    assert(context.circuit.eq@[k] == c0.circuit.eq@[k]);
                }
            }
        }
        if context.circuit.eq_holds(context.values@) {
            assert forall|k: int| 0 <= k < c0.circuit.eq@.len() implies {
                let g = #[trigger] c0.circuit.eq@[k];
                c0.values@[g.in0 as int] == c0.values@[g.in1 as int]
            } by {
                assert(context.circuit.eq@[k] == c0.circuit.eq@[k]);
            }
        }
    }
}

/// Pads the Poseidon gates with `poseidon(0, 0)` gates to `padded_size` of
/// their number.
fn pad_poseidon(context: &mut Context)
    requires
        old(context).wf(),
        old(context).circuit.poseidon@.len() <= usize::MAX / 2,
    ensures
        old(context).yields_once() ==> final(context).yields_once(),
        final(context).wf(),
        final(context).extends(old(context)),
        final(context).circuit.poseidon@.len() == padded_size(old(context).circuit.poseidon@.len() as nat),
        poseidon_gates_on_zero(final(context), old(context).circuit.poseidon@.len() as int),
        final(context).guessed@ == old(context).guessed@,
        final(context).circuit.add@ == old(context).circuit.add@,
        final(context).circuit.sub@ == old(context).circuit.sub@,
        final(context).circuit.mul@ == old(context).circuit.mul@,
        final(context).circuit.eq@ == old(context).circuit.eq@,
        final(context).circuit.output@ == old(context).circuit.output@,
{
    let n = context.circuit.poseidon.len();
    let padded = padded_count(n);
    proof {
        lemma_padded_size(n as nat);
    }
    let zero = context.zero();
    for k in n..padded
        invariant
            old(context).yields_once() ==> context.yields_once(),
            context.wf(),
            context.extends(old(context)),
            context.has(zero),
            context.val(zero) == embed(M31(0)),
            context.circuit.poseidon@.len() == k,
            n == old(context).circuit.poseidon@.len(),
            poseidon_gates_on_zero(context, n as int),
            forall|l: int| n <= l < context.circuit.poseidon@.len() ==> (#[trigger] context.circuit.poseidon@[l]).in0
                == zero.idx,
            context.guessed@ == old(context).guessed@,
            context.circuit.add@ == old(context).circuit.add@,
            context.circuit.sub@ == old(context).circuit.sub@,
            context.circuit.mul@ == old(context).circuit.mul@,
            context.circuit.eq@ == old(context).circuit.eq@,
            context.circuit.output@ == old(context).circuit.output@,
    {
        poseidon_gate(context, zero, zero);
    }
}

/// The chained hash of the first `n` values: `h = poseidon(c[0], c[1])`, then
/// `h = poseidon(h, c[i])` for each further value; a single value is hashed
/// with zero.
pub open spec fn hash_chain(cs: Seq<QM31>, n: nat) -> QM31
    decreases n,
{
    if n <= 2 {
        poseidon_gate_output(cs[0], if n == 2 { cs[1] } else { embed(M31(0)) })
    } else {
        poseidon_gate_output(hash_chain(cs, (n - 1) as nat), cs[n - 1])
    }
}

/// The hash of the constants' values `cs` that becomes an output: the chained
/// hash, or `poseidon(0, 0)` when there are none.
pub open spec fn constants_hash(cs: Seq<QM31>) -> QM31 {
    if cs.len() == 0 {
        poseidon_gate_output(embed(M31(0)), embed(M31(0)))
    } else {
        hash_chain(cs, cs.len())
    }
}

/// The chained hash of a prefix of the values depends on that prefix alone.
proof fn lemma_hash_chain_prefix(cs: Seq<QM31>, ds: Seq<QM31>, n: nat)
    requires
        1 <= n <= cs.len(),
        n <= ds.len(),
        forall|k: int| 0 <= k < n ==> #[trigger] cs[k] == ds[k],
    ensures
        hash_chain(cs, n) == hash_chain(ds, n),
    decreases n,
{
    if n > 2 {
        lemma_hash_chain_prefix(cs, ds, (n - 1) as nat);
        assert(cs[n - 1] == ds[n - 1]);
    } else {
        assert(cs[0] == ds[0]);
        if n == 2 {
            assert(cs[1] == ds[1]);
        }
    }
}

/// Hashing an empty list gives `poseidon(0, 0)`, a single value `c0` gives
/// `poseidon(c0, 0)`, and a pair gives `poseidon(c0, c1)`.
pub proof fn lemma_constants_hash_of_few(c0: QM31, c1: QM31)
    ensures
        constants_hash(Seq::empty()) == poseidon_gate_output(embed(M31(0)), embed(M31(0))),
        constants_hash(seq![c0]) == poseidon_gate_output(c0, embed(M31(0))),
        constants_hash(seq![c0, c1]) == poseidon_gate_output(c0, c1),
{
}

/// One more constant after at least two: the hash becomes the Poseidon gate
/// of the hash of the constants before it (first input) and the new
/// constant (second input).
pub proof fn lemma_constants_hash_push(cs: Seq<QM31>, c: QM31)
    requires
        cs.len() >= 2,
    ensures
        constants_hash(cs.push(c)) == poseidon_gate_output(constants_hash(cs), c),
{
    let n = cs.len();
    lemma_hash_chain_prefix(cs.push(c), cs, n);
    assert(cs.push(c)[n as int] == c);
}

/// For three constants the hash is `poseidon(poseidon(c0, c1), c2)`.
pub proof fn lemma_constants_hash_of_three(c0: QM31, c1: QM31, c2: QM31)
    ensures
        constants_hash(seq![c0, c1, c2]) == poseidon_gate_output(poseidon_gate_output(c0, c1), c2),
{
    lemma_constants_hash_of_few(c0, c1);
    lemma_constants_hash_push(seq![c0, c1], c2);
    assert(seq![c0, c1].push(c2) =~= seq![c0, c1, c2]);
}

/// The values of the constants, in their order.
pub open spec fn constant_values(c: &Context) -> Seq<QM31> {
    c.circuit.constants@.map_values(|k: (QM31, usize)| k.0)
}

/// Number of Poseidon gates that hashing `n` constants takes.
pub open spec fn n_hash_gates(n: nat) -> nat {
    if n <= 2 {
        1
    } else {
        (n - 1) as nat
    }
}

/// Hashes the values of the constants with Poseidon gates (`constants_hash`).
fn hash_constants(context: &mut Context) -> (r: Var)
    requires
        old(context).wf(),
    ensures
        old(context).yields_once() ==> final(context).yields_once(),
        final(context).wf(),
        final(context).extends(old(context)),
        final(context).has(r),
        final(context).val(r) == constants_hash(constant_values(old(context))),
        final(context).circuit.poseidon@.len() == old(context).circuit.poseidon@.len() + n_hash_gates(
            old(context).circuit.constants@.len() as nat,
        ),
        final(context).guessed@ == old(context).guessed@,
        final(context).circuit.add@ == old(context).circuit.add@,
        final(context).circuit.sub@ == old(context).circuit.sub@,
        final(context).circuit.mul@ == old(context).circuit.mul@,
        final(context).circuit.eq@ == old(context).circuit.eq@,
        final(context).circuit.output@ == old(context).circuit.output@,
        forall|d: Context, v: Seq<QM31>|
            #![trigger d.extends(final(context)), d.computes(v)]
            d.extends(final(context)) && d.computes(v) ==> v[r.idx as int] == constants_hash(
                constant_values(old(context)),
            ),
{
    let ghost cs = constant_values(context);
    let n = context.circuit.constants.len();
    let mut constants: Vec<Var> = Vec::new();
    for k in 0..n
        invariant
            context.wf(),
            *context == *old(context),
            n == context.circuit.constants@.len(),
            cs == constant_values(old(context)),
            constants@.len() == k,
            forall|l: int| 0 <= l < k ==> #[trigger] constants@[l] == (Var { idx: context.circuit.constants@[l].1 }),
    {
        constants.push(Var { idx: context.circuit.constants[k].1 });
    }
    assert forall|l: int| 0 <= l < n implies context.has(#[trigger] constants@[l]) && context.val(constants@[l])
        == cs[l] by {
        assert(constants@[l] == (Var { idx: context.circuit.constants@[l].1 }));
    }
    let zero = context.zero();
    let ghost cz = *context;
    assert forall|d: Context, v: Seq<QM31>, l: int|
        #![trigger d.extends(&cz), d.computes(v), constants@[l]]
        d.extends(&cz) && d.computes(v) && 0 <= l < n implies v[constants@[l].idx as int] == cs[l] by {
        assert(constants@[l] == (Var { idx: old(context).circuit.constants@[l].1 }));
        assert(d.circuit.constants@[l] == cz.circuit.constants@[l]);
        assert(cz.circuit.constants@[l] == old(context).circuit.constants@[l]);
    }
    if n == 0 {
        let r = poseidon_gate(context, zero, zero);
        assert forall|d: Context, v: Seq<QM31>| d.extends(context) && d.computes(v) implies v[r.idx as int]
            == constants_hash(cs) by {
            lemma_extends_trans(&d, &*context, &cz);
        }
        return r;
    }
    let first = constants[0];
    let second = if n > 1 {
        constants[1]
    } else {
        zero
    };
    let mut state = poseidon_gate(context, first, second);
    assert forall|d: Context, v: Seq<QM31>| d.extends(context) && d.computes(v) implies v[state.idx as int]
        == hash_chain(cs, if n >= 2 { 2 } else { 1 }) by {
        lemma_extends_trans(&d, &*context, &cz);
        assert(v[first.idx as int] == cs[0]);
        if n > 1 {
            assert(v[second.idx as int] == cs[1]);
        }
    }
    if n > 2 {
        let ghost c1 = *context;
        proof {
            lemma_extends_trans(&*context, &c1, &cz);
        }
        for i in 2..n
            invariant
                old(context).yields_once() ==> context.yields_once(),
                context.extends(&cz),
                forall|d: Context, v: Seq<QM31>, l: int|
                    #![trigger d.extends(&cz), d.computes(v), constants@[l]]
                    d.extends(&cz) && d.computes(v) && 0 <= l < n ==> v[constants@[l].idx as int] == cs[l],
                forall|d: Context, v: Seq<QM31>|
                    #![trigger d.extends(&*context), d.computes(v)]
                    d.extends(&*context) && d.computes(v) ==> v[state.idx as int] == hash_chain(cs, i as nat),
                2 <= n,
                context.wf(),
                context.extends(old(context)),
                context.extends(&c1),
                n == cs.len(),
                constants@.len() == n,
                forall|l: int| 0 <= l < n ==> context.has(#[trigger] constants@[l]) && context.val(constants@[l]) == cs[l],
                context.has(state),
                context.val(state) == hash_chain(cs, i as nat),
                context.circuit.poseidon@.len() == old(context).circuit.poseidon@.len() + i - 1,
                context.guessed@ == old(context).guessed@,
                context.circuit.add@ == old(context).circuit.add@,
                context.circuit.sub@ == old(context).circuit.sub@,
                context.circuit.mul@ == old(context).circuit.mul@,
                context.circuit.eq@ == old(context).circuit.eq@,
                context.circuit.output@ == old(context).circuit.output@,
        {
            let ghost cp = *context;
            let ghost sp = state;
            state = poseidon_gate(context, state, constants[i]);
            proof {
                lemma_extends_trans(&*context, &cp, &cz);
            }
            assert forall|d: Context, v: Seq<QM31>| d.extends(context) && d.computes(v) implies v[state.idx as int]
                == hash_chain(cs, (i + 1) as nat) by {
                lemma_extends_trans(&d, &*context, &cp);
                lemma_extends_trans(&d, &cp, &cz);
                assert(v[sp.idx as int] == hash_chain(cs, i as nat));
                assert(v[constants@[i as int].idx as int] == cs[i as int]);
            }
        }
    }
    assert forall|d: Context, v: Seq<QM31>| d.extends(context) && d.computes(v) implies v[state.idx as int]
        == constants_hash(cs) by {
        if n <= 2 {
            assert(v[state.idx as int] == hash_chain(cs, if n >= 2 { 2 } else { 1 }));
        }
    }
    state
}

/// Finishes the circuit: the hash of its constants becomes a new output, and
/// the equality gates, the computing gates and the Poseidon gates are each
/// padded to `padded_size` of their number. The padding gates hold whatever
/// the values, so the circuit is valid exactly when it was before. The new
/// output is the last of a chain of Poseidon gates over the constants, so
/// every assignment under which the constants and computing gates hold gives
/// it the hash of the constants.
pub fn finalize_context(context: &mut Context)
    requires
        old(context).wf(),
        old(context).circuit.add@.len() + old(context).circuit.sub@.len() + old(context).circuit.mul@.len()
            <= usize::MAX / 2,
        old(context).circuit.eq@.len() <= usize::MAX / 2,
        old(context).circuit.poseidon@.len() + old(context).circuit.constants@.len() < usize::MAX / 2,
    ensures
        old(context).yields_once() ==> final(context).yields_once(),
        old(context).yields_once() && old(context).guessed@.len() == 0 ==> final(context).circuit.yields_each_var_once(),
        final(context).wf(),
        final(context).extends(old(context)),
        final(context).is_valid() == old(context).is_valid(),
        final(context).circuit.output@.len() == old(context).circuit.output@.len() + 1,
        final(context).values@[final(context).circuit.output@[old(context).circuit.output@.len() as int].in0 as int]
            == constants_hash(constant_values(old(context))),
        final(context).circuit.eq@.len() == padded_size(old(context).circuit.eq@.len() as nat),
        final(context).circuit.add@.len() + final(context).circuit.sub@.len() + final(context).circuit.mul@.len()
            == padded_size(
            (old(context).circuit.add@.len() + old(context).circuit.sub@.len() + old(context).circuit.mul@.len()) as nat,
        ),
        final(context).circuit.sub@ == old(context).circuit.sub@,
        final(context).circuit.mul@ == old(context).circuit.mul@,
        final(context).circuit.poseidon@.len() == padded_size(
            old(context).circuit.poseidon@.len() + n_hash_gates(old(context).circuit.constants@.len() as nat),
        ),
        eq_gates_on_zero(final(context), old(context).circuit.eq@.len() as int),
        add_gates_on_zero(final(context), old(context).circuit.add@.len() as int),
        poseidon_gates_on_zero(
            final(context),
            (old(context).circuit.poseidon@.len() + n_hash_gates(old(context).circuit.constants@.len() as nat)) as int,
        ),
        final(context).guessed@ == old(context).guessed@,
        forall|v: Seq<QM31>|
            #[trigger] final(context).computes(v) ==> v[final(context).circuit.output@[old(
                context,
            ).circuit.output@.len() as int].in0 as int] == constants_hash(constant_values(old(context))),
{
    let hash = hash_constants(context);
    let ghost c0 = *context;
    crate::ops::output(context, hash);
    let ghost c1 = *context;
    proof {
        crate::context::lemma_eq_holds_preserved(context, old(context));
    }

    // Padding the components to a power of two.
    pad_eq(context);
    let ghost c2 = *context;
    pad_qm31_ops(context);
    proof {
        crate::context::lemma_eq_holds_preserved(context, &c2);
    }
    let ghost c3 = *context;
    pad_poseidon(context);
    proof {
        lemma_on_zero_preserved(&c3, &c2, old(context).circuit.eq@.len() as int);
        lemma_on_zero_preserved(context, &c3, old(context).circuit.eq@.len() as int);
        lemma_on_zero_preserved(context, &c3, old(context).circuit.add@.len() as int);
        crate::context::lemma_eq_holds_preserved(context, &c3);
        crate::context::lemma_valid_iff_eq_holds(context);
        crate::context::lemma_valid_iff_eq_holds(old(context));
        assert(context.circuit.output@[old(context).circuit.output@.len() as int] == c1.circuit.output@[old(
            context,
        ).circuit.output@.len() as int]);
    }
    proof {
        if old(context).yields_once() && old(context).guessed@.len() == 0 {
            crate::context::lemma_yields_once_each(context);
        }
    }
    assert forall|v: Seq<QM31>| #[trigger] context.computes(v) implies v[context.circuit.output@[old(
        context,
    ).circuit.output@.len() as int].in0 as int] == constants_hash(constant_values(old(context))) by {
        let d = *context;
        crate::context::lemma_extends_refl(&d);
        lemma_extends_trans(&d, &*context, &c3);
        lemma_extends_trans(&d, &c3, &c2);
        lemma_extends_trans(&d, &c2, &c1);
        lemma_extends_trans(&d, &c1, &c0);
        assert(v[hash.idx as int] == constants_hash(constant_values(old(context))));
    }
}

/// Word `pos` of the ChaCha20 stream keyed by `seed` (stream number 0).
pub uninterp spec fn chacha20_word(seed: Seq<u8>, pos: nat) -> u32;

/// `ChaCha20Rng::from_seed(seed)`, moved by `set_word_pos` to word `pos` of
/// its stream, then `Rng::next_u32`: word `pos` of the ChaCha20 stream keyed by
/// `seed`, which depends on `seed` and `pos` alone. A generator fresh from
/// `from_seed` gives the words at positions 0, 1, 2, ... in turn.
#[verifier::external_body]
fn chacha20_word_at(seed: [u8; 32], pos: u128) -> (r: u32)
    ensures
        r == chacha20_word(seed@, pos as nat),
{
    let mut rng = ChaCha20Rng::from_seed(seed);
    rng.set_word_pos(pos);
    rng.next_u32()
}

/// The value of blinding variable `t` (0, 1 or 2) of round `j`: the element
/// built from words `12 j + 4 t .. 12 j + 4 t + 4` of the ChaCha20 stream of
/// `seed`.
pub open spec fn blinding_value(seed: Seq<u8>, j: int, t: int) -> QM31 {
    let b = 12 * j + 4 * t;
    spec_qm31_from_u32s(
        chacha20_word(seed, b as nat),
        chacha20_word(seed, (b + 1) as nat),
        chacha20_word(seed, (b + 2) as nat),
        chacha20_word(seed, (b + 3) as nat),
    )
}

/// 1 when `c` has no zero constant yet, so that blinding adds one; else 0.
pub open spec fn zero_extra(c: &Context) -> int {
    if c.has_constant(embed(M31(0))) {
        0
    } else {
        1
    }
}

/// The first variable of round `j` of blinding, when the rounds start at
/// variable `var_base` and the first round also adds the zero constant
/// (`extra` is 1) or not (0).
pub open spec fn round_first(var_base: int, j: int, extra: int) -> int {
    var_base + 4 * j + if j > 0 {
        extra
    } else {
        0
    }
}

/// Round `j` of blinding, whose gates start at addition `add_base + 4 j` and
/// equality `eq_base + j`: three variables holding
/// `blinding_value(seed, j, 0 .. 3)` at `round_first(var_base, j, extra)`
/// and, after the zero constant in the first round when it is new, the two
/// next ones, each yielded by `v1 = v1 + 0`, `v2 = 0 + v2` or `v3 = v3 + 0`
/// with the zero constant; the sum `v1 + v2` right after `v2`; and the
/// equality `v3 = v3`.
pub open spec fn blinding_round(
    c: &Context,
    seed: Seq<u8>,
    var_base: int,
    add_base: int,
    eq_base: int,
    extra: int,
    j: int,
) -> bool {
    let a = c.circuit.add@;
    let g0 = a[add_base + 4 * j];
    let g1 = a[add_base + 4 * j + 1];
    let g2 = a[add_base + 4 * j + 2];
    let g3 = a[add_base + 4 * j + 3];
    let e = c.circuit.eq@[eq_base + j];
    let v = c.values@;
    let zero = embed(M31(0));
    &&& 0 <= add_base + 4 * j
    &&& add_base + 4 * j + 3 < a.len()
    &&& 0 <= eq_base + j < c.circuit.eq@.len()
    &&& g0.out == round_first(var_base, j, extra)
    &&& g1.out == round_first(var_base, j, extra) + 1 + (if j == 0 {
        extra
    } else {
        0
    })
    &&& g2.out == g1.out + 1 && g3.out == g1.out + 2
    &&& c.is_constant_var(g0.in1, zero) && g1.in0 == g0.in1 && g3.in1 == g0.in1
    &&& g0.in0 == g0.out && v[g0.in1 as int] == zero && v[g0.out as int] == blinding_value(seed, j, 0)
    &&& g1.in1 == g1.out && v[g1.in0 as int] == zero && v[g1.out as int] == blinding_value(seed, j, 1)
    &&& g2.in0 == g0.out && g2.in1 == g1.out
    &&& g3.in0 == g3.out && v[g3.in1 as int] == zero && v[g3.out as int] == blinding_value(seed, j, 2)
    &&& e.in0 == g3.out && e.in1 == g3.out
}

/// Growing a context keeps its blinding rounds.
proof fn lemma_blinding_round_preserved(
    new: &Context,
    old: &Context,
    seed: Seq<u8>,
    var_base: int,
    add_base: int,
    eq_base: int,
    extra: int,
    j: int,
)
    requires
        old.wf(),
        new.extends(old),
        blinding_round(old, seed, var_base, add_base, eq_base, extra, j),
    ensures
        blinding_round(new, seed, var_base, add_base, eq_base, extra, j),
{
    let a = old.circuit.add@;
    let i = add_base + 4 * j;
    assert(new.circuit.add@[i] == a[i]);
    assert(new.circuit.add@[i + 1] == a[i + 1]);
    assert(new.circuit.add@[i + 2] == a[i + 2]);
    assert(new.circuit.add@[i + 3] == a[i + 3]);
    assert(new.circuit.eq@[eq_base + j] == old.circuit.eq@[eq_base + j]);
    let n = old.values@.len();
    assert(a[i].in1 < n && a[i].out < n);
    assert(a[i + 1].in0 < n && a[i + 1].out < n);
    assert(a[i + 3].in1 < n && a[i + 3].out < n);
    assert(new.values@[a[i].in1 as int] == old.values@[a[i].in1 as int]);
    assert(new.values@[a[i].out as int] == old.values@[a[i].out as int]);
    assert(new.values@[a[i + 1].in0 as int] == old.values@[a[i + 1].in0 as int]);
    assert(new.values@[a[i + 1].out as int] == old.values@[a[i + 1].out as int]);
    assert(new.values@[a[i + 3].in1 as int] == old.values@[a[i + 3].in1 as int]);
    assert(new.values@[a[i + 3].out as int] == old.values@[a[i + 3].out as int]);
    let k = choose|k: int| 0 <= k < old.circuit.constants@.len() && #[trigger] old.circuit.constants@[k] == (embed(M31(0)), a[i].in1);
    assert(new.circuit.constants@[k] == old.circuit.constants@[k]);
}

/// A new variable holding the element built from words `pos .. pos + 4` of
/// the ChaCha20 stream of `seed`.
fn random_var(context: &mut Context, seed: [u8; 32], pos: u128) -> (r: Var)
    requires
        old(context).wf(),
        pos + 4 <= u128::MAX,
    ensures
        final(context).wf(),
        final(context).extends(old(context)),
        final(context).same_gates(old(context)),
        final(context).circuit.constants@ == old(context).circuit.constants@,
        final(context).guessed@ == old(context).guessed@,
        final(context).maybe_unused@ == old(context).maybe_unused@,
        final(context).values@ == old(context).values@.push(
            spec_qm31_from_u32s(
                chacha20_word(seed@, pos as nat),
                chacha20_word(seed@, (pos + 1) as nat),
                chacha20_word(seed@, (pos + 2) as nat),
                chacha20_word(seed@, (pos + 3) as nat),
            ),
        ),
        r.idx == old(context).values@.len(),
{
    let w0 = chacha20_word_at(seed, pos);
    let w1 = chacha20_word_at(seed, pos + 1);
    let w2 = chacha20_word_at(seed, pos + 2);
    let w3 = chacha20_word_at(seed, pos + 3);
    let value = qm31_from_u32s(w0, w1, w2, w3);
    context.new_var(value)
}

/// Round `k` of blinding (`blinding_round`), its gates placed after those of
/// the rounds before, whose first gates are at `ab` and `eb`.
fn add_blinding_round(
    context: &mut Context,
    seed_bytes: [u8; 32],
    k: usize,
    Ghost(vb): Ghost<int>,
    Ghost(ab): Ghost<int>,
    Ghost(eb): Ghost<int>,
    Ghost(extra): Ghost<int>,
)
    requires
        old(context).wf(),
        0 <= vb <= old(context).values@.len(),
        old(context).values@.len() == round_first(vb, k as int, extra),
        k == 0 ==> extra == if old(context).has_constant(embed(M31(0))) {
            0int
        } else {
            1int
        },
        k > 0 ==> old(context).has_constant(embed(M31(0))),
        old(context).circuit.add@.len() == ab + 4 * k,
        old(context).circuit.eq@.len() == eb + k,
    ensures
        final(context).maybe_unused@ == old(context).maybe_unused@,
        final(context).circuit.constants@ == if old(context).has_constant(embed(M31(0))) {
            old(context).circuit.constants@
        } else {
            old(context).circuit.constants@.push((embed(M31(0)), (old(context).values@.len() + 1) as usize))
        },
        final(context).wf(),
        final(context).extends(old(context)),
        final(context).circuit.eq_holds(final(context).values@) == old(context).circuit.eq_holds(
            old(context).values@,
        ),
        final(context).circuit.add@.len() == ab + 4 * k + 4,
        final(context).circuit.eq@.len() == eb + k + 1,
        blinding_round(final(context), seed_bytes@, vb, ab, eb, extra, k as int),
        final(context).has_constant(embed(M31(0))),
        final(context).values@.len() == old(context).values@.len() + 4 + if old(context).has_constant(
            embed(M31(0)),
        ) {
            0int
        } else {
            1int
        },
        final(context).circuit.sub@ == old(context).circuit.sub@,
        final(context).circuit.mul@ == old(context).circuit.mul@,
        final(context).circuit.poseidon@ == old(context).circuit.poseidon@,
        final(context).circuit.output@ == old(context).circuit.output@,
        final(context).guessed@ == old(context).guessed@,
{
    let ghost c0 = *old(context);
    let ghost z = embed(M31(0));
    let pos: u128 = 12 * (k as u128);
    let var1 = random_var(context, seed_bytes, pos);
    let ghost c1 = *context;
    assert(c1.has_constant(z) == c0.has_constant(z)) by {
        if c0.has_constant(z) {
            let i = choose|i: int| 0 <= i < c0.circuit.constants@.len() && #[trigger] c0.circuit.constants@[i].0 == z;
            assert(c1.circuit.constants@[i].0 == z);
        }
        if c1.has_constant(z) {
            let i = choose|i: int| 0 <= i < c1.circuit.constants@.len() && #[trigger] c1.circuit.constants@[i].0 == z;
            assert(c0.circuit.constants@[i].0 == z);
        }
    }
    let zero = context.zero();
    proof {
        crate::context::lemma_add_zero(context.val(var1));
    }
    let ghost c1z = *context;
    assert(context.values@.len() == c0.values@.len() + 1 + if c0.has_constant(z) {
        0int
    } else {
        1int
    });
    context.circuit.add.push(Add { in0: var1.idx, in1: zero.idx, out: var1.idx });
    let ghost ci = choose|i: int| 0 <= i < c1z.circuit.constants@.len() && #[trigger] c1z.circuit.constants@[i].0 == z;
    assert(context.circuit.constants@[ci].0 == z);

    let var2 = random_var(context, seed_bytes, pos + 4);
    assert(context.circuit.constants@[ci].0 == z);
    let zero2 = context.zero();
    proof {
        crate::context::lemma_add_zero(context.val(var2));
        crate::field::lemma_qm31_identities(context.val(var2), context.val(var2), context.val(var2));
        crate::field::lemma_qm31_add_comm(embed(M31(0)), context.val(var2));
    }
    context.circuit.add.push(Add { in0: zero2.idx, in1: var2.idx, out: var2.idx });
    let sum = crate::ops::add(context, var1, var2);

    let var3 = random_var(context, seed_bytes, pos + 8);
    assert(context.circuit.constants@[ci].0 == z);
    let zero3 = context.zero();
    proof {
        crate::context::lemma_add_zero(context.val(var3));
    }
    context.circuit.add.push(Add { in0: var3.idx, in1: zero3.idx, out: var3.idx });
    let ghost c2 = *context;
    crate::ops::eq(context, var3, var3);
    proof {
        crate::context::lemma_eq_holds_preserved(&c2, &c0);
        if c2.circuit.eq_holds(c2.values@) {
            assert forall|l: int| 0 <= l < context.circuit.eq@.len() implies {
                let g = #[trigger] context.circuit.eq@[l];
                context.values@[g.in0 as int] == context.values@[g.in1 as int]
            } by {
                if l < c2.circuit.eq@.len() {
                    assert(context.circuit.eq@[l] == c2.circuit.eq@[l]);
                }
            }
        }
        if context.circuit.eq_holds(context.values@) {
            assert forall|l: int| 0 <= l < c2.circuit.eq@.len() implies {
                let g = #[trigger] c2.circuit.eq@[l];
                c2.values@[g.in0 as int] == c2.values@[g.in1 as int]
            } by {
                assert(context.circuit.eq@[l] == c2.circuit.eq@[l]);
            }
        }
        let i0 = ab + 4 * k;
        assert(context.circuit.add@[i0] == (Add { in0: var1.idx, in1: zero.idx, out: var1.idx }));
        assert(context.circuit.add@[i0 + 1] == (Add { in0: zero2.idx, in1: var2.idx, out: var2.idx }));
        assert(context.circuit.add@[i0 + 2] == (Add { in0: var1.idx, in1: var2.idx, out: sum.idx }));
        assert(context.circuit.add@[i0 + 3] == (Add { in0: var3.idx, in1: zero3.idx, out: var3.idx }));
        assert(context.circuit.eq@[eb + k] == (crate::circuit::Eq { in0: var3.idx, in1: var3.idx }));
        assert(context.values@[var1.idx as int] == blinding_value(seed_bytes@, k as int, 0));
        assert(context.values@[var2.idx as int] == blinding_value(seed_bytes@, k as int, 1));
        assert(context.values@[var3.idx as int] == blinding_value(seed_bytes@, k as int, 2));
        assert(context.values@[zero.idx as int] == z);
        assert(context.values@[zero2.idx as int] == z);
        assert(context.values@[zero3.idx as int] == z);
        let kz = choose|i: int| 0 <= i < c1z.circuit.constants@.len() && #[trigger] c1z.circuit.constants@[i] == (z, zero.idx);
        assert(context.circuit.constants@[kz] == (z, zero.idx));
        assert(context.circuit.constants@[kz].1 == zero.idx);
        let k2 = choose|i: int| 0 <= i < context.circuit.constants@.len() && #[trigger] context.circuit.constants@[i] == (z, zero2.idx);
        let k3 = choose|i: int| 0 <= i < context.circuit.constants@.len() && #[trigger] context.circuit.constants@[i] == (z, zero3.idx);
        assert(context.circuit.constants@[k2].0 == context.circuit.constants@[kz].0);
        assert(context.circuit.constants@[k3].0 == context.circuit.constants@[kz].0);
        assert(k2 == kz);
        assert(k3 == kz);
        assert(var1.idx == c0.values@.len());
        assert(blinding_round(context, seed_bytes@, vb, ab, eb, extra, k as int));
    }
}

/// `new` is what blinding `old` with `n` rounds from the ChaCha20 stream of
/// `seed` makes: `old` grown by the gates and values of `blinding_round`
/// for each round, and the zero constant if `old` had none.
pub open spec fn blinding_result(old: &Context, new: &Context, seed: Seq<u8>, n: nat) -> bool {
    let vb = old.values@.len() as int;
    let ab = old.circuit.add@.len() as int;
    let eb = old.circuit.eq@.len() as int;
    &&& new.wf()
    &&& new.extends(old)
    &&& new.circuit.add@.len() == ab + 4 * n
    &&& new.circuit.eq@.len() == eb + n
    &&& forall|j: int| 0 <= j < n ==> #[trigger] blinding_round(new, seed, vb, ab, eb, zero_extra(old), j)
    &&& new.maybe_unused@ == old.maybe_unused@
    &&& new.circuit.constants@ == if n == 0 || old.has_constant(embed(M31(0))) {
        old.circuit.constants@
    } else {
        old.circuit.constants@.push((embed(M31(0)), (vb + 1) as usize))
    }
    &&& new.values@.len() == vb + 4 * n + if n > 0 && !old.has_constant(embed(M31(0))) {
        1int
    } else {
        0int
    }
    &&& new.circuit.sub@ == old.circuit.sub@
    &&& new.circuit.mul@ == old.circuit.mul@
    &&& new.circuit.poseidon@ == old.circuit.poseidon@
    &&& new.circuit.output@ == old.circuit.output@
    &&& new.guessed@ == old.guessed@
}

/// In a well-formed context, the variable that holds the constant `value`
/// is unique.
proof fn lemma_constant_var_unique(c: &Context, d: &Context, x: usize, y: usize, value: QM31)
    requires
        c.wf(),
        d.circuit.constants@ == c.circuit.constants@,
        c.is_constant_var(x, value),
        d.is_constant_var(y, value),
    ensures
        x == y,
{
    let k = choose|k: int| 0 <= k < c.circuit.constants@.len() && #[trigger] c.circuit.constants@[k] == (value, x);
    let l = choose|l: int| 0 <= l < d.circuit.constants@.len() && #[trigger] d.circuit.constants@[l] == (value, y);
    assert(c.circuit.constants@[l] == (value, y));
    if k != l {
        assert(c.circuit.constants@[k].0 == c.circuit.constants@[l].0);
    }
}

/// Round `j` of blinding added the same gates and values to `a` and `b`.
spec fn rounds_agree(a: &Context, b: &Context, ab: int, eb: int, j: int) -> bool {
    let i = ab + 4 * j;
    &&& a.circuit.add@[i] == b.circuit.add@[i]
    &&& a.circuit.add@[i + 1] == b.circuit.add@[i + 1]
    &&& a.circuit.add@[i + 2] == b.circuit.add@[i + 2]
    &&& a.circuit.add@[i + 3] == b.circuit.add@[i + 3]
    &&& a.circuit.eq@[eb + j] == b.circuit.eq@[eb + j]
    &&& a.values@[a.circuit.add@[i].out as int] == b.values@[a.circuit.add@[i].out as int]
    &&& a.values@[a.circuit.add@[i + 1].out as int] == b.values@[a.circuit.add@[i + 1].out as int]
    &&& a.values@[a.circuit.add@[i + 2].out as int] == b.values@[a.circuit.add@[i + 2].out as int]
    &&& a.values@[a.circuit.add@[i + 3].out as int] == b.values@[a.circuit.add@[i + 3].out as int]
}

/// Blinding is a function of the context, the seed and the number of rounds:
/// two blindings of the same context with the same seed and number of rounds
/// give the same context.
pub proof fn lemma_add_zk_blinding_deterministic(old: &Context, a: &Context, b: &Context, seed: Seq<u8>, n: nat)
    requires
        old.wf(),
        blinding_result(old, a, seed, n),
        blinding_result(old, b, seed, n),
    ensures
        a.values@ == b.values@,
        a.circuit.n_vars == b.circuit.n_vars,
        a.circuit.constants@ == b.circuit.constants@,
        a.circuit.add@ == b.circuit.add@,
        a.circuit.sub@ == b.circuit.sub@,
        a.circuit.mul@ == b.circuit.mul@,
        a.circuit.eq@ == b.circuit.eq@,
        a.circuit.poseidon@ == b.circuit.poseidon@,
        a.circuit.output@ == b.circuit.output@,
        a.guessed@ == b.guessed@,
        a.maybe_unused@ == b.maybe_unused@,
{
    let vb = old.values@.len() as int;
    let ab = old.circuit.add@.len() as int;
    let eb = old.circuit.eq@.len() as int;
    let e = zero_extra(old);
    let z = embed(M31(0));
    assert forall|j: int| 0 <= j < n implies #[trigger] rounds_agree(a, b, ab, eb, j) by {
        assert(blinding_round(a, seed, vb, ab, eb, e, j));
        assert(blinding_round(b, seed, vb, ab, eb, e, j));
        let i = ab + 4 * j;
        lemma_constant_var_unique(a, b, a.circuit.add@[i].in1, b.circuit.add@[i].in1, z);
        let g2 = a.circuit.add@[i + 2];
        assert(a.values@[g2.out as int] == crate::field::qm31_add(a.values@[g2.in0 as int], a.values@[g2.in1 as int]));
        assert(b.values@[g2.out as int] == crate::field::qm31_add(b.values@[g2.in0 as int], b.values@[g2.in1 as int]));
    }
    assert forall|i: int| 0 <= i < a.circuit.add@.len() implies a.circuit.add@[i] == b.circuit.add@[i] by {
        if i < ab {
            assert(a.circuit.add@[i] == old.circuit.add@[i]);
            assert(b.circuit.add@[i] == old.circuit.add@[i]);
        } else {
            let j = (i - ab) / 4;
            assert(ab + 4 * j <= i < ab + 4 * j + 4);
            assert(0 <= j < n);
            assert(rounds_agree(a, b, ab, eb, j));
        }
    }
    assert(a.circuit.add@ =~= b.circuit.add@);
    assert forall|i: int| 0 <= i < a.circuit.eq@.len() implies a.circuit.eq@[i] == b.circuit.eq@[i] by {
        if i < eb {
            assert(a.circuit.eq@[i] == old.circuit.eq@[i]);
            assert(b.circuit.eq@[i] == old.circuit.eq@[i]);
        } else {
            assert(0 <= i - eb < n);
            assert(rounds_agree(a, b, ab, eb, i - eb));
        }
    }
    assert(a.circuit.eq@ =~= b.circuit.eq@);
    assert forall|i: int| 0 <= i < a.values@.len() implies a.values@[i] == b.values@[i] by {
        if i < vb {
            assert(a.values@[i] == old.values@[i]);
            assert(b.values@[i] == old.values@[i]);
        } else {
            let u = i - vb;
            if e == 1 && u == 1 {
                let k = old.circuit.constants@.len() as int;
                assert(a.circuit.constants@[k] == (z, (vb + 1) as usize));
                assert(a.values@[a.circuit.constants@[k].1 as int] == a.circuit.constants@[k].0);
                assert(b.circuit.constants@[k] == (z, (vb + 1) as usize));
                assert(b.values@[b.circuit.constants@[k].1 as int] == b.circuit.constants@[k].0);
            } else if e == 1 && u == 0 {
                assert(blinding_round(a, seed, vb, ab, eb, e, 0));
                assert(rounds_agree(a, b, ab, eb, 0));
                assert(a.circuit.add@[ab].out == i);
            } else {
                let w = if e == 1 { u - 1 } else { u };
                let j = w / 4;
                let t = w % 4;
                assert(0 <= j < n);
                assert(blinding_round(a, seed, vb, ab, eb, e, j));
                assert(rounds_agree(a, b, ab, eb, j));
                if e == 1 && j == 0 {
                    assert(a.circuit.add@[ab + 4 * j + t].out == i);
                } else if t == 0 {
                    assert(a.circuit.add@[ab + 4 * j].out == i);
                } else {
                    assert(a.circuit.add@[ab + 4 * j + t].out == i);
                }
            }
        }
    }
    assert(a.values@ =~= b.values@);
}

/// Adds zero-knowledge blinding: `n_padding` rounds, round `j` adding three
/// variables whose values are words `12 j .. 12 j + 12` of the ChaCha20 stream
/// keyed by `seed_bytes` (`blinding_round`), each yielded by a gate
/// `v = v + 0` (or `v = 0 + v`), the sum of the first two as an addition gate,
/// and the equality `v3 = v3`. That is four new variables a round, and the
/// zero constant if the circuit had none. The new gates hold whatever the
/// values, so the circuit is valid exactly when it was before.
pub fn add_zk_blinding(context: &mut Context, seed_bytes: [u8; 32], n_padding: usize)
    requires
        old(context).wf(),
    ensures
        final(context).wf(),
        final(context).extends(old(context)),
        final(context).is_valid() == old(context).is_valid(),
        final(context).circuit.add@.len() == old(context).circuit.add@.len() + 4 * n_padding,
        final(context).circuit.eq@.len() == old(context).circuit.eq@.len() + n_padding,
        forall|j: int|
            0 <= j < n_padding ==> #[trigger] blinding_round(
                final(context),
                seed_bytes@,
                old(context).values@.len() as int,
                old(context).circuit.add@.len() as int,
                old(context).circuit.eq@.len() as int,
                zero_extra(old(context)),
                j,
            ),
        final(context).maybe_unused@ == old(context).maybe_unused@,
        final(context).circuit.constants@ == if n_padding == 0 || old(context).has_constant(embed(M31(0))) {
            old(context).circuit.constants@
        } else {
            old(context).circuit.constants@.push((embed(M31(0)), (old(context).values@.len() + 1) as usize))
        },
        final(context).values@.len() == old(context).values@.len() + 4 * n_padding + if n_padding > 0
            && !old(context).has_constant(embed(M31(0))) {
            1int
        } else {
            0int
        },
        n_padding == 0 ==> *final(context) == *old(context),
        blinding_result(old(context), final(context), seed_bytes@, n_padding as nat),
        final(context).circuit.sub@ == old(context).circuit.sub@,
        final(context).circuit.mul@ == old(context).circuit.mul@,
        final(context).circuit.poseidon@ == old(context).circuit.poseidon@,
        final(context).circuit.output@ == old(context).circuit.output@,
        final(context).guessed@ == old(context).guessed@,
{
    proof {
        crate::context::lemma_valid_iff_eq_holds(old(context));
    }
    let ghost vb = old(context).values@.len() as int;
    let ghost ab = old(context).circuit.add@.len() as int;
    let ghost eb = old(context).circuit.eq@.len() as int;
    let ghost extra: int = if !old(context).has_constant(embed(M31(0))) {
        1int
    } else {
        0int
    };
    for k in 0..n_padding
        invariant
            context.wf(),
            context.extends(old(context)),
            vb == old(context).values@.len(),
            ab == old(context).circuit.add@.len(),
            eb == old(context).circuit.eq@.len(),
            extra == if !old(context).has_constant(embed(M31(0))) {
                1int
            } else {
                0int
            },
            k == 0 ==> *context == *old(context),
            k > 0 ==> context.has_constant(embed(M31(0))),
            context.values@.len() == vb + 4 * k + if k > 0 {
                extra
            } else {
                0int
            },
            context.circuit.eq_holds(context.values@) == old(context).circuit.eq_holds(old(context).values@),
            context.circuit.add@.len() == ab + 4 * k,
            context.circuit.eq@.len() == eb + k,
            forall|j: int| 0 <= j < k ==> #[trigger] blinding_round(context, seed_bytes@, vb, ab, eb, extra, j),
            context.maybe_unused@ == old(context).maybe_unused@,
            context.circuit.constants@ == if k == 0 || old(context).has_constant(embed(M31(0))) {
                old(context).circuit.constants@
            } else {
                old(context).circuit.constants@.push((embed(M31(0)), (vb + 1) as usize))
            },
            context.circuit.sub@ == old(context).circuit.sub@,
            context.circuit.mul@ == old(context).circuit.mul@,
            context.circuit.poseidon@ == old(context).circuit.poseidon@,
            context.circuit.output@ == old(context).circuit.output@,
            context.guessed@ == old(context).guessed@,
    {
        let ghost c0 = *context;
        add_blinding_round(context, seed_bytes, k, Ghost(vb), Ghost(ab), Ghost(eb), Ghost(extra));
        proof {
            if k == 0 {
                assert(c0.has_constant(embed(M31(0))) == old(context).has_constant(embed(M31(0))));
            }
            assert forall|j: int| 0 <= j < k + 1 implies #[trigger] blinding_round(
                context,
                seed_bytes@,
                vb,
                ab,
                eb,
                extra,
                j,
            ) by {
                if j < k {
                    lemma_blinding_round_preserved(context, &c0, seed_bytes@, vb, ab, eb, extra, j);
                }
            }
        }
    }
    proof {
        crate::context::lemma_valid_iff_eq_holds(context);
    }
}

} // verus!
