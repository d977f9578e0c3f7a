//! Gates added to a circuit together with the values of their outputs.
use crate::circuit::{Add, Mul, Output, Sub};
use crate::context::{Context, Var};
use crate::field::{embed, qm31_add, qm31_mul, qm31_sub, M31, QM31};
use vstd::prelude::*;

verus! {

/// A new variable holding `value`, supplied by the prover; it is listed as
/// guessed until `finalize_guessed_vars` makes a gate yield it.
pub fn guess(ctx: &mut Context, value: QM31) -> (r: Var)
    requires
        old(ctx).wf(),
        value.canonical(),
    ensures
        final(ctx).wf(),
        final(ctx).extends(old(ctx)),
        final(ctx).maybe_unused@ == old(ctx).maybe_unused@,
        old(ctx).sourced() ==> final(ctx).sourced(),
        old(ctx).yields_once() ==> final(ctx).yields_once(),
        final(ctx).same_gates(old(ctx)),
        final(ctx).circuit.constants@ == old(ctx).circuit.constants@,
        final(ctx).values@ == old(ctx).values@.push(value),
        final(ctx).guessed@ == old(ctx).guessed@.push(r.idx),
        r.idx == old(ctx).values@.len(),
{
    let r = ctx.new_var(value);
    ctx.guessed.push(r.idx);
    proof {
        if old(ctx).yields_once() {
            crate::context::lemma_yields_once_step(ctx, old(ctx), 5);
        }
        if old(ctx).sourced() {
            assert(ctx.guessed@[ctx.guessed@.len() - 1] == r.idx);
            crate::context::lemma_sourced_grows(ctx, old(ctx));
        }
    }
    r
}

/// Constrains `a` and `b` to be equal.
pub fn eq(ctx: &mut Context, a: Var, b: Var)
    requires
        old(ctx).wf(),
        old(ctx).has(a),
        old(ctx).has(b),
    ensures
        final(ctx).wf(),
        final(ctx).extends(old(ctx)),
        final(ctx).maybe_unused@ == old(ctx).maybe_unused@,
        old(ctx).sourced() ==> final(ctx).sourced(),
        old(ctx).yields_once() ==> final(ctx).yields_once(),
        final(ctx).values@ == old(ctx).values@,
        final(ctx).guessed@ == old(ctx).guessed@,
        final(ctx).circuit.constants@ == old(ctx).circuit.constants@,
        final(ctx).circuit.eq@ == old(ctx).circuit.eq@.push(crate::circuit::Eq { in0: a.idx, in1: b.idx }),
        final(ctx).circuit.add@ == old(ctx).circuit.add@,
        final(ctx).circuit.sub@ == old(ctx).circuit.sub@,
        final(ctx).circuit.mul@ == old(ctx).circuit.mul@,
        final(ctx).circuit.poseidon@ == old(ctx).circuit.poseidon@,
        final(ctx).circuit.output@ == old(ctx).circuit.output@,
{
    ctx.circuit.eq.push(crate::circuit::Eq { in0: a.idx, in1: b.idx });
    proof {
        if old(ctx).yields_once() {
            assert forall|x: usize| #[trigger] ctx.var_count(x) == if x < ctx.circuit.n_vars {
                1nat
            } else {
                0nat
            } by {
                assert(ctx.var_count(x) == old(ctx).var_count(x));
            }
        }
        if old(ctx).sourced() {
            crate::context::lemma_sourced_grows(ctx, old(ctx));
        }
    }
}

/// Makes `a` a public output.
pub fn output(ctx: &mut Context, a: Var)
    requires
        old(ctx).wf(),
        old(ctx).has(a),
    ensures
        final(ctx).wf(),
        final(ctx).extends(old(ctx)),
        final(ctx).maybe_unused@ == old(ctx).maybe_unused@,
        old(ctx).sourced() ==> final(ctx).sourced(),
        old(ctx).yields_once() ==> final(ctx).yields_once(),
        final(ctx).values@ == old(ctx).values@,
        final(ctx).guessed@ == old(ctx).guessed@,
        final(ctx).circuit.constants@ == old(ctx).circuit.constants@,
        final(ctx).circuit.output@ == old(ctx).circuit.output@.push(Output { in0: a.idx }),
        final(ctx).circuit.add@ == old(ctx).circuit.add@,
        final(ctx).circuit.sub@ == old(ctx).circuit.sub@,
        final(ctx).circuit.mul@ == old(ctx).circuit.mul@,
        final(ctx).circuit.eq@ == old(ctx).circuit.eq@,
        final(ctx).circuit.poseidon@ == old(ctx).circuit.poseidon@,
{
    ctx.circuit.output.push(Output { in0: a.idx });
    proof {
        if old(ctx).yields_once() {
            assert forall|x: usize| #[trigger] ctx.var_count(x) == if x < ctx.circuit.n_vars {
                1nat
            } else {
                0nat
            } by {
                assert(ctx.var_count(x) == old(ctx).var_count(x));
            }
        }
        if old(ctx).sourced() {
            crate::context::lemma_sourced_grows(ctx, old(ctx));
        }
    }
}

/// `a + b`, as a new variable yielded by an addition gate.
pub fn add(ctx: &mut Context, a: Var, b: Var) -> (r: Var)
    requires
        old(ctx).wf(),
        old(ctx).has(a),
        old(ctx).has(b),
    ensures
        final(ctx).wf(),
        final(ctx).extends(old(ctx)),
        final(ctx).maybe_unused@ == old(ctx).maybe_unused@,
        old(ctx).sourced() ==> final(ctx).sourced(),
        old(ctx).yields_once() ==> final(ctx).yields_once(),
        r.idx == old(ctx).values@.len(),
        final(ctx).values@ == old(ctx).values@.push(qm31_add(old(ctx).val(a), old(ctx).val(b))),
        final(ctx).guessed@ == old(ctx).guessed@,
        final(ctx).circuit.constants@ == old(ctx).circuit.constants@,
        final(ctx).circuit.add@ == old(ctx).circuit.add@.push(Add { in0: a.idx, in1: b.idx, out: r.idx }),
        forall|d: Context, v: Seq<QM31>|
            #![trigger d.extends(final(ctx)), d.computes(v)]
            d.extends(final(ctx)) && d.computes(v) ==> v[r.idx as int] == qm31_add(v[a.idx as int], v[b.idx as int]),
        final(ctx).circuit.sub@ == old(ctx).circuit.sub@,
        final(ctx).circuit.mul@ == old(ctx).circuit.mul@,
        final(ctx).circuit.eq@ == old(ctx).circuit.eq@,
        final(ctx).circuit.poseidon@ == old(ctx).circuit.poseidon@,
        final(ctx).circuit.output@ == old(ctx).circuit.output@,
{
    let value = ctx.get(a).add(ctx.get(b));
    let r = ctx.new_var(value);
    ctx.circuit.add.push(Add { in0: a.idx, in1: b.idx, out: r.idx });
    assert forall|d: Context, v: Seq<QM31>| d.extends(ctx) && d.computes(v) implies v[r.idx as int] == qm31_add(
        v[a.idx as int],
        v[b.idx as int],
    ) by {
        let k = ctx.circuit.add@.len() - 1;
        assert(d.circuit.add@[k] == ctx.circuit.add@[k]);
    }
    proof {
        if old(ctx).yields_once() {
            crate::context::lemma_yields_once_step(ctx, old(ctx), 1);
        }
        if old(ctx).sourced() {
            assert(ctx.circuit.add@[ctx.circuit.add@.len() - 1].out == r.idx);
            crate::context::lemma_sourced_grows(ctx, old(ctx));
        }
    }
    r
}

/// `a - b`, as a new variable yielded by a subtraction gate.
pub fn sub(ctx: &mut Context, a: Var, b: Var) -> (r: Var)
    requires
        old(ctx).wf(),
        old(ctx).has(a),
        old(ctx).has(b),
    ensures
        final(ctx).wf(),
        final(ctx).extends(old(ctx)),
        final(ctx).maybe_unused@ == old(ctx).maybe_unused@,
        old(ctx).sourced() ==> final(ctx).sourced(),
        old(ctx).yields_once() ==> final(ctx).yields_once(),
        r.idx == old(ctx).values@.len(),
        final(ctx).values@ == old(ctx).values@.push(qm31_sub(old(ctx).val(a), old(ctx).val(b))),
        final(ctx).guessed@ == old(ctx).guessed@,
        final(ctx).circuit.constants@ == old(ctx).circuit.constants@,
        final(ctx).circuit.sub@ == old(ctx).circuit.sub@.push(Sub { in0: a.idx, in1: b.idx, out: r.idx }),
        forall|d: Context, v: Seq<QM31>|
            #![trigger d.extends(final(ctx)), d.computes(v)]
            d.extends(final(ctx)) && d.computes(v) ==> v[r.idx as int] == qm31_sub(v[a.idx as int], v[b.idx as int]),
        final(ctx).circuit.add@ == old(ctx).circuit.add@,
        final(ctx).circuit.mul@ == old(ctx).circuit.mul@,
        final(ctx).circuit.eq@ == old(ctx).circuit.eq@,
        final(ctx).circuit.poseidon@ == old(ctx).circuit.poseidon@,
        final(ctx).circuit.output@ == old(ctx).circuit.output@,
{
    let value = ctx.get(a).sub(ctx.get(b));
    let r = ctx.new_var(value);
    ctx.circuit.sub.push(Sub { in0: a.idx, in1: b.idx, out: r.idx });
    assert forall|d: Context, v: Seq<QM31>| d.extends(ctx) && d.computes(v) implies v[r.idx as int] == qm31_sub(
        v[a.idx as int],
        v[b.idx as int],
    ) by {
        let k = ctx.circuit.sub@.len() - 1;
        assert(d.circuit.sub@[k] == ctx.circuit.sub@[k]);
    }
    proof {
        if old(ctx).yields_once() {
            crate::context::lemma_yields_once_step(ctx, old(ctx), 2);
        }
        if old(ctx).sourced() {
            assert(ctx.circuit.sub@[ctx.circuit.sub@.len() - 1].out == r.idx);
            crate::context::lemma_sourced_grows(ctx, old(ctx));
        }
    }
    r
}

/// `a * b`, as a new variable yielded by a multiplication gate.
pub fn mul(ctx: &mut Context, a: Var, b: Var) -> (r: Var)
    requires
        old(ctx).wf(),
        old(ctx).has(a),
        old(ctx).has(b),
    ensures
        final(ctx).wf(),
        final(ctx).extends(old(ctx)),
        final(ctx).maybe_unused@ == old(ctx).maybe_unused@,
        old(ctx).sourced() ==> final(ctx).sourced(),
        old(ctx).yields_once() ==> final(ctx).yields_once(),
        r.idx == old(ctx).values@.len(),
        final(ctx).values@ == old(ctx).values@.push(qm31_mul(old(ctx).val(a), old(ctx).val(b))),
        final(ctx).guessed@ == old(ctx).guessed@,
        final(ctx).circuit.constants@ == old(ctx).circuit.constants@,
        final(ctx).circuit.mul@ == old(ctx).circuit.mul@.push(Mul { in0: a.idx, in1: b.idx, out: r.idx }),
        forall|d: Context, v: Seq<QM31>|
            #![trigger d.extends(final(ctx)), d.computes(v)]
            d.extends(final(ctx)) && d.computes(v) ==> v[r.idx as int] == qm31_mul(v[a.idx as int], v[b.idx as int]),
        final(ctx).circuit.add@ == old(ctx).circuit.add@,
        final(ctx).circuit.sub@ == old(ctx).circuit.sub@,
        final(ctx).circuit.eq@ == old(ctx).circuit.eq@,
        final(ctx).circuit.poseidon@ == old(ctx).circuit.poseidon@,
        final(ctx).circuit.output@ == old(ctx).circuit.output@,
{
    let value = ctx.get(a).mul(ctx.get(b));
    let r = ctx.new_var(value);
    ctx.circuit.mul.push(Mul { in0: a.idx, in1: b.idx, out: r.idx });
    assert forall|d: Context, v: Seq<QM31>| d.extends(ctx) && d.computes(v) implies v[r.idx as int] == qm31_mul(
        v[a.idx as int],
        v[b.idx as int],
    ) by {
        let k = ctx.circuit.mul@.len() - 1;
        assert(d.circuit.mul@[k] == ctx.circuit.mul@[k]);
    }
    proof {
        if old(ctx).yields_once() {
            crate::context::lemma_yields_once_step(ctx, old(ctx), 3);
        }
        if old(ctx).sourced() {
            assert(ctx.circuit.mul@[ctx.circuit.mul@.len() - 1].out == r.idx);
            crate::context::lemma_sourced_grows(ctx, old(ctx));
        }
    }
    r
}

/// The pair `(a + bit (b - a), b - bit (b - a))`: `(a, b)` when `bit` is 0 and
/// `(b, a)` when it is 1 (`lemma_cond_flip`).
pub fn cond_flip(ctx: &mut Context, bit: Var, a: Var, b: Var) -> (r: (Var, Var))
    requires
        old(ctx).wf(),
        old(ctx).has(bit),
        old(ctx).has(a),
        old(ctx).has(b),
    ensures
        final(ctx).wf(),
        final(ctx).extends(old(ctx)),
        final(ctx).maybe_unused@ == old(ctx).maybe_unused@,
        old(ctx).sourced() ==> final(ctx).sourced(),
        old(ctx).yields_once() ==> final(ctx).yields_once(),
        final(ctx).guessed@ == old(ctx).guessed@,
        final(ctx).has(r.0),
        final(ctx).has(r.1),
        ({
            let t = qm31_mul(old(ctx).val(bit), qm31_sub(old(ctx).val(b), old(ctx).val(a)));
            &&& final(ctx).val(r.0) == qm31_add(old(ctx).val(a), t)
            &&& final(ctx).val(r.1) == qm31_sub(old(ctx).val(b), t)
        }),
        final(ctx).circuit.eq@ == old(ctx).circuit.eq@,
        final(ctx).circuit.poseidon@ == old(ctx).circuit.poseidon@,
        final(ctx).circuit.output@ == old(ctx).circuit.output@,
        final(ctx).circuit.mul@.len() == old(ctx).circuit.mul@.len() + 1,
        forall|d: Context, v: Seq<QM31>|
            #![trigger d.extends(final(ctx)), d.computes(v)]
            d.extends(final(ctx)) && d.computes(v) ==> {
                let t = qm31_mul(v[bit.idx as int], qm31_sub(v[b.idx as int], v[a.idx as int]));
                &&& v[r.0.idx as int] == qm31_add(v[a.idx as int], t)
                &&& v[r.1.idx as int] == qm31_sub(v[b.idx as int], t)
            },
{
    let diff = self::sub(ctx, b, a);
    let ghost c1 = *ctx;
    let t = self::mul(ctx, bit, diff);
    let ghost c2 = *ctx;
    let left = self::add(ctx, a, t);
    let ghost c3 = *ctx;
    let right = self::sub(ctx, b, t);
    assert forall|d: Context, v: Seq<QM31>| d.extends(ctx) && d.computes(v) implies {
        let tv = qm31_mul(v[bit.idx as int], qm31_sub(v[b.idx as int], v[a.idx as int]));
        &&& v[left.idx as int] == qm31_add(v[a.idx as int], tv)
        &&& v[right.idx as int] == qm31_sub(v[b.idx as int], tv)
    } by {
        crate::context::lemma_extends_trans(&d, &*ctx, &c3);
        crate::context::lemma_extends_trans(&d, &c3, &c2);
        crate::context::lemma_extends_trans(&d, &c2, &c1);
    }
    (left, right)
}

/// `cond_flip` keeps the pair when the bit is 0 and swaps it when the bit is 1.
pub proof fn lemma_cond_flip(bit: QM31, a: QM31, b: QM31)
    requires
        a.canonical(),
        b.canonical(),
        bit == embed(M31(0)) || bit == embed(M31(1)),
    ensures
        bit == embed(M31(0)) ==> qm31_add(a, qm31_mul(bit, qm31_sub(b, a))) == a && qm31_sub(
            b,
            qm31_mul(bit, qm31_sub(b, a)),
        ) == b,
        bit == embed(M31(1)) ==> qm31_add(a, qm31_mul(bit, qm31_sub(b, a))) == b && qm31_sub(
            b,
            qm31_mul(bit, qm31_sub(b, a)),
        ) == a,
{
    crate::field::lemma_qm31_ops_canonical(b, a);
    crate::field::lemma_qm31_identities(qm31_sub(b, a), a, b);
}

} // verus!
