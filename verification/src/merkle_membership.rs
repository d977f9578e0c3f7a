//! A circuit for membership in a Poseidon2 Merkle tree, instantiated with an
//! all-zero leaf and path.
use crate::context::{lemma_extends_refl, lemma_extends_trans, vals_at, Context, Var};
use crate::field::{embed, qm31_add, qm31_mul, qm31_sub, M31, QM31};
use crate::ops::{cond_flip, eq, guess, output};
use crate::poseidon2::{poseidon2_hash_two, spec_hash_two};
use vstd::prelude::*;

verus! {

/// The root of a path of `depth` levels from a zero leaf with zero siblings,
/// the leaf always on the left.
pub open spec fn zero_merkle_root(depth: nat) -> QM31
    decreases depth,
{
    if depth == 0 {
        embed(M31(0))
    } else {
        spec_hash_two(zero_merkle_root((depth - 1) as nat), embed(M31(0)))
    }
}

/// The root of a path of `n` levels from `leaf`: at level `j` the current
/// node `c` and the sibling `s` become the pair `(c + t, s - t)` with
/// `t = bits[j] (s - c)`, which is `(c, s)` when the bit is 0 and `(s, c)`
/// when it is 1, and the pair is hashed with Poseidon2.
pub open spec fn path_root(leaf: QM31, bits: Seq<QM31>, sibs: Seq<QM31>, n: nat) -> QM31
    decreases n,
{
    if n == 0 {
        leaf
    } else {
        let c = path_root(leaf, bits, sibs, (n - 1) as nat);
        let t = qm31_mul(bits[n - 1], qm31_sub(sibs[n - 1], c));
        spec_hash_two(qm31_add(c, t), qm31_sub(sibs[n - 1], t))
    }
}

/// Every assignment that satisfies the circuit `c` gives its first output
/// the root (`path_root`) of the path of `depth` levels from the variable
/// `leaf`, with bits `bits` and siblings `sibs`.
pub open spec fn output_is_path_root(c: &Context, leaf: Var, bits: Seq<Var>, sibs: Seq<Var>, depth: nat) -> bool {
    &&& bits.len() == depth
    &&& sibs.len() == depth
    &&& forall|v: Seq<QM31>|
        #[trigger] c.circuit.satisfied_by(v) ==> v[c.circuit.output@[0].in0 as int] == path_root(
            v[leaf.idx as int],
            vals_at(v, bits),
            vals_at(v, sibs),
            depth,
        )
}

/// One level of a path hashes the node below and the sibling, in the order
/// the bit picks: the node on the left when the bit is 0, on the right when
/// it is 1.
pub proof fn lemma_path_root_level(leaf: QM31, bits: Seq<QM31>, sibs: Seq<QM31>, n: nat)
    requires
        n >= 1,
        leaf.canonical(),
        sibs[n - 1].canonical(),
        bits[n - 1] == embed(M31(0)) || bits[n - 1] == embed(M31(1)),
    ensures
        bits[n - 1] == embed(M31(0)) ==> path_root(leaf, bits, sibs, n) == spec_hash_two(
            path_root(leaf, bits, sibs, (n - 1) as nat),
            sibs[n - 1],
        ),
        bits[n - 1] == embed(M31(1)) ==> path_root(leaf, bits, sibs, n) == spec_hash_two(
            sibs[n - 1],
            path_root(leaf, bits, sibs, (n - 1) as nat),
        ),
{
    let c = path_root(leaf, bits, sibs, (n - 1) as nat);
    if n >= 2 {
        let m = (n - 2) as nat;
        let cm = path_root(leaf, bits, sibs, m);
        let t = qm31_mul(bits[m as int], qm31_sub(sibs[m as int], cm));
        crate::poseidon2::lemma_hash_two_canonical(qm31_add(cm, t), qm31_sub(sibs[m as int], t));
    }
    assert(c.canonical());
    crate::ops::lemma_cond_flip(bits[n - 1], c, sibs[n - 1]);
}

/// The root of the all-zero path: zero for no levels, and each further level
/// hashes the root below (left) with a zero sibling (right).
pub proof fn lemma_zero_merkle_root_step(depth: nat)
    ensures
        zero_merkle_root(0) == embed(M31(0)),
        zero_merkle_root(depth + 1) == spec_hash_two(zero_merkle_root(depth), embed(M31(0))),
{
}

/// The root of the all-zero instance is the root of the path from a zero
/// leaf with zero bits and zero siblings.
pub proof fn lemma_zero_merkle_root_is_path_root(bits: Seq<QM31>, sibs: Seq<QM31>, depth: nat)
    requires
        bits.len() == depth,
        sibs.len() == depth,
        forall|k: int| 0 <= k < depth ==> #[trigger] bits[k] == embed(M31(0)) && sibs[k] == embed(M31(0)),
    ensures
        zero_merkle_root(depth) == path_root(embed(M31(0)), bits, sibs, depth),
    decreases depth,
{
    if depth > 0 {
        let m = (depth - 1) as nat;
        lemma_zero_merkle_root_is_path_root(bits.take(m as int), sibs.take(m as int), m);
        lemma_path_root_prefix(embed(M31(0)), bits.take(m as int), bits, sibs.take(m as int), sibs, m);
        assert(bits[m as int] == embed(M31(0)) && sibs[m as int] == embed(M31(0)));
        lemma_path_root_level(embed(M31(0)), bits, sibs, depth);
    }
}

/// The root of the first `n` levels depends on the first `n` bits and
/// siblings alone.
proof fn lemma_path_root_prefix(leaf: QM31, b1: Seq<QM31>, b2: Seq<QM31>, s1: Seq<QM31>, s2: Seq<QM31>, n: nat)
    requires
        forall|k: int| 0 <= k < n ==> #[trigger] b1[k] == b2[k] && s1[k] == s2[k],
    ensures
        path_root(leaf, b1, s1, n) == path_root(leaf, b2, s2, n),
    decreases n,
{
    if n > 0 {
        lemma_path_root_prefix(leaf, b1, b2, s1, s2, (n - 1) as nat);
        assert(b1[n - 1] == b2[n - 1] && s1[n - 1] == s2[n - 1]);
    }
}

/// Equality gate `j` forces a variable `b` to be 0 or 1: it equates the
/// product of a multiplication gate `b * d` with the constant zero, where a
/// subtraction gate yields `d = b - 1` with the constant one. Whatever values
/// satisfy the circuit, `b (b - 1) = 0` holds.
pub open spec fn forces_binary(c: &Context, j: int) -> bool {
    exists|km: int, ks: int|
        #![trigger c.circuit.mul@[km], c.circuit.sub@[ks]]
        0 <= km < c.circuit.mul@.len() && 0 <= ks < c.circuit.sub@.len() && {
            let e = c.circuit.eq@[j];
            let m = c.circuit.mul@[km];
            let d = c.circuit.sub@[ks];
            &&& e.in0 == m.out
            &&& m.in1 == d.out
            &&& d.in0 == m.in0
            &&& c.is_constant_var(d.in1, embed(M31(1)))
            &&& c.is_constant_var(e.in1, embed(M31(0)))
        }
}

/// Growing a context keeps what its equality gates force.
proof fn lemma_forces_binary_preserved(new: &Context, old: &Context, j: int)
    requires
        0 <= j < old.circuit.eq@.len(),
        new.extends(old),
        forces_binary(old, j),
    ensures
        forces_binary(new, j),
{
    let (km, ks) = choose|km: int, ks: int|
        #![trigger old.circuit.mul@[km], old.circuit.sub@[ks]]
        0 <= km < old.circuit.mul@.len() && 0 <= ks < old.circuit.sub@.len() && {
            let e = old.circuit.eq@[j];
            let m = old.circuit.mul@[km];
            let d = old.circuit.sub@[ks];
            &&& e.in0 == m.out
            &&& m.in1 == d.out
            &&& d.in0 == m.in0
            &&& old.is_constant_var(d.in1, embed(M31(1)))
            &&& old.is_constant_var(e.in1, embed(M31(0)))
        };
    assert(new.circuit.mul@[km] == old.circuit.mul@[km]);
    assert(new.circuit.sub@[ks] == old.circuit.sub@[ks]);
    assert(new.circuit.eq@[j] == old.circuit.eq@[j]);
    let d = old.circuit.sub@[ks];
    let e = old.circuit.eq@[j];
    let k1 = choose|k: int| 0 <= k < old.circuit.constants@.len() && #[trigger] old.circuit.constants@[k] == (embed(M31(1)), d.in1);
    let k0 = choose|k: int| 0 <= k < old.circuit.constants@.len() && #[trigger] old.circuit.constants@[k] == (embed(M31(0)), e.in1);
    assert(new.circuit.constants@[k1] == old.circuit.constants@[k1]);
    assert(new.circuit.constants@[k0] == old.circuit.constants@[k0]);
}

/// A Merkle path of `depth` levels: at each level a guessed bit (constrained
/// to be 0 or 1) says on which side the guessed sibling goes, and the pair is
/// hashed with Poseidon2; the root is a guessed output constrained to equal
/// the result. All guesses are zero, so the circuit holds and its output is
/// `zero_merkle_root(depth)`.
pub fn build_merkle_membership_context(depth: usize) -> (r: Context)
    ensures
        r.wf(),
        r.is_valid(),
        r.guessed@.len() == 0,
        r.circuit.eq@.len() == depth + 1,
        forall|j: int| 0 <= j < depth ==> #[trigger] forces_binary(&r, j),
        r.circuit.mul@.len() >= 386 * depth,
        r.vars_used(),
        r.circuit.yields_each_var_once(),
        r.circuit.output@.len() == 1,
        r.values@[r.circuit.output@[0].in0 as int] == zero_merkle_root(depth as nat),
        exists|leaf: Var, bits: Seq<Var>, sibs: Seq<Var>| #[trigger] output_is_path_root(&r, leaf, bits, sibs, depth as nat),
{
    let mut context = Context::new();
    let one = context.one();
    let ghost c_one = context;
    let zero = context.zero();
    let ghost c_zero = context;
    let leaf = guess(&mut context, QM31::zero());
    let mut curr = leaf;
    let ghost cl = context;
    let ghost mut bits: Seq<Var> = Seq::empty();
    let ghost mut sibs: Seq<Var> = Seq::empty();
    proof {
        let k1 = choose|k: int| 0 <= k < c_one.circuit.constants@.len() && #[trigger] c_one.circuit.constants@[k] == (embed(M31(1)), one.idx);
        assert(c_zero.circuit.constants@[k1] == c_one.circuit.constants@[k1]);
        assert(context.circuit.constants@ == c_zero.circuit.constants@);
        assert(context.circuit.constants@[k1] == (embed(M31(1)), one.idx));
        let k0 = choose|k: int| 0 <= k < c_zero.circuit.constants@.len() && #[trigger] c_zero.circuit.constants@[k] == (embed(M31(0)), zero.idx);
        assert(context.circuit.constants@[k0] == (embed(M31(0)), zero.idx));
    }

    for level in 0..depth
        invariant
            context.wf(),
            context.has(one),
            context.has(zero),
            context.has(curr),
            context.val(one) == embed(M31(1)),
            context.val(zero) == embed(M31(0)),
            context.val(curr) == zero_merkle_root(level as nat),
            context.circuit.eq_holds(context.values@),
            context.circuit.eq@.len() == level,
            context.is_constant_var(one.idx, embed(M31(1))),
            context.is_constant_var(zero.idx, embed(M31(0))),
            forall|j: int| 0 <= j < level ==> #[trigger] forces_binary(&context, j),
            context.circuit.mul@.len() >= 386 * level,
            context.sourced(),
            context.yields_once(),
            context.circuit.output@.len() == 0,
            context.extends(&cl),
            bits.len() == level,
            sibs.len() == level,
            forall|d: Context, v: Seq<QM31>|
                #![trigger d.extends(&context), d.computes(v)]
                d.extends(&context) && d.computes(v) ==> v[curr.idx as int] == path_root(
                    v[leaf.idx as int],
                    vals_at(v, bits),
                    vals_at(v, sibs),
                    level as nat,
                ),
    {
        let ghost c0 = context;
        let bit = guess(&mut context, QM31::zero());
        let sibling = guess(&mut context, QM31::zero());

        let ghost ks = context.circuit.sub@.len() as int;
        let bit_minus_one = crate::ops::sub(&mut context, bit, one);
        let ghost km = context.circuit.mul@.len() as int;
        let bit_is_binary = crate::ops::mul(&mut context, bit, bit_minus_one);
        proof {
            crate::field::lemma_qm31_ops_canonical(embed(M31(0)), embed(M31(1)));
            crate::field::lemma_qm31_identities(
                crate::field::qm31_sub(embed(M31(0)), embed(M31(1))),
                embed(M31(0)),
                embed(M31(0)),
            );
            crate::context::lemma_eq_holds_preserved(&context, &c0);
        }
        let ghost c1 = context;
        eq(&mut context, bit_is_binary, zero);
        proof {
            assert forall|k: int| 0 <= k < context.circuit.eq@.len() implies {
                let g = #[trigger] context.circuit.eq@[k];
                context.values@[g.in0 as int] == context.values@[g.in1 as int]
            } by {
                if k < c1.circuit.eq@.len() {
                    assert(context.circuit.eq@[k] == c1.circuit.eq@[k]);
                }
            }
            crate::ops::lemma_cond_flip(context.val(bit), context.val(curr), context.val(sibling));
            let k1 = choose|k: int| 0 <= k < c0.circuit.constants@.len() && #[trigger] c0.circuit.constants@[k] == (embed(M31(1)), one.idx);
            let k0 = choose|k: int| 0 <= k < c0.circuit.constants@.len() && #[trigger] c0.circuit.constants@[k] == (embed(M31(0)), zero.idx);
            assert(context.circuit.constants@[k1] == c0.circuit.constants@[k1]);
            assert(context.circuit.constants@[k0] == c0.circuit.constants@[k0]);
            assert(context.circuit.mul@[km].out == bit_is_binary.idx);
            assert(context.circuit.sub@[ks].out == bit_minus_one.idx);
            assert(forces_binary(&context, level as int));
            assert forall|j: int| 0 <= j < level implies #[trigger] forces_binary(&context, j) by {
                lemma_forces_binary_preserved(&context, &c0, j);
            }
        }
        let ghost c2 = context;

        let ghost cur0 = curr;
        let (left, right) = cond_flip(&mut context, bit, curr, sibling);
        let ghost c6 = context;

        // Compress one Merkle level with Poseidon2 over the same context.
        curr = poseidon2_hash_two(&mut context, left, right);
        proof {
            lemma_extends_trans(&context, &c6, &c2);
            lemma_extends_trans(&context, &c2, &c0);
            lemma_extends_trans(&context, &c0, &cl);
            let nb = bits.push(bit);
            let ns = sibs.push(sibling);
            assert forall|d: Context, v: Seq<QM31>| d.extends(&context) && d.computes(v) implies v[curr.idx as int]
                == path_root(v[leaf.idx as int], vals_at(v, nb), vals_at(v, ns), (level + 1) as nat) by {
                lemma_extends_trans(&d, &context, &c6);
                lemma_extends_trans(&d, &c6, &c2);
                lemma_extends_trans(&d, &c2, &c0);
                assert(vals_at(v, nb).drop_last() =~= vals_at(v, bits));
                assert(vals_at(v, ns).drop_last() =~= vals_at(v, sibs));
                assert(v[cur0.idx as int] == path_root(v[leaf.idx as int], vals_at(v, bits), vals_at(v, sibs), level as nat));
                assert forall|k: int| 0 <= k < level implies #[trigger] vals_at(v, nb)[k] == vals_at(v, bits)[k] && vals_at(v, ns)[k] == vals_at(v, sibs)[k] by {}
                lemma_path_root_prefix(v[leaf.idx as int], vals_at(v, nb), vals_at(v, bits), vals_at(v, ns), vals_at(v, sibs), level as nat);
                assert(vals_at(v, nb)[level as int] == v[bit.idx as int]);
                assert(vals_at(v, ns)[level as int] == v[sibling.idx as int]);
            }
            bits = nb;
            sibs = ns;
        }
        proof {
            crate::context::lemma_eq_holds_preserved(&context, &c2);
            assert forall|j: int| 0 <= j < level + 1 implies #[trigger] forces_binary(&context, j) by {
                lemma_forces_binary_preserved(&context, &c2, j);
            }
            let k1 = choose|k: int| 0 <= k < c2.circuit.constants@.len() && #[trigger] c2.circuit.constants@[k] == (embed(M31(1)), one.idx);
            let k0 = choose|k: int| 0 <= k < c2.circuit.constants@.len() && #[trigger] c2.circuit.constants@[k] == (embed(M31(0)), zero.idx);
            assert(context.circuit.constants@[k1] == c2.circuit.constants@[k1]);
            assert(context.circuit.constants@[k0] == c2.circuit.constants@[k0]);
        }
    }

    let ghost c5 = context;
    let root_value = context.get(curr);
    let root = guess(&mut context, root_value);
    let ghost c3 = context;
    eq(&mut context, curr, root);
    proof {
        assert forall|k: int| 0 <= k < context.circuit.eq@.len() implies {
            let g = #[trigger] context.circuit.eq@[k];
            context.values@[g.in0 as int] == context.values@[g.in1 as int]
        } by {
            if k < c3.circuit.eq@.len() {
                assert(context.circuit.eq@[k] == c3.circuit.eq@[k]);
            }
        }
    }
    output(&mut context, root);
    let ghost c4 = context;

    context.finalize_guessed_vars();
    proof {
        crate::context::lemma_eq_holds_preserved(&context, &c4);
        crate::context::lemma_valid_iff_eq_holds(&context);
        assert(context.circuit.output@[0] == c4.circuit.output@[0]);
        assert forall|j: int| 0 <= j < depth implies #[trigger] forces_binary(&context, j) by {
            lemma_forces_binary_preserved(&context, &c5, j);
        }
        crate::context::lemma_sourced_vars_used(&context);
        crate::context::lemma_yields_once_each(&context);
        assert forall|v: Seq<QM31>| #[trigger] context.circuit.satisfied_by(v) implies v[context.circuit.output@[0].in0 as int]
            == path_root(v[leaf.idx as int], vals_at(v, bits), vals_at(v, sibs), depth as nat) by {
            let d = context;
            assert(d.computes(v));
            lemma_extends_refl(&d);
            lemma_extends_trans(&d, &context, &c4);
            lemma_extends_trans(&d, &c4, &c3);
            lemma_extends_trans(&d, &c3, &c5);
            assert(v[curr.idx as int] == path_root(v[leaf.idx as int], vals_at(v, bits), vals_at(v, sibs), depth as nat));
            assert(context.circuit.eq@[depth as int] == c4.circuit.eq@[depth as int]);
            assert(context.circuit.output@[0] == c4.circuit.output@[0]);
        }
        assert(output_is_path_root(&context, leaf, bits, sibs, depth as nat));
    }
    context
}

} // verus!
