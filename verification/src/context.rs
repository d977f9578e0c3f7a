//! A circuit under construction together with the values of its variables.
use crate::circuit::{is_prefix, Add, Circuit, Mul, Poseidon, Sub};
use crate::field::{embed, qm31_add, M31, QM31};
use vstd::prelude::*;

verus! {

/// A variable of the circuit, named by its index.
#[derive(Clone, Copy, Debug, PartialEq, Eq, Structural)]
pub struct Var {
    pub idx: usize,
}

/// The circuit built so far and one value for each of its variables.
/// `guessed` lists the variables whose values the prover supplies and that no
/// gate yields yet; `maybe_unused` lists the variables that need not be read.
pub struct Context {
    pub circuit: Circuit,
    pub values: Vec<QM31>,
    pub guessed: Vec<usize>,
    pub maybe_unused: Vec<usize>,
}

/// A variable sourced in `old` stays sourced in a context that grows from it
/// and keeps its guessed variables.
pub proof fn lemma_var_sourced_grows(new: &Context, old: &Context, i: usize)
    requires
        new.extends(old),
        is_prefix(old.guessed@, new.guessed@),
        old.var_sourced(i),
    ensures
        new.var_sourced(i),
{
    if exists|k: int| 0 <= k < old.circuit.constants@.len() && #[trigger] old.circuit.constants@[k].1 == i {
        let k = choose|k: int| 0 <= k < old.circuit.constants@.len() && #[trigger] old.circuit.constants@[k].1 == i;
        assert(new.circuit.constants@[k] == old.circuit.constants@[k]);
    } else if exists|k: int| 0 <= k < old.guessed@.len() && #[trigger] old.guessed@[k] == i {
        let k = choose|k: int| 0 <= k < old.guessed@.len() && #[trigger] old.guessed@[k] == i;
        assert(new.guessed@[k] == old.guessed@[k]);
    } else if exists|k: int| 0 <= k < old.circuit.add@.len() && #[trigger] old.circuit.add@[k].out == i {
        let k = choose|k: int| 0 <= k < old.circuit.add@.len() && #[trigger] old.circuit.add@[k].out == i;
        assert(new.circuit.add@[k] == old.circuit.add@[k]);
    } else if exists|k: int| 0 <= k < old.circuit.sub@.len() && #[trigger] old.circuit.sub@[k].out == i {
        let k = choose|k: int| 0 <= k < old.circuit.sub@.len() && #[trigger] old.circuit.sub@[k].out == i;
        assert(new.circuit.sub@[k] == old.circuit.sub@[k]);
    } else {
        let k = choose|k: int| 0 <= k < old.circuit.mul@.len() && #[trigger] old.circuit.mul@[k].out == i;
        assert(new.circuit.mul@[k] == old.circuit.mul@[k]);
    }
}

/// A context that grows from a sourced one, keeps its guessed variables and
/// sources each new variable is sourced.
pub proof fn lemma_sourced_grows(new: &Context, old: &Context)
    requires
        old.sourced(),
        new.extends(old),
        is_prefix(old.guessed@, new.guessed@),
        forall|i: usize| old.circuit.n_vars <= i < new.circuit.n_vars ==> #[trigger] new.var_sourced(i),
    ensures
        new.sourced(),
{
    assert forall|i: usize| i < new.circuit.n_vars implies #[trigger] new.var_sourced(i) by {
        if i < old.circuit.n_vars {
            lemma_var_sourced_grows(new, old, i);
        }
    }
}

/// A context with no guessed variables in which every variable is yielded
/// once yields each variable exactly once.
pub proof fn lemma_yields_once_each(c: &Context)
    requires
        c.wf(),
        c.yields_once(),
        c.guessed@.len() == 0,
    ensures
        c.circuit.yields_each_var_once(),
{
    broadcast use vstd::seq_lib::group_to_multiset_ensures;
    broadcast use vstd::seq_lib::lemma_multiset_commutative;
    broadcast use vstd::multiset::group_multiset_axioms;

    let cs = const_vars(c.circuit.constants@);
    let ad = add_outs(c.circuit.add@);
    let su = sub_outs(c.circuit.sub@);
    let mu = mul_outs(c.circuit.mul@);
    let po = poseidon_outs(c.circuit.poseidon@);
    let ys = c.circuit.yields();
    assert(ys =~= cs + ad + su + mu + po);
    assert forall|x: usize| #[trigger] ys.to_multiset().count(x) == c.var_count(x) by {
        lemma_occurrences_empty(c.guessed@, x);
        assert((cs + ad + su + mu + po).to_multiset().count(x) == occurrences(cs + ad + su + mu, x) + occurrences(po, x));
        assert(occurrences(cs + ad + su + mu, x) == occurrences(cs + ad + su, x) + occurrences(mu, x));
        assert(occurrences(cs + ad + su, x) == occurrences(cs + ad, x) + occurrences(su, x));
        assert(occurrences(cs + ad, x) == occurrences(cs, x) + occurrences(ad, x));
    }
    assert forall|i: int| 0 <= i < c.circuit.n_vars implies #[trigger] ys.contains(i as usize) by {
        assert(c.var_count(i as usize) == 1);
        assert(ys.to_multiset().count(i as usize) > 0);
    }
    assert forall|x: usize| ys.to_multiset().contains(x) implies ys.to_multiset().count(x) == 1 by {
        assert(c.var_count(x) == if x < c.circuit.n_vars {
            1nat
        } else {
            0nat
        });
    }
    ys.lemma_multiset_has_no_duplicates_conv();
}

/// A sourced context with no guessed variables uses every variable.
pub proof fn lemma_sourced_vars_used(c: &Context)
    requires
        c.sourced(),
        c.guessed@.len() == 0,
    ensures
        c.vars_used(),
{
    let reads = c.circuit.reads();
    let cs = c.circuit.constants@.map_values(|k: (QM31, usize)| k.1);
    let mu = c.maybe_unused@;
    let ad = c.circuit.add@.map_values(|g: Add| g.out);
    let su = c.circuit.sub@.map_values(|g: crate::circuit::Sub| g.out);
    let mm = c.circuit.mul@.map_values(|g: crate::circuit::Mul| g.out);
    let srcs = reads + cs + mu + ad + su + mm;
    assert forall|i: int| 0 <= i < c.circuit.n_vars implies #[trigger] srcs.contains(i as usize) by {
        let u = i as usize;
        assert(c.var_sourced(u));
        if exists|k: int| 0 <= k < c.circuit.constants@.len() && #[trigger] c.circuit.constants@[k].1 == u {
            let k = choose|k: int| 0 <= k < c.circuit.constants@.len() && #[trigger] c.circuit.constants@[k].1 == u;
            assert(srcs[reads.len() + k] == u);
        } else if exists|k: int| 0 <= k < c.circuit.add@.len() && #[trigger] c.circuit.add@[k].out == u {
            let k = choose|k: int| 0 <= k < c.circuit.add@.len() && #[trigger] c.circuit.add@[k].out == u;
            assert(srcs[reads.len() + cs.len() + mu.len() + k] == u);
        } else if exists|k: int| 0 <= k < c.circuit.sub@.len() && #[trigger] c.circuit.sub@[k].out == u {
            let k = choose|k: int| 0 <= k < c.circuit.sub@.len() && #[trigger] c.circuit.sub@[k].out == u;
            assert(srcs[reads.len() + cs.len() + mu.len() + ad.len() + k] == u);
        } else {
            let k = choose|k: int| 0 <= k < c.circuit.mul@.len() && #[trigger] c.circuit.mul@[k].out == u;
            assert(srcs[reads.len() + cs.len() + mu.len() + ad.len() + su.len() + k] == u);
        }
    }
}

/// The values that the assignment `v` gives the variables of `st`.
pub open spec fn vals_at(v: Seq<QM31>, st: Seq<Var>) -> Seq<QM31> {
    Seq::new(st.len(), |k: int| v[st[k].idx as int])
}

/// In every context that grows from `c` and every assignment `v` under which
/// its constants and computing gates hold, the variables of `out` have the
/// values that `f` gives for those of `inp`: the gates of `c` force `out`.
pub open spec fn binds(c: &Context, out: Seq<Var>, inp: Seq<Var>, f: spec_fn(Seq<QM31>) -> Seq<QM31>) -> bool {
    forall|d: Context, v: Seq<QM31>|
        #![trigger d.extends(c), d.computes(v)]
        d.extends(c) && d.computes(v) ==> vals_at(v, out) == f(vals_at(v, inp))
}

/// The variables of the constants, in order.
pub open spec fn const_vars(s: Seq<(QM31, usize)>) -> Seq<usize> {
    s.map_values(|k: (QM31, usize)| k.1)
}

/// The outputs of addition gates, in order.
pub open spec fn add_outs(s: Seq<Add>) -> Seq<usize> {
    s.map_values(|g: Add| g.out)
}

/// The outputs of subtraction gates, in order.
pub open spec fn sub_outs(s: Seq<Sub>) -> Seq<usize> {
    s.map_values(|g: Sub| g.out)
}

/// The outputs of multiplication gates, in order.
pub open spec fn mul_outs(s: Seq<Mul>) -> Seq<usize> {
    s.map_values(|g: Mul| g.out)
}

/// The outputs of Poseidon gates, in order.
pub open spec fn poseidon_outs(s: Seq<Poseidon>) -> Seq<usize> {
    s.map_values(|g: Poseidon| g.out)
}

/// A context that grows from one where every variable is yielded once by
/// exactly one new variable, which it yields once.
pub proof fn lemma_yields_once_fresh(new: &Context, old: &Context)
    requires
        old.yields_once(),
        new.circuit.n_vars == old.circuit.n_vars + 1,
        forall|x: usize| #[trigger] new.var_count(x) == old.var_count(x) + if x == old.circuit.n_vars {
            1nat
        } else {
            0nat
        },
    ensures
        new.yields_once(),
{
    assert forall|x: usize| #[trigger] new.var_count(x) == if x < new.circuit.n_vars {
        1nat
    } else {
        0nat
    } by {
        assert(old.var_count(x) == if x < old.circuit.n_vars {
            1nat
        } else {
            0nat
        });
    }
}

/// The lists that yield variables, apart from the one a step pushes to, and
/// the guessed variables, stay as they were.
pub open spec fn same_yield_lists_but(new: &Context, old: &Context, which: int) -> bool {
    &&& which != 0 ==> new.circuit.constants@ == old.circuit.constants@
    &&& which != 1 ==> new.circuit.add@ == old.circuit.add@
    &&& which != 2 ==> new.circuit.sub@ == old.circuit.sub@
    &&& which != 3 ==> new.circuit.mul@ == old.circuit.mul@
    &&& which != 4 ==> new.circuit.poseidon@ == old.circuit.poseidon@
    &&& which != 5 ==> new.guessed@ == old.guessed@
}

/// A step that adds one variable and yields it (or lists it as guessed)
/// keeps every variable yielded once.
pub proof fn lemma_yields_once_step(new: &Context, old: &Context, which: int)
    requires
        old.yields_once(),
        0 <= which <= 5,
        new.circuit.n_vars == old.circuit.n_vars + 1,
        same_yield_lists_but(new, old, which),
        which == 0 ==> new.circuit.constants@ == old.circuit.constants@.push(
            (new.circuit.constants@.last().0, old.circuit.n_vars),
        ),
        which == 1 ==> new.circuit.add@ == old.circuit.add@.push(
            Add { in0: new.circuit.add@.last().in0, in1: new.circuit.add@.last().in1, out: old.circuit.n_vars },
        ),
        which == 2 ==> new.circuit.sub@ == old.circuit.sub@.push(
            Sub { in0: new.circuit.sub@.last().in0, in1: new.circuit.sub@.last().in1, out: old.circuit.n_vars },
        ),
        which == 3 ==> new.circuit.mul@ == old.circuit.mul@.push(
            Mul { in0: new.circuit.mul@.last().in0, in1: new.circuit.mul@.last().in1, out: old.circuit.n_vars },
        ),
        which == 4 ==> new.circuit.poseidon@ == old.circuit.poseidon@.push(
            Poseidon {
                in0: new.circuit.poseidon@.last().in0,
                in1: new.circuit.poseidon@.last().in1,
                out: old.circuit.n_vars,
            },
        ),
        which == 5 ==> new.guessed@ == old.guessed@.push(old.circuit.n_vars),
    ensures
        new.yields_once(),
{
    let n = old.circuit.n_vars;
    assert forall|x: usize| #[trigger] new.var_count(x) == old.var_count(x) + if x == n {
        1nat
    } else {
        0nat
    } by {
        if which == 0 {
            let c = (new.circuit.constants@.last().0, n);
            assert(const_vars(old.circuit.constants@.push(c)) =~= const_vars(old.circuit.constants@).push(n));
            lemma_occurrences_push(const_vars(old.circuit.constants@), n, x);
        } else if which == 1 {
            let g = Add { in0: new.circuit.add@.last().in0, in1: new.circuit.add@.last().in1, out: n };
            assert(add_outs(old.circuit.add@.push(g)) =~= add_outs(old.circuit.add@).push(n));
            lemma_occurrences_push(add_outs(old.circuit.add@), n, x);
        } else if which == 2 {
            let g = Sub { in0: new.circuit.sub@.last().in0, in1: new.circuit.sub@.last().in1, out: n };
            assert(sub_outs(old.circuit.sub@.push(g)) =~= sub_outs(old.circuit.sub@).push(n));
            lemma_occurrences_push(sub_outs(old.circuit.sub@), n, x);
        } else if which == 3 {
            let g = Mul { in0: new.circuit.mul@.last().in0, in1: new.circuit.mul@.last().in1, out: n };
            assert(mul_outs(old.circuit.mul@.push(g)) =~= mul_outs(old.circuit.mul@).push(n));
            lemma_occurrences_push(mul_outs(old.circuit.mul@), n, x);
        } else if which == 4 {
            let g = Poseidon { in0: new.circuit.poseidon@.last().in0, in1: new.circuit.poseidon@.last().in1, out: n };
            assert(poseidon_outs(old.circuit.poseidon@.push(g)) =~= poseidon_outs(old.circuit.poseidon@).push(n));
            lemma_occurrences_push(poseidon_outs(old.circuit.poseidon@), n, x);
        } else {
            lemma_occurrences_push(old.guessed@, n, x);
        }
    }
    lemma_yields_once_fresh(new, old);
}

/// The empty list has no occurrences.
pub proof fn lemma_occurrences_empty(s: Seq<usize>, x: usize)
    requires
        s.len() == 0,
    ensures
        occurrences(s, x) == 0,
{
    broadcast use vstd::seq_lib::group_to_multiset_ensures;

    assert(!s.contains(x));
}

/// How often `x` occurs in `s`.
pub open spec fn occurrences(s: Seq<usize>, x: usize) -> nat {
    s.to_multiset().count(x)
}

/// Pushing `y` adds one occurrence of `y`.
pub proof fn lemma_occurrences_push(s: Seq<usize>, y: usize, x: usize)
    ensures
        occurrences(s.push(y), x) == occurrences(s, x) + if x == y {
            1nat
        } else {
            0nat
        },
{
    broadcast use vstd::seq_lib::group_to_multiset_ensures;
    broadcast use vstd::multiset::group_multiset_axioms;

}

/// Growing is transitive.
pub proof fn lemma_extends_trans(c: &Context, b: &Context, a: &Context)
    requires
        c.extends(b),
        b.extends(a),
    ensures
        c.extends(a),
{
    assert forall|i: int| 0 <= i < a.circuit.constants@.len() implies a.circuit.constants@[i] == #[trigger] c.circuit.constants@[i] by {
        assert(b.circuit.constants@[i] == a.circuit.constants@[i]);
    }
    assert forall|i: int| 0 <= i < a.circuit.add@.len() implies a.circuit.add@[i] == #[trigger] c.circuit.add@[i] by {
        assert(b.circuit.add@[i] == a.circuit.add@[i]);
    }
    assert forall|i: int| 0 <= i < a.circuit.sub@.len() implies a.circuit.sub@[i] == #[trigger] c.circuit.sub@[i] by {
        assert(b.circuit.sub@[i] == a.circuit.sub@[i]);
    }
    assert forall|i: int| 0 <= i < a.circuit.mul@.len() implies a.circuit.mul@[i] == #[trigger] c.circuit.mul@[i] by {
        assert(b.circuit.mul@[i] == a.circuit.mul@[i]);
    }
    assert forall|i: int| 0 <= i < a.circuit.eq@.len() implies a.circuit.eq@[i] == #[trigger] c.circuit.eq@[i] by {
        assert(b.circuit.eq@[i] == a.circuit.eq@[i]);
    }
    assert forall|i: int| 0 <= i < a.circuit.poseidon@.len() implies a.circuit.poseidon@[i] == #[trigger] c.circuit.poseidon@[i] by {
        assert(b.circuit.poseidon@[i] == a.circuit.poseidon@[i]);
    }
    assert forall|i: int| 0 <= i < a.circuit.output@.len() implies a.circuit.output@[i] == #[trigger] c.circuit.output@[i] by {
        assert(b.circuit.output@[i] == a.circuit.output@[i]);
    }
    assert forall|i: int| 0 <= i < a.values@.len() implies a.values@[i] == #[trigger] c.values@[i] by {
        assert(b.values@[i] == a.values@[i]);
    }
}

/// A context grows from itself.
pub proof fn lemma_extends_refl(c: &Context)
    ensures
        c.extends(c),
{
}

/// Variables keep their values when the context grows.
pub proof fn lemma_vals_preserved(new: &Context, old: &Context, st: Seq<Var>)
    requires
        new.extends(old),
        old.has_all(st),
    ensures
        new.has_all(st),
        new.vals(st) == old.vals(st),
{
    assert(new.vals(st) =~= old.vals(st));
}

/// Growing a context without new equality gates keeps whether its equality
/// gates hold.
pub proof fn lemma_eq_holds_preserved(new: &Context, old: &Context)
    requires
        old.wf(),
        new.extends(old),
        new.circuit.eq@ == old.circuit.eq@,
    ensures
        new.circuit.eq_holds(new.values@) == old.circuit.eq_holds(old.values@),
{
    if old.circuit.eq_holds(old.values@) {
        assert forall|k: int| 0 <= k < new.circuit.eq@.len() implies {
            let g = #[trigger] new.circuit.eq@[k];
            new.values@[g.in0 as int] == new.values@[g.in1 as int]
        } by {
            let g = old.circuit.eq@[k];
            assert(old.values@[g.in0 as int] == new.values@[g.in0 as int]);
            assert(old.values@[g.in1 as int] == new.values@[g.in1 as int]);
        }
    }
    if new.circuit.eq_holds(new.values@) {
        assert forall|k: int| 0 <= k < old.circuit.eq@.len() implies {
            let g = #[trigger] old.circuit.eq@[k];
            old.values@[g.in0 as int] == old.values@[g.in1 as int]
        } by {
            let g = new.circuit.eq@[k];
            assert(old.values@[g.in0 as int] == new.values@[g.in0 as int]);
            assert(old.values@[g.in1 as int] == new.values@[g.in1 as int]);
        }
    }
}

/// A well-formed context is valid exactly when its equality gates hold.
pub proof fn lemma_valid_iff_eq_holds(c: &Context)
    requires
        c.wf(),
    ensures
        c.is_valid() == c.circuit.eq_holds(c.values@),
{
}

/// `x + 0 = x` for a canonical `x`.
pub proof fn lemma_add_zero(x: QM31)
    requires
        x.canonical(),
    ensures
        qm31_add(x, embed(M31(0))) == x,
{
    reveal(crate::field::m31_add);
}

impl Context {
    /// The values fit the circuit: one canonical value per variable, every
    /// constant and every computing gate holds. Equality gates may fail.
    pub open spec fn wf(&self) -> bool {
        &&& self.circuit.n_vars == self.values@.len()
        &&& self.circuit.indices_in_range()
        &&& self.circuit.constants_hold(self.values@)
        &&& self.circuit.arith_holds(self.values@)
        &&& forall|i: int| 0 <= i < self.values@.len() ==> (#[trigger] self.values@[i]).canonical()
        &&& forall|k: int| 0 <= k < self.guessed@.len() ==> #[trigger] self.guessed@[k] < self.circuit.n_vars
        &&& forall|k: int|
            0 <= k < self.maybe_unused@.len() ==> #[trigger] self.maybe_unused@[k] < self.circuit.n_vars
    }

    pub open spec fn has(&self, v: Var) -> bool {
        v.idx < self.values@.len()
    }

    pub open spec fn val(&self, v: Var) -> QM31 {
        self.values@[v.idx as int]
    }

    /// Every gate, constant and value of `old` is still there.
    pub open spec fn extends(&self, old: &Context) -> bool {
        &&& self.circuit.extends(&old.circuit)
        &&& is_prefix(old.values@, self.values@)
    }

    /// Each list of gates is that of `old`.
    pub open spec fn same_gates(&self, old: &Context) -> bool {
        &&& self.circuit.add@ == old.circuit.add@
        &&& self.circuit.sub@ == old.circuit.sub@
        &&& self.circuit.mul@ == old.circuit.mul@
        &&& self.circuit.eq@ == old.circuit.eq@
        &&& self.circuit.poseidon@ == old.circuit.poseidon@
        &&& self.circuit.output@ == old.circuit.output@
    }

    /// Variable `i` is a constant, is guessed, or is yielded by an addition,
    /// subtraction or multiplication gate.
    pub open spec fn var_sourced(&self, i: usize) -> bool {
        ||| exists|k: int| 0 <= k < self.circuit.constants@.len() && #[trigger] self.circuit.constants@[k].1 == i
        ||| exists|k: int| 0 <= k < self.guessed@.len() && #[trigger] self.guessed@[k] == i
        ||| exists|k: int| 0 <= k < self.circuit.add@.len() && #[trigger] self.circuit.add@[k].out == i
        ||| exists|k: int| 0 <= k < self.circuit.sub@.len() && #[trigger] self.circuit.sub@[k].out == i
        ||| exists|k: int| 0 <= k < self.circuit.mul@.len() && #[trigger] self.circuit.mul@[k].out == i
    }

    /// How often `x` is yielded by a constant or a gate, or listed as guessed.
    pub open spec fn var_count(&self, x: usize) -> nat {
        occurrences(const_vars(self.circuit.constants@), x) + occurrences(add_outs(self.circuit.add@), x)
            + occurrences(sub_outs(self.circuit.sub@), x) + occurrences(mul_outs(self.circuit.mul@), x)
            + occurrences(poseidon_outs(self.circuit.poseidon@), x) + occurrences(self.guessed@, x)
    }

    /// Every variable is yielded by exactly one constant or gate, or is
    /// guessed (and then yielded by none), and nothing else is.
    pub open spec fn yields_once(&self) -> bool {
        forall|x: usize| #[trigger] self.var_count(x) == if x < self.circuit.n_vars {
            1nat
        } else {
            0nat
        }
    }

    /// Every variable is a constant, guessed, or yielded by a computing gate.
    pub open spec fn sourced(&self) -> bool {
        forall|i: usize| i < self.circuit.n_vars ==> #[trigger] self.var_sourced(i)
    }

    /// Only variables, constants, and addition and multiplication gates were
    /// added to `old`, each new variable a constant or yielded by a gate.
    pub open spec fn computes_from(&self, old: &Context) -> bool {
        &&& old.sourced() ==> self.sourced()
        &&& self.circuit.sub@ == old.circuit.sub@
        &&& old.yields_once() ==> self.yields_once()
        &&& self.wf()
        &&& self.extends(old)
        &&& self.guessed@ == old.guessed@
        &&& self.circuit.eq@ == old.circuit.eq@
        &&& self.circuit.output@ == old.circuit.output@
        &&& self.circuit.poseidon@ == old.circuit.poseidon@
    }

    /// Every variable of `st` is one of the context's.
    pub open spec fn has_all(&self, st: Seq<Var>) -> bool {
        forall|k: int| 0 <= k < st.len() ==> #[trigger] st[k].idx < self.values@.len()
    }

    /// The values of the variables of `st`.
    pub open spec fn vals(&self, st: Seq<Var>) -> Seq<QM31> {
        Seq::new(st.len(), |k: int| self.values@[st[k].idx as int])
    }

    /// Every variable is read by a gate, is a constant, is listed as maybe
    /// unused, or is the result of an addition, subtraction or multiplication
    /// (which a gadget may compute and not need).
    pub open spec fn vars_used(&self) -> bool {
        let srcs = self.circuit.reads() + self.circuit.constants@.map_values(|c: (QM31, usize)| c.1)
            + self.maybe_unused@ + self.circuit.add@.map_values(|g: Add| g.out) + self.circuit.sub@.map_values(
            |g: crate::circuit::Sub| g.out,
        ) + self.circuit.mul@.map_values(|g: crate::circuit::Mul| g.out);
        forall|i: int| 0 <= i < self.circuit.n_vars ==> #[trigger] srcs.contains(i as usize)
    }

    /// Variable `idx` is the constant `value`.
    pub open spec fn is_constant_var(&self, idx: usize, value: QM31) -> bool {
        exists|k: int| 0 <= k < self.circuit.constants@.len() && #[trigger] self.circuit.constants@[k] == (value, idx)
    }

    /// `value` is the value of one of the constants.
    pub open spec fn has_constant(&self, value: QM31) -> bool {
        exists|k: int| 0 <= k < self.circuit.constants@.len() && #[trigger] self.circuit.constants@[k].0 == value
    }

    /// `v` gives each variable a value under which every constant and every
    /// computing gate holds; the context's own values are one such `v`.
    pub open spec fn computes(&self, v: Seq<QM31>) -> bool {
        &&& v.len() == self.circuit.n_vars
        &&& self.circuit.constants_hold(v)
        &&& self.circuit.arith_holds(v)
    }

    /// Every gate and constant holds.
    pub open spec fn is_valid(&self) -> bool {
        self.circuit.satisfied_by(self.values@)
    }

    /// An empty circuit.
    pub fn new() -> (r: Context)
        ensures
            r.wf(),
            r.values@.len() == 0,
            r.circuit.constants@.len() == 0,
            r.circuit.add@.len() == 0,
            r.circuit.sub@.len() == 0,
            r.circuit.mul@.len() == 0,
            r.circuit.eq@.len() == 0,
            r.circuit.poseidon@.len() == 0,
            r.circuit.output@.len() == 0,
            r.guessed@.len() == 0,
            r.maybe_unused@.len() == 0,
            r.sourced(),
            r.yields_once(),
    {
        let r = Context {
            circuit: Circuit {
                n_vars: 0,
                constants: Vec::new(),
                add: Vec::new(),
                sub: Vec::new(),
                mul: Vec::new(),
                eq: Vec::new(),
                poseidon: Vec::new(),
                output: Vec::new(),
            },
            values: Vec::new(),
            guessed: Vec::new(),
            maybe_unused: Vec::new(),
        };
        assert forall|x: usize| #[trigger] r.var_count(x) == 0 by {
            lemma_occurrences_empty(const_vars(r.circuit.constants@), x);
            lemma_occurrences_empty(add_outs(r.circuit.add@), x);
            lemma_occurrences_empty(sub_outs(r.circuit.sub@), x);
            lemma_occurrences_empty(mul_outs(r.circuit.mul@), x);
            lemma_occurrences_empty(poseidon_outs(r.circuit.poseidon@), x);
            lemma_occurrences_empty(r.guessed@, x);
        }
        r
    }

    /// Adds a variable with value `value`, which no gate constrains yet.
    pub fn new_var(&mut self, value: QM31) -> (r: Var)
        requires
            old(self).wf(),
            value.canonical(),
        ensures
            final(self).wf(),
            final(self).extends(old(self)),
            final(self).same_gates(old(self)),
            final(self).circuit.constants@ == old(self).circuit.constants@,
            final(self).values@ == old(self).values@.push(value),
            final(self).guessed@ == old(self).guessed@,
            final(self).maybe_unused@ == old(self).maybe_unused@,
            r.idx == old(self).values@.len(),
            final(self).val(r) == value,
    {
        let idx = self.values.len();
        self.values.push(value);
        self.circuit.n_vars = self.values.len();
        Var { idx }
    }

    /// The value of `v`.
    pub fn get(&self, v: Var) -> (r: QM31)
        requires
            self.has(v),
        ensures
            r == self.val(v),
    {
        self.values[v.idx]
    }

    /// The values of all variables, by index.
    pub fn values(&self) -> (r: &Vec<QM31>)
        ensures
            r@ == self.values@,
    {
        &self.values
    }

    /// The constants of the circuit as `(value, variable)` pairs, in the order
    /// in which they were first used.
    pub fn constants(&self) -> (r: &Vec<(QM31, usize)>)
        ensures
            r@ == self.circuit.constants@,
    {
        &self.circuit.constants
    }

    /// The variable fixed to `value`, made a new constant the first time.
    pub fn constant(&mut self, value: QM31) -> (r: Var)
        requires
            old(self).wf(),
            value.canonical(),
        ensures
            final(self).wf(),
            final(self).extends(old(self)),
            final(self).same_gates(old(self)),
            final(self).guessed@ == old(self).guessed@,
            final(self).has(r),
            final(self).val(r) == value,
            final(self).circuit.constants@.len() <= old(self).circuit.constants@.len() + 1,
            final(self).values@.len() <= old(self).values@.len() + 1,
            exists|k: int|
                0 <= k < final(self).circuit.constants@.len() && #[trigger] final(self).circuit.constants@[k]
                    == (value, r.idx),
            (exists|k: int| 0 <= k < old(self).circuit.constants@.len() && #[trigger] old(self).circuit.constants@[k].0 == value)
                ==> {
                &&& *final(self) == *old(self)
                &&& exists|k: int|
                    0 <= k < old(self).circuit.constants@.len() && #[trigger] old(self).circuit.constants@[k] == (
                        value,
                        r.idx,
                    ) && forall|l: int| 0 <= l < k ==> #[trigger] old(self).circuit.constants@[l].0 != value
            },
            (forall|k: int| 0 <= k < old(self).circuit.constants@.len() ==> #[trigger] old(self).circuit.constants@[k].0 != value)
                ==> {
                &&& r.idx == old(self).values@.len()
                &&& final(self).values@ == old(self).values@.push(value)
                &&& final(self).circuit.constants@ == old(self).circuit.constants@.push((value, r.idx))
                &&& final(self).maybe_unused@ == old(self).maybe_unused@
            },
            old(self).sourced() ==> final(self).sourced(),
            old(self).yields_once() ==> final(self).yields_once(),
            forall|d: Context, v: Seq<QM31>|
                #![trigger d.extends(final(self)), d.computes(v)]
                d.extends(final(self)) && d.computes(v) ==> v[r.idx as int] == value,
    {
        let n = self.circuit.constants.len();
        for k in 0..n
            invariant
                *self == *old(self),
                self.wf(),
                n == self.circuit.constants@.len(),
                forall|l: int| 0 <= l < k ==> #[trigger] self.circuit.constants@[l].0 != value,
        {
            if self.circuit.constants[k].0 == value {
                let r = Var { idx: self.circuit.constants[k].1 };
                assert(self.circuit.constants@[k as int] == (value, r.idx));
                assert forall|d: Context, v: Seq<QM31>| d.extends(self) && d.computes(v) implies v[r.idx as int] == value by {
                    assert(d.circuit.constants@[k as int] == self.circuit.constants@[k as int]);
                    assert(d.circuit.constants@[k as int].1 == r.idx);
                }
                return r;
            }
            assert(self.circuit.constants@[k as int].0 != value);
        }
        let r = self.new_var(value);
        self.circuit.constants.push((value, r.idx));
        assert(self.circuit.constants@[n as int] == (value, r.idx));
        assert forall|d: Context, v: Seq<QM31>| d.extends(self) && d.computes(v) implies v[r.idx as int] == value by {
            assert(d.circuit.constants@[n as int] == self.circuit.constants@[n as int]);
            assert(d.circuit.constants@[n as int].1 == r.idx);
        }
        proof {
            if old(self).yields_once() {
                lemma_yields_once_step(self, old(self), 0);
            }
            if old(self).sourced() {
                assert(self.circuit.constants@[n as int].1 == r.idx);
                assert(self.var_sourced(r.idx));
                lemma_sourced_grows(self, old(self));
            }
        }
        r
    }

    /// The constant zero.
    pub fn zero(&mut self) -> (r: Var)
        requires
            old(self).wf(),
        ensures
            final(self).wf(),
            final(self).extends(old(self)),
            final(self).same_gates(old(self)),
            final(self).guessed@ == old(self).guessed@,
            final(self).has(r),
            final(self).val(r) == embed(M31(0)),
            final(self).circuit.constants@.len() <= old(self).circuit.constants@.len() + 1,
            final(self).values@.len() <= old(self).values@.len() + 1,
            old(self).has_constant(embed(M31(0))) ==> *final(self) == *old(self),
            !old(self).has_constant(embed(M31(0))) ==> {
                &&& r.idx == old(self).values@.len()
                &&& final(self).values@ == old(self).values@.push(embed(M31(0)))
                &&& final(self).circuit.constants@ == old(self).circuit.constants@.push((embed(M31(0)), r.idx))
                &&& final(self).maybe_unused@ == old(self).maybe_unused@
            },
            final(self).has_constant(embed(M31(0))),
            final(self).is_constant_var(r.idx, embed(M31(0))),
            old(self).sourced() ==> final(self).sourced(),
            old(self).yields_once() ==> final(self).yields_once(),
            forall|d: Context, v: Seq<QM31>|
                #![trigger d.extends(final(self)), d.computes(v)]
                d.extends(final(self)) && d.computes(v) ==> v[r.idx as int] == embed(M31(0)),
    {
        let z = QM31::zero();
        let r = self.constant(z);
        proof {
            let k = choose|k: int|
                0 <= k < self.circuit.constants@.len() && #[trigger] self.circuit.constants@[k] == (z, r.idx);
            assert(self.circuit.constants@[k].0 == z);
        }
        r
    }

    /// The constant one.
    pub fn one(&mut self) -> (r: Var)
        requires
            old(self).wf(),
        ensures
            final(self).wf(),
            final(self).extends(old(self)),
            final(self).same_gates(old(self)),
            final(self).guessed@ == old(self).guessed@,
            final(self).has(r),
            final(self).val(r) == embed(M31(1)),
            final(self).is_constant_var(r.idx, embed(M31(1))),
            old(self).sourced() ==> final(self).sourced(),
            old(self).yields_once() ==> final(self).yields_once(),
            forall|d: Context, v: Seq<QM31>|
                #![trigger d.extends(final(self)), d.computes(v)]
                d.extends(final(self)) && d.computes(v) ==> v[r.idx as int] == embed(M31(1)),
    {
        self.constant(QM31::one())
    }

    /// Lists `v` among the variables that need not be read by any gate.
    pub fn mark_as_maybe_unused(&mut self, v: &Var)
        requires
            old(self).wf(),
            old(self).has(*v),
        ensures
            final(self).wf(),
            final(self).extends(old(self)),
            final(self).same_gates(old(self)),
            final(self).values@ == old(self).values@,
            final(self).maybe_unused@ == old(self).maybe_unused@.push(v.idx),
    {
        self.maybe_unused.push(v.idx);
    }

    /// Makes a gate yield each guessed variable: `v = v + 0`, which holds for
    /// every value of `v`.
    pub fn finalize_guessed_vars(&mut self)
        requires
            old(self).wf(),
        ensures
            final(self).wf(),
            final(self).extends(old(self)),
            final(self).values@.len() <= old(self).values@.len() + 1,
            final(self).guessed@.len() == 0,
            final(self).circuit.add@.len() == old(self).circuit.add@.len() + old(self).guessed@.len(),
            final(self).circuit.sub@ == old(self).circuit.sub@,
            final(self).circuit.mul@ == old(self).circuit.mul@,
            final(self).circuit.eq@ == old(self).circuit.eq@,
            final(self).circuit.poseidon@ == old(self).circuit.poseidon@,
            final(self).circuit.output@ == old(self).circuit.output@,
            old(self).sourced() ==> final(self).sourced(),
            old(self).yields_once() ==> final(self).yields_once(),
            forall|j: int|
                0 <= j < old(self).guessed@.len() ==> {
                    let g = #[trigger] final(self).circuit.add@[old(self).circuit.add@.len() + j];
                    &&& g.in0 == old(self).guessed@[j]
                    &&& g.out == old(self).guessed@[j]
                    &&& final(self).is_constant_var(g.in1, embed(M31(0)))
                },
    {
        let zero = self.zero();
        let ghost c0 = *self;
        let ghost c1 = self.circuit.add@;
        let n = self.guessed.len();
        proof {
            assert forall|x: usize| #[trigger] occurrences(add_outs(c0.circuit.add@), x) == occurrences(add_outs(c0.circuit.add@), x) + occurrences(c0.guessed@.take(0), x) by {
                lemma_occurrences_empty(c0.guessed@.take(0), x);
            }
        }
        for k in 0..n
            invariant
                self.wf(),
                self.extends(old(self)),
                self.values@.len() <= old(self).values@.len() + 1,
                self.has(zero),
                self.val(zero) == embed(M31(0)),
                n == self.guessed@.len(),
                self.circuit.add@.len() == old(self).circuit.add@.len() + k,
                self.circuit.sub@ == old(self).circuit.sub@,
                self.circuit.mul@ == old(self).circuit.mul@,
                self.circuit.eq@ == old(self).circuit.eq@,
                self.circuit.poseidon@ == old(self).circuit.poseidon@,
                self.circuit.output@ == old(self).circuit.output@,
                self.extends(&c0),
                self.guessed@ == c0.guessed@,
                self.values@ == c0.values@,
                self.circuit.constants@ == c0.circuit.constants@,
                self.circuit.add@.len() == c0.circuit.add@.len() + k,
                forall|j: int| 0 <= j < k ==> #[trigger] self.circuit.add@[c0.circuit.add@.len() + j] == (Add { in0: c0.guessed@[j], in1: zero.idx, out: c0.guessed@[j] }),
                self.is_constant_var(zero.idx, embed(M31(0))),
                forall|x: usize| #[trigger] occurrences(add_outs(self.circuit.add@), x) == occurrences(add_outs(c0.circuit.add@), x) + occurrences(c0.guessed@.take(k as int), x),
        {
            let v = self.guessed[k];
            proof {
                lemma_add_zero(self.values@[v as int]);
            }
            let ghost a0 = self.circuit.add@;
            self.circuit.add.push(Add { in0: v, in1: zero.idx, out: v });
            assert forall|x: usize| #[trigger] occurrences(add_outs(self.circuit.add@), x) == occurrences(add_outs(c0.circuit.add@), x) + occurrences(c0.guessed@.take(k + 1), x) by {
                assert(add_outs(self.circuit.add@) =~= add_outs(a0).push(v));
                lemma_occurrences_push(add_outs(a0), v, x);
                assert(c0.guessed@.take(k + 1) =~= c0.guessed@.take(k as int).push(v));
                lemma_occurrences_push(c0.guessed@.take(k as int), v, x);
            }
        }

        let ghost c1 = *self;
        self.guessed = Vec::new();
        proof {
            if old(self).yields_once() {
                assert(c0.yields_once());
                assert(c0.guessed@.take(n as int) =~= c0.guessed@);
                assert forall|x: usize| #[trigger] self.var_count(x) == c0.var_count(x) by {
                    lemma_occurrences_empty(self.guessed@, x);
                }
            }
            if old(self).sourced() {
                assert(c0.sourced());
                assert forall|i: usize| i < self.circuit.n_vars implies #[trigger] self.var_sourced(i) by {
                    assert(c0.var_sourced(i));
                    if exists|k: int| 0 <= k < c0.guessed@.len() && #[trigger] c0.guessed@[k] == i {
                        let k = choose|k: int| 0 <= k < c0.guessed@.len() && #[trigger] c0.guessed@[k] == i;
                        assert(self.circuit.add@[c0.circuit.add@.len() + k].out == i);
                    } else {
                        lemma_var_sourced_grows(&c1, &c0, i);
                        if exists|k: int| 0 <= k < c1.circuit.constants@.len() && #[trigger] c1.circuit.constants@[k].1 == i {
                        } else if exists|k: int| 0 <= k < c1.circuit.add@.len() && #[trigger] c1.circuit.add@[k].out == i {
                        } else if exists|k: int| 0 <= k < c1.circuit.sub@.len() && #[trigger] c1.circuit.sub@[k].out == i {
                        } else {
                            assert(exists|k: int| 0 <= k < c1.circuit.mul@.len() && #[trigger] c1.circuit.mul@[k].out == i) by {
                                if exists|k: int| 0 <= k < c0.circuit.mul@.len() && #[trigger] c0.circuit.mul@[k].out == i {
                                    let k = choose|k: int| 0 <= k < c0.circuit.mul@.len() && #[trigger] c0.circuit.mul@[k].out == i;
                                    assert(c1.circuit.mul@[k] == c0.circuit.mul@[k]);
                                }
                            }
                        }
                    }
                }
            }
        }
    }

    /// Whether every variable is read by a gate, is a constant, is listed as
    /// maybe unused, or is the output of an addition, subtraction or
    /// multiplication gate (`vars_used`).
    pub fn check_vars_used(&self) -> (r: bool)
        ensures
            r == self.vars_used(),
    {
        let mut srcs = self.circuit.read_vars();
        let ghost r0 = srcs@;
        for k in 0..self.circuit.constants.len()
            invariant
                srcs@ == r0 + self.circuit.constants@.subrange(0, k as int).map_values(|c: (QM31, usize)| c.1),
        {
            srcs.push(self.circuit.constants[k].1);
            assert(self.circuit.constants@.subrange(0, k + 1).map_values(|c: (QM31, usize)| c.1) =~= self.circuit.constants@.subrange(0, k as int).map_values(|c: (QM31, usize)| c.1).push(self.circuit.constants@[k as int].1));
        }
        assert(self.circuit.constants@.subrange(0, self.circuit.constants@.len() as int) =~= self.circuit.constants@);
        let ghost r1 = srcs@;
        for k in 0..self.maybe_unused.len()
            invariant
                srcs@ == r1 + self.maybe_unused@.subrange(0, k as int),
        {
            srcs.push(self.maybe_unused[k]);
            assert(self.maybe_unused@.subrange(0, k + 1) =~= self.maybe_unused@.subrange(0, k as int).push(self.maybe_unused@[k as int]));
        }
        assert(self.maybe_unused@.subrange(0, self.maybe_unused@.len() as int) =~= self.maybe_unused@);
        let ghost q0 = srcs@;
        for k in 0..self.circuit.add.len()
            invariant
                srcs@ == q0 + self.circuit.add@.subrange(0, k as int).map_values(|g: Add| g.out),
        {
            srcs.push(self.circuit.add[k].out);
            assert(self.circuit.add@.subrange(0, k + 1).map_values(|g: Add| g.out) =~= self.circuit.add@.subrange(0, k as int).map_values(|g: Add| g.out).push(self.circuit.add@[k as int].out));
        }
        assert(self.circuit.add@.subrange(0, self.circuit.add@.len() as int) =~= self.circuit.add@);
        let ghost q1 = srcs@;
        for k in 0..self.circuit.sub.len()
            invariant
                srcs@ == q1 + self.circuit.sub@.subrange(0, k as int).map_values(|g: crate::circuit::Sub| g.out),
        {
            srcs.push(self.circuit.sub[k].out);
            assert(self.circuit.sub@.subrange(0, k + 1).map_values(|g: crate::circuit::Sub| g.out) =~= self.circuit.sub@.subrange(0, k as int).map_values(|g: crate::circuit::Sub| g.out).push(self.circuit.sub@[k as int].out));
        }
        assert(self.circuit.sub@.subrange(0, self.circuit.sub@.len() as int) =~= self.circuit.sub@);
        let ghost q2 = srcs@;
        for k in 0..self.circuit.mul.len()
            invariant
                srcs@ == q2 + self.circuit.mul@.subrange(0, k as int).map_values(|g: crate::circuit::Mul| g.out),
        {
            srcs.push(self.circuit.mul[k].out);
            assert(self.circuit.mul@.subrange(0, k + 1).map_values(|g: crate::circuit::Mul| g.out) =~= self.circuit.mul@.subrange(0, k as int).map_values(|g: crate::circuit::Mul| g.out).push(self.circuit.mul@[k as int].out));
        }
        assert(self.circuit.mul@.subrange(0, self.circuit.mul@.len() as int) =~= self.circuit.mul@);
        assert(srcs@ =~= self.circuit.reads() + self.circuit.constants@.map_values(|c: (QM31, usize)| c.1)
            + self.maybe_unused@ + self.circuit.add@.map_values(|g: Add| g.out) + self.circuit.sub@.map_values(
            |g: crate::circuit::Sub| g.out,
        ) + self.circuit.mul@.map_values(|g: crate::circuit::Mul| g.out));
        crate::circuit::covers(&srcs, self.circuit.n_vars)
    }

    /// Whether every gate and constant holds.
    pub fn is_circuit_valid(&self) -> (r: bool)
        requires
            self.wf(),
        ensures
            r == self.is_valid(),
    {
        let n = self.circuit.eq.len();
        for k in 0..n
            invariant
                self.wf(),
                n == self.circuit.eq@.len(),
                forall|l: int|
                    0 <= l < k ==> {
                        let g = #[trigger] self.circuit.eq@[l];
                        self.values@[g.in0 as int] == self.values@[g.in1 as int]
                    },
        {
            let g = self.circuit.eq[k];
            if self.values[g.in0] != self.values[g.in1] {
                return false;
            }
        }
        true
    }
}

impl Default for Context {
    fn default() -> (r: Context)
        ensures
            r.wf(),
            r.values@.len() == 0,
            r.circuit.constants@.len() == 0,
            r.circuit.add@.len() == 0,
            r.circuit.sub@.len() == 0,
            r.circuit.mul@.len() == 0,
            r.circuit.eq@.len() == 0,
            r.circuit.poseidon@.len() == 0,
            r.circuit.output@.len() == 0,
            r.guessed@.len() == 0,
            r.maybe_unused@.len() == 0,
    {
        Context::new()
    }
}

} // verus!
