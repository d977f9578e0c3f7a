//! The gates of an arithmetic circuit over QM31 and what it means for an
//! assignment of values to the circuit's variables to satisfy them.
use crate::field::{qm31_add, qm31_mul, qm31_of, qm31_sub, QM31};
use crate::poseidon2::qm31_pair_state;
use crate::poseidon_hash::{m31_ops, permutation};
use vstd::prelude::*;

verus! {

/// `out = in0 + in1`.
#[derive(Clone, Copy, Debug)]
pub struct Add {
    pub in0: usize,
    pub in1: usize,
    pub out: usize,
}

/// `out = in0 - in1`.
#[derive(Clone, Copy, Debug)]
pub struct Sub {
    pub in0: usize,
    pub in1: usize,
    pub out: usize,
}

/// `out = in0 * in1`.
#[derive(Clone, Copy, Debug)]
pub struct Mul {
    pub in0: usize,
    pub in1: usize,
    pub out: usize,
}

/// `in0 = in1`.
#[derive(Clone, Copy, Debug)]
pub struct Eq {
    pub in0: usize,
    pub in1: usize,
}

/// `out = poseidon2(in0, in1)`, see `poseidon_gate_output`.
#[derive(Clone, Copy, Debug)]
pub struct Poseidon {
    pub in0: usize,
    pub in1: usize,
    pub out: usize,
}

/// `in0` is a public output.
#[derive(Clone, Copy, Debug)]
pub struct Output {
    pub in0: usize,
}

/// A circuit over `n_vars` variables. Each constant `(value, var)` fixes the
/// variable `var` to `value`.
pub struct Circuit {
    pub n_vars: usize,
    pub constants: Vec<(QM31, usize)>,
    pub add: Vec<Add>,
    pub sub: Vec<Sub>,
    pub mul: Vec<Mul>,
    pub eq: Vec<Eq>,
    pub poseidon: Vec<Poseidon>,
    pub output: Vec<Output>,
}

/// What a Poseidon gate outputs: the first four elements of the permuted
/// state that holds the eight coordinates of its inputs, as one extension
/// element.
pub open spec fn poseidon_gate_output(a: QM31, b: QM31) -> QM31 {
    let s = permutation(m31_ops(), qm31_pair_state(a, b));
    qm31_of(s[0], s[1], s[2], s[3])
}

/// `a` is a prefix of `b`.
pub open spec fn is_prefix<T>(a: Seq<T>, b: Seq<T>) -> bool {
    &&& a.len() <= b.len()
    &&& forall|i: int| 0 <= i < a.len() ==> a[i] == #[trigger] b[i]
}

impl Circuit {
    /// Every variable that a gate or a constant names is one of the circuit's.
    pub open spec fn indices_in_range(&self) -> bool {
        let n = self.n_vars;
        &&& forall|k: int| 0 <= k < self.constants@.len() ==> #[trigger] self.constants@[k].1 < n
        &&& forall|k: int|
            0 <= k < self.add@.len() ==> {
                let g = #[trigger] self.add@[k];
                g.in0 < n && g.in1 < n && g.out < n
            }
        &&& forall|k: int|
            0 <= k < self.sub@.len() ==> {
                let g = #[trigger] self.sub@[k];
                g.in0 < n && g.in1 < n && g.out < n
            }
        &&& forall|k: int|
            0 <= k < self.mul@.len() ==> {
                let g = #[trigger] self.mul@[k];
                g.in0 < n && g.in1 < n && g.out < n
            }
        &&& forall|k: int|
            0 <= k < self.eq@.len() ==> {
                let g = #[trigger] self.eq@[k];
                g.in0 < n && g.in1 < n
            }
        &&& forall|k: int|
            0 <= k < self.poseidon@.len() ==> {
                let g = #[trigger] self.poseidon@[k];
                g.in0 < n && g.in1 < n && g.out < n
            }
        &&& forall|k: int| 0 <= k < self.output@.len() ==> #[trigger] self.output@[k].in0 < n
    }

    /// The gates that compute a value (add, sub, mul, Poseidon) hold under `v`.
    pub open spec fn arith_holds(&self, v: Seq<QM31>) -> bool {
        &&& forall|k: int|
            0 <= k < self.add@.len() ==> {
                let g = #[trigger] self.add@[k];
                v[g.out as int] == qm31_add(v[g.in0 as int], v[g.in1 as int])
            }
        &&& forall|k: int|
            0 <= k < self.sub@.len() ==> {
                let g = #[trigger] self.sub@[k];
                v[g.out as int] == qm31_sub(v[g.in0 as int], v[g.in1 as int])
            }
        &&& forall|k: int|
            0 <= k < self.mul@.len() ==> {
                let g = #[trigger] self.mul@[k];
                v[g.out as int] == qm31_mul(v[g.in0 as int], v[g.in1 as int])
            }
        &&& forall|k: int|
            0 <= k < self.poseidon@.len() ==> {
                let g = #[trigger] self.poseidon@[k];
                v[g.out as int] == poseidon_gate_output(v[g.in0 as int], v[g.in1 as int])
            }
    }

    /// The equality gates hold under `v`.
    pub open spec fn eq_holds(&self, v: Seq<QM31>) -> bool {
        forall|k: int|
            0 <= k < self.eq@.len() ==> {
                let g = #[trigger] self.eq@[k];
                v[g.in0 as int] == v[g.in1 as int]
            }
    }

    /// Every constant variable has its value under `v`, and no value is a
    /// constant twice.
    pub open spec fn constants_hold(&self, v: Seq<QM31>) -> bool {
        &&& forall|k: int|
            0 <= k < self.constants@.len() ==> v[#[trigger] self.constants@[k].1 as int]
                == self.constants@[k].0
        &&& forall|k: int, l: int|
            0 <= k < self.constants@.len() && 0 <= l < self.constants@.len() && k != l
                ==> #[trigger] self.constants@[k].0 != #[trigger] self.constants@[l].0
    }

    /// `v` satisfies every gate and constant of the circuit.
    pub open spec fn satisfied_by(&self, v: Seq<QM31>) -> bool {
        &&& v.len() == self.n_vars
        &&& self.indices_in_range()
        &&& self.constants_hold(v)
        &&& self.arith_holds(v)
        &&& self.eq_holds(v)
    }

    /// `old`'s constants and gates are the first ones of `self`.
    pub open spec fn extends(&self, old: &Circuit) -> bool {
        &&& old.n_vars <= self.n_vars
        &&& is_prefix(old.constants@, self.constants@)
        &&& is_prefix(old.add@, self.add@)
        &&& is_prefix(old.sub@, self.sub@)
        &&& is_prefix(old.mul@, self.mul@)
        &&& is_prefix(old.eq@, self.eq@)
        &&& is_prefix(old.poseidon@, self.poseidon@)
        &&& is_prefix(old.output@, self.output@)
    }
}

impl Circuit {
    /// The variables that the constants and the computing gates yield, in order.
    pub open spec fn yields(&self) -> Seq<usize> {
        self.constants@.map_values(|c: (QM31, usize)| c.1) + self.add@.map_values(|g: Add| g.out)
            + self.sub@.map_values(|g: Sub| g.out) + self.mul@.map_values(|g: Mul| g.out)
            + self.poseidon@.map_values(|g: Poseidon| g.out)
    }

    /// Every variable is yielded, and none twice.
    pub open spec fn yields_each_var_once(&self) -> bool {
        &&& forall|i: int| 0 <= i < self.n_vars ==> #[trigger] self.yields().contains(i as usize)
        &&& self.yields().no_duplicates()
    }

    /// Whether every variable is yielded exactly once.
    pub fn check_yields(&self) -> (r: bool)
        requires
            self.indices_in_range(),
        ensures
            r == self.yields_each_var_once(),
    {
        let n = self.n_vars;
        let mut ys: Vec<usize> = Vec::new();
        for k in 0..self.constants.len()
            invariant
                ys@ == self.constants@.subrange(0, k as int).map_values(|c: (QM31, usize)| c.1),
        {
            ys.push(self.constants[k].1);
            assert(self.constants@.subrange(0, k + 1).map_values(|c: (QM31, usize)| c.1) =~= self.constants@.subrange(0, k as int).map_values(|c: (QM31, usize)| c.1).push(self.constants@[k as int].1));
        }
        let ghost y0 = ys@;
        for k in 0..self.add.len()
            invariant
                ys@ == y0 + self.add@.subrange(0, k as int).map_values(|g: Add| g.out),
        {
            ys.push(self.add[k].out);
            assert(self.add@.subrange(0, k + 1).map_values(|g: Add| g.out) =~= self.add@.subrange(0, k as int).map_values(|g: Add| g.out).push(self.add@[k as int].out));
        }
        let ghost y1 = ys@;
        for k in 0..self.sub.len()
            invariant
                ys@ == y1 + self.sub@.subrange(0, k as int).map_values(|g: Sub| g.out),
        {
            ys.push(self.sub[k].out);
            assert(self.sub@.subrange(0, k + 1).map_values(|g: Sub| g.out) =~= self.sub@.subrange(0, k as int).map_values(|g: Sub| g.out).push(self.sub@[k as int].out));
        }
        let ghost y2 = ys@;
        for k in 0..self.mul.len()
            invariant
                ys@ == y2 + self.mul@.subrange(0, k as int).map_values(|g: Mul| g.out),
        {
            ys.push(self.mul[k].out);
            assert(self.mul@.subrange(0, k + 1).map_values(|g: Mul| g.out) =~= self.mul@.subrange(0, k as int).map_values(|g: Mul| g.out).push(self.mul@[k as int].out));
        }
        let ghost y3 = ys@;
        for k in 0..self.poseidon.len()
            invariant
                ys@ == y3 + self.poseidon@.subrange(0, k as int).map_values(|g: Poseidon| g.out),
        {
            ys.push(self.poseidon[k].out);
            assert(self.poseidon@.subrange(0, k + 1).map_values(|g: Poseidon| g.out) =~= self.poseidon@.subrange(0, k as int).map_values(|g: Poseidon| g.out).push(self.poseidon@[k as int].out));
        }
        assert(self.constants@.subrange(0, self.constants@.len() as int) =~= self.constants@);
        assert(self.add@.subrange(0, self.add@.len() as int) =~= self.add@);
        assert(self.sub@.subrange(0, self.sub@.len() as int) =~= self.sub@);
        assert(self.mul@.subrange(0, self.mul@.len() as int) =~= self.mul@);
        assert(self.poseidon@.subrange(0, self.poseidon@.len() as int) =~= self.poseidon@);
        assert(ys@ =~= self.yields());
        assert forall|j: int| 0 <= j < ys@.len() implies #[trigger] ys@[j] < n by {
            let lc = self.constants@.len() as int;
            let la = self.add@.len() as int;
            let ls = self.sub@.len() as int;
            let lm = self.mul@.len() as int;
            if j < lc {
            } else if j < lc + la {
                assert(self.add@[j - lc].out < n);
            } else if j < lc + la + ls {
                assert(self.sub@[j - lc - la].out < n);
            } else if j < lc + la + ls + lm {
                assert(self.mul@[j - lc - la - ls].out < n);
            } else {
                assert(self.poseidon@[j - lc - la - ls - lm].out < n);
            }
        }
        all_covered_once(&ys, n)
    }
}

/// Whether `ys` names each of `0 .. n` and none twice (every entry is below `n`).
fn all_covered_once(ys: &Vec<usize>, n: usize) -> (r: bool)
    requires
        forall|j: int| 0 <= j < ys@.len() ==> #[trigger] ys@[j] < n,
    ensures
        r == ((forall|i: int| 0 <= i < n ==> #[trigger] ys@.contains(i as usize)) && ys@.no_duplicates()),
{
    let mut seen: Vec<bool> = Vec::new();
    for i in 0..n
        invariant
            seen@ == Seq::new(i as nat, |k: int| false),
    {
        seen.push(false);
    }
    for j in 0..ys.len()
        invariant
            seen@.len() == n,
            forall|j2: int| 0 <= j2 < ys@.len() ==> #[trigger] ys@[j2] < n,
            forall|i: int| 0 <= i < n ==> #[trigger] seen@[i] == ys@.subrange(0, j as int).contains(i as usize),
            ys@.subrange(0, j as int).no_duplicates(),
    {
        let y = ys[j];
        let ghost pre = ys@.subrange(0, j as int);
        assert(ys@.subrange(0, j + 1) =~= pre.push(y));
        if seen[y] {
            proof {
                let k = choose|k: int| 0 <= k < pre.len() && #[trigger] pre[k] == y;
                assert(ys@[k] == ys@[j as int]);
                let a = ys@;
                assert(!a.no_duplicates()) by {
                    assert(a[k] == a[j as int] && k != j);
                }
            }
            return false;
        }
        seen.set(y, true);
        proof {
            assert forall|i: int| 0 <= i < n implies #[trigger] seen@[i] == ys@.subrange(0, j + 1).contains(i as usize) by {
                if i == y {
                    assert(ys@.subrange(0, j + 1)[j as int] == y);
                } else {
                    let s1 = ys@.subrange(0, j + 1);
                    if s1.contains(i as usize) {
                        let k = choose|k: int| 0 <= k < s1.len() && #[trigger] s1[k] == i as usize;
                        assert(pre[k] == i as usize);
                    }
                }
            }
        }
    }
    assert(ys@.subrange(0, ys@.len() as int) =~= ys@);
    for i in 0..n
        invariant
            seen@.len() == n,
            forall|i2: int| 0 <= i2 < n ==> #[trigger] seen@[i2] == ys@.contains(i2 as usize),
            forall|i2: int| 0 <= i2 < i ==> #[trigger] ys@.contains(i2 as usize),
    {
        if !seen[i] {
            return false;
        }
    }
    true
}

impl Circuit {
    /// The variables that gates read, in order.
    pub open spec fn reads(&self) -> Seq<usize> {
        self.add@.map_values(|g: Add| g.in0) + self.add@.map_values(|g: Add| g.in1) + self.sub@.map_values(|g: Sub| g.in0) + self.sub@.map_values(|g: Sub| g.in1) + self.mul@.map_values(|g: Mul| g.in0) + self.mul@.map_values(|g: Mul| g.in1) + self.eq@.map_values(|g: crate::circuit::Eq| g.in0) + self.eq@.map_values(|g: crate::circuit::Eq| g.in1) + self.poseidon@.map_values(|g: Poseidon| g.in0) + self.poseidon@.map_values(|g: Poseidon| g.in1) + self.output@.map_values(|g: Output| g.in0)
    }

    /// `reads`, computed.
    pub fn read_vars(&self) -> (r: Vec<usize>)
        ensures
            r@ == self.reads(),
    {
        let mut rs: Vec<usize> = Vec::new();
        let ghost r0 = rs@;
        for k in 0..self.add.len()
            invariant
                rs@ == r0 + self.add@.subrange(0, k as int).map_values(|g: Add| g.in0),
        {
            rs.push(self.add[k].in0);
            assert(self.add@.subrange(0, k + 1).map_values(|g: Add| g.in0) =~= self.add@.subrange(0, k as int).map_values(|g: Add| g.in0).push(self.add@[k as int].in0));
        }
        assert(self.add@.subrange(0, self.add@.len() as int) =~= self.add@);
        let ghost r1 = rs@;
        for k in 0..self.add.len()
            invariant
                rs@ == r1 + self.add@.subrange(0, k as int).map_values(|g: Add| g.in1),
        {
            rs.push(self.add[k].in1);
            assert(self.add@.subrange(0, k + 1).map_values(|g: Add| g.in1) =~= self.add@.subrange(0, k as int).map_values(|g: Add| g.in1).push(self.add@[k as int].in1));
        }
        assert(self.add@.subrange(0, self.add@.len() as int) =~= self.add@);
        let ghost r2 = rs@;
        for k in 0..self.sub.len()
            invariant
                rs@ == r2 + self.sub@.subrange(0, k as int).map_values(|g: Sub| g.in0),
        {
            rs.push(self.sub[k].in0);
            assert(self.sub@.subrange(0, k + 1).map_values(|g: Sub| g.in0) =~= self.sub@.subrange(0, k as int).map_values(|g: Sub| g.in0).push(self.sub@[k as int].in0));
        }
        assert(self.sub@.subrange(0, self.sub@.len() as int) =~= self.sub@);
        let ghost r3 = rs@;
        for k in 0..self.sub.len()
            invariant
                rs@ == r3 + self.sub@.subrange(0, k as int).map_values(|g: Sub| g.in1),
        {
            rs.push(self.sub[k].in1);
            assert(self.sub@.subrange(0, k + 1).map_values(|g: Sub| g.in1) =~= self.sub@.subrange(0, k as int).map_values(|g: Sub| g.in1).push(self.sub@[k as int].in1));
        }
        assert(self.sub@.subrange(0, self.sub@.len() as int) =~= self.sub@);
        let ghost r4 = rs@;
        for k in 0..self.mul.len()
            invariant
                rs@ == r4 + self.mul@.subrange(0, k as int).map_values(|g: Mul| g.in0),
        {
            rs.push(self.mul[k].in0);
            assert(self.mul@.subrange(0, k + 1).map_values(|g: Mul| g.in0) =~= self.mul@.subrange(0, k as int).map_values(|g: Mul| g.in0).push(self.mul@[k as int].in0));
        }
        assert(self.mul@.subrange(0, self.mul@.len() as int) =~= self.mul@);
        let ghost r5 = rs@;
        for k in 0..self.mul.len()
            invariant
                rs@ == r5 + self.mul@.subrange(0, k as int).map_values(|g: Mul| g.in1),
        {
            rs.push(self.mul[k].in1);
            assert(self.mul@.subrange(0, k + 1).map_values(|g: Mul| g.in1) =~= self.mul@.subrange(0, k as int).map_values(|g: Mul| g.in1).push(self.mul@[k as int].in1));
        }
        assert(self.mul@.subrange(0, self.mul@.len() as int) =~= self.mul@);
        let ghost r6 = rs@;
        for k in 0..self.eq.len()
            invariant
                rs@ == r6 + self.eq@.subrange(0, k as int).map_values(|g: crate::circuit::Eq| g.in0),
        {
            rs.push(self.eq[k].in0);
            assert(self.eq@.subrange(0, k + 1).map_values(|g: crate::circuit::Eq| g.in0) =~= self.eq@.subrange(0, k as int).map_values(|g: crate::circuit::Eq| g.in0).push(self.eq@[k as int].in0));
        }
        assert(self.eq@.subrange(0, self.eq@.len() as int) =~= self.eq@);
        let ghost r7 = rs@;
        for k in 0..self.eq.len()
            invariant
                rs@ == r7 + self.eq@.subrange(0, k as int).map_values(|g: crate::circuit::Eq| g.in1),
        {
            rs.push(self.eq[k].in1);
            assert(self.eq@.subrange(0, k + 1).map_values(|g: crate::circuit::Eq| g.in1) =~= self.eq@.subrange(0, k as int).map_values(|g: crate::circuit::Eq| g.in1).push(self.eq@[k as int].in1));
        }
        assert(self.eq@.subrange(0, self.eq@.len() as int) =~= self.eq@);
        let ghost r8 = rs@;
        for k in 0..self.poseidon.len()
            invariant
                rs@ == r8 + self.poseidon@.subrange(0, k as int).map_values(|g: Poseidon| g.in0),
        {
            rs.push(self.poseidon[k].in0);
            assert(self.poseidon@.subrange(0, k + 1).map_values(|g: Poseidon| g.in0) =~= self.poseidon@.subrange(0, k as int).map_values(|g: Poseidon| g.in0).push(self.poseidon@[k as int].in0));
        }
        assert(self.poseidon@.subrange(0, self.poseidon@.len() as int) =~= self.poseidon@);
        let ghost r9 = rs@;
        for k in 0..self.poseidon.len()
            invariant
                rs@ == r9 + self.poseidon@.subrange(0, k as int).map_values(|g: Poseidon| g.in1),
        {
            rs.push(self.poseidon[k].in1);
            assert(self.poseidon@.subrange(0, k + 1).map_values(|g: Poseidon| g.in1) =~= self.poseidon@.subrange(0, k as int).map_values(|g: Poseidon| g.in1).push(self.poseidon@[k as int].in1));
        }
        assert(self.poseidon@.subrange(0, self.poseidon@.len() as int) =~= self.poseidon@);
        let ghost r10 = rs@;
        for k in 0..self.output.len()
            invariant
                rs@ == r10 + self.output@.subrange(0, k as int).map_values(|g: Output| g.in0),
        {
            rs.push(self.output[k].in0);
            assert(self.output@.subrange(0, k + 1).map_values(|g: Output| g.in0) =~= self.output@.subrange(0, k as int).map_values(|g: Output| g.in0).push(self.output@[k as int].in0));
        }
        assert(self.output@.subrange(0, self.output@.len() as int) =~= self.output@);
        assert(rs@ =~= self.reads());
        rs
    }
}

/// Whether `ys` names each of `0 .. n`.
pub fn covers(ys: &Vec<usize>, n: usize) -> (r: bool)
    ensures
        r == (forall|i: int| 0 <= i < n ==> #[trigger] ys@.contains(i as usize)),
{
    let mut seen: Vec<bool> = Vec::new();
    for i in 0..n
        invariant
            seen@ == Seq::new(i as nat, |k: int| false),
    {
        seen.push(false);
    }
    for j in 0..ys.len()
        invariant
            seen@.len() == n,
            forall|i: int| 0 <= i < n ==> #[trigger] seen@[i] == ys@.subrange(0, j as int).contains(i as usize),
    {
        let y = ys[j];
        let ghost pre = ys@.subrange(0, j as int);
        assert(ys@.subrange(0, j + 1) =~= pre.push(y));
        if y < n {
            seen.set(y, true);
        }
        proof {
            assert forall|i: int| 0 <= i < n implies #[trigger] seen@[i] == ys@.subrange(0, j + 1).contains(i as usize) by {
                let s1 = ys@.subrange(0, j + 1);
                if i == y {
                    assert(s1[j as int] == y);
                } else {
                    if s1.contains(i as usize) {
                        let k = choose|k: int| 0 <= k < s1.len() && #[trigger] s1[k] == i as usize;
                        assert(pre[k] == i as usize);
                    }
                }
            }
        }
    }
    assert(ys@.subrange(0, ys@.len() as int) =~= ys@);
    for i in 0..n
        invariant
            seen@.len() == n,
            forall|i2: int| 0 <= i2 < n ==> #[trigger] seen@[i2] == ys@.contains(i2 as usize),
            forall|i2: int| 0 <= i2 < i ==> #[trigger] ys@.contains(i2 as usize),
    {
        if !seen[i] {
            return false;
        }
    }
    true
}

} // verus!
