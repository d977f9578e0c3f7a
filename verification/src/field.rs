//! The Mersenne-31 prime field `M31`, its complex extension `CM31` and the
//! degree-4 extension `QM31 = CM31[u] / (u^2 - (2 + i))`.
//!
//! Every operation reduces modulo `P`, so its result is canonical (`< P`)
//! whatever its inputs are.
use vstd::arithmetic::div_mod::*;
use vstd::arithmetic::mul::*;
use vstd::prelude::*;

verus! {

/// The modulus `2^31 - 1`.
pub const P: u32 = 2147483647;

/// An element of the prime field of order `P`, held as its representative.
#[derive(Clone, Copy, Debug, PartialEq, Eq, Structural)]
pub struct M31(pub u32);

/// `a + b i` with `i^2 = -1`.
#[derive(Clone, Copy, Debug, PartialEq, Eq, Structural)]
pub struct CM31(pub M31, pub M31);

/// `a + b u` with `u^2 = 2 + i`.
#[derive(Clone, Copy, Debug, PartialEq, Eq, Structural)]
pub struct QM31(pub CM31, pub CM31);

/// The field element that `v` represents.
pub open spec fn reduce(v: int) -> M31 {
    M31((v % (P as int)) as u32)
}

#[verifier::opaque]
pub open spec fn m31_add(a: M31, b: M31) -> M31 {
    reduce(a.0 + b.0)
}

#[verifier::opaque]
pub open spec fn m31_sub(a: M31, b: M31) -> M31 {
    reduce(a.0 - b.0)
}

#[verifier::opaque]
pub open spec fn m31_mul(a: M31, b: M31) -> M31 {
    reduce(a.0 * b.0)
}

pub open spec fn cm31_add(a: CM31, b: CM31) -> CM31 {
    CM31(m31_add(a.0, b.0), m31_add(a.1, b.1))
}

pub open spec fn cm31_sub(a: CM31, b: CM31) -> CM31 {
    CM31(m31_sub(a.0, b.0), m31_sub(a.1, b.1))
}

/// `(a + b i)(c + d i) = (ac - bd) + (ad + bc) i`.
pub open spec fn cm31_mul(a: CM31, b: CM31) -> CM31 {
    CM31(
        m31_sub(m31_mul(a.0, b.0), m31_mul(a.1, b.1)),
        m31_add(m31_mul(a.0, b.1), m31_mul(a.1, b.0)),
    )
}

/// The constant `R = 2 + i` with `u^2 = R`.
pub open spec fn qm31_r() -> CM31 {
    CM31(M31(2), M31(1))
}

pub open spec fn qm31_add(a: QM31, b: QM31) -> QM31 {
    QM31(cm31_add(a.0, b.0), cm31_add(a.1, b.1))
}

pub open spec fn qm31_sub(a: QM31, b: QM31) -> QM31 {
    QM31(cm31_sub(a.0, b.0), cm31_sub(a.1, b.1))
}

/// `(a + b u)(c + d u) = (ac + R b d) + (ad + bc) u`.
pub open spec fn qm31_mul(a: QM31, b: QM31) -> QM31 {
    QM31(
        cm31_add(cm31_mul(a.0, b.0), cm31_mul(cm31_mul(qm31_r(), a.1), b.1)),
        cm31_add(cm31_mul(a.0, b.1), cm31_mul(a.1, b.0)),
    )
}

/// The extension element whose four coordinates are `a, b, c, d`.
pub open spec fn qm31_of(a: M31, b: M31, c: M31, d: M31) -> QM31 {
    QM31(CM31(a, b), CM31(c, d))
}

/// The extension element with coordinates `(a, b, c, d)`, each reduced mod `P`.
pub open spec fn spec_qm31_from_u32s(a: u32, b: u32, c: u32, d: u32) -> QM31 {
    qm31_of(reduce(a as int), reduce(b as int), reduce(c as int), reduce(d as int))
}

/// The base-field element `a` seen in the extension.
pub open spec fn embed(a: M31) -> QM31 {
    qm31_of(a, M31(0), M31(0), M31(0))
}

/// Results of the field operations are canonical.
pub proof fn lemma_m31_ops_canonical(a: M31, b: M31)
    ensures
        m31_add(a, b).canonical(),
        m31_sub(a, b).canonical(),
        m31_mul(a, b).canonical(),
{
    reveal(m31_add);
    reveal(m31_sub);
    reveal(m31_mul);
}

/// Results of the extension-field operations are canonical.
pub proof fn lemma_qm31_ops_canonical(a: QM31, b: QM31)
    ensures
        qm31_add(a, b).canonical(),
        qm31_sub(a, b).canonical(),
        qm31_mul(a, b).canonical(),
{
    reveal(m31_add);
    reveal(m31_sub);
    reveal(m31_mul);
}

/// Adding reductions is reducing the sum.
pub proof fn lemma_add_reduce(u: int, v: int)
    ensures
        m31_add(reduce(u), reduce(v)) == reduce(u + v),
{
    reveal(m31_add);
    lemma_add_mod_noop(u, v, P as int);
}

/// Addition in the extension commutes.
pub proof fn lemma_qm31_add_comm(a: QM31, b: QM31)
    ensures
        qm31_add(a, b) == qm31_add(b, a),
{
    reveal(m31_add);
}

/// A representative below `P` is its own reduction.
pub proof fn lemma_reduce_small(v: int)
    requires
        0 <= v < P,
    ensures
        reduce(v) == M31(v as u32),
{
    lemma_small_mod(v as nat, P as nat);
}

/// Identities of the base field used to reason about selections.
pub proof fn lemma_m31_identities(a: M31, b: M31)
    requires
        a.canonical(),
        b.canonical(),
    ensures
        m31_add(a, M31(0)) == a,
        m31_add(M31(0), a) == a,
        m31_sub(a, M31(0)) == a,
        m31_mul(M31(0), a) == M31(0),
        m31_mul(a, M31(0)) == M31(0),
        m31_mul(M31(1), a) == a,
        m31_add(a, m31_sub(b, a)) == b,
        m31_sub(b, m31_sub(b, a)) == a,
{
    reveal(m31_add);
    reveal(m31_sub);
    reveal(m31_mul);
    let p = P as int;
    lemma_small_mod(a.0 as nat, P as nat);
    lemma_small_mod(b.0 as nat, P as nat);
    lemma_add_mod_noop_right(a.0 as int, b.0 - a.0, p);
    lemma_sub_mod_noop_right(b.0 as int, b.0 - a.0, p);
}

/// `0 * x = 0`, `1 * x = x`, `a + (b - a) = b` and `b - (b - a) = a` in the extension.
pub proof fn lemma_qm31_identities(x: QM31, a: QM31, b: QM31)
    requires
        x.canonical(),
        a.canonical(),
        b.canonical(),
    ensures
        qm31_mul(embed(M31(0)), x) == embed(M31(0)),
        qm31_mul(embed(M31(1)), x) == x,
        qm31_add(a, embed(M31(0))) == a,
        qm31_sub(b, embed(M31(0))) == b,
        qm31_add(a, qm31_sub(b, a)) == b,
        qm31_sub(b, qm31_sub(b, a)) == a,
{
    let z = M31(0);
    lemma_m31_identities(z, z);
    lemma_m31_identities(M31(1), z);
    lemma_m31_identities(M31(2), z);
    lemma_m31_identities(x.0.0, z);
    lemma_m31_identities(x.0.1, z);
    lemma_m31_identities(x.1.0, z);
    lemma_m31_identities(x.1.1, z);
    lemma_m31_identities(a.0.0, b.0.0);
    lemma_m31_identities(a.0.1, b.0.1);
    lemma_m31_identities(a.1.0, b.1.0);
    lemma_m31_identities(a.1.1, b.1.1);
    lemma_m31_identities(b.0.0, z);
    lemma_m31_identities(b.0.1, z);
    lemma_m31_identities(b.1.0, z);
    lemma_m31_identities(b.1.1, z);
    let zc = CM31(z, z);
    assert(cm31_mul(CM31(z, z), x.0) == zc);
    assert(cm31_mul(CM31(z, z), x.1) == zc);
    assert(cm31_mul(qm31_r(), zc) == zc);
    assert(cm31_mul(zc, x.1) == zc);
    assert(cm31_mul(zc, x.0) == zc);
    assert(cm31_mul(CM31(M31(1), z), x.0) == x.0);
    assert(cm31_mul(CM31(M31(1), z), x.1) == x.1);
    assert(cm31_add(x.0, zc) == x.0);
    assert(cm31_add(x.1, zc) == x.1);
    assert(cm31_add(zc, zc) == zc);
}

impl M31 {
    pub open spec fn canonical(self) -> bool {
        self.0 < P
    }

    /// `M31::from(v)`: reduces `v` modulo `P`.
    pub fn from_u32(v: u32) -> (r: M31)
        ensures
            r == reduce(v as int),
    {
        M31(v % P)
    }

    /// `M31::from(v)` for an index: reduces `v` modulo `P`.
    pub fn from_usize(v: usize) -> (r: M31)
        ensures
            r == reduce(v as int),
    {
        M31((v % (P as usize)) as u32)
    }

    /// Wraps `v` as it is; `v` is the element it stands for when `v < P`.
    pub fn from_u32_unchecked(v: u32) -> (r: M31)
        ensures
            r == M31(v),
    {
        M31(v)
    }

    pub fn zero() -> (r: M31)
        ensures
            r == M31(0),
    {
        M31(0)
    }

    pub fn one() -> (r: M31)
        ensures
            r == M31(1),
    {
        M31(1)
    }

    pub fn add(self, rhs: M31) -> (r: M31)
        ensures
            r == m31_add(self, rhs),
            r.canonical(),
    {
        reveal(m31_add);
        let s: u64 = self.0 as u64 + rhs.0 as u64;
        M31((s % (P as u64)) as u32)
    }

    pub fn sub(self, rhs: M31) -> (r: M31)
        ensures
            r == m31_sub(self, rhs),
            r.canonical(),
    {
        reveal(m31_sub);
        let b: u64 = (rhs.0 % P) as u64;
        let s: u64 = self.0 as u64 + P as u64 - b;
        proof {
            let x = self.0 as int;
            let y = rhs.0 as int;
            let p = P as int;
            lemma_sub_mod_noop_right(x, y, p);
            lemma_mod_add_multiples_vanish(x - y % p, p);
            assert(s as int == p + (x - y % p));
        }
        M31((s % (P as u64)) as u32)
    }

    pub fn mul(self, rhs: M31) -> (r: M31)
        ensures
            r == m31_mul(self, rhs),
            r.canonical(),
    {
        reveal(m31_mul);
        proof {
            lemma_mul_upper_bound(
                self.0 as int,
                u32::MAX as int,
                rhs.0 as int,
                u32::MAX as int,
            );
        }
        let s: u64 = self.0 as u64 * rhs.0 as u64;
        M31((s % (P as u64)) as u32)
    }
}

impl CM31 {
    pub fn add(self, rhs: CM31) -> (r: CM31)
        ensures
            r == cm31_add(self, rhs),
            r.0.canonical(),
            r.1.canonical(),
    {
        CM31(self.0.add(rhs.0), self.1.add(rhs.1))
    }

    pub fn sub(self, rhs: CM31) -> (r: CM31)
        ensures
            r == cm31_sub(self, rhs),
            r.0.canonical(),
            r.1.canonical(),
    {
        CM31(self.0.sub(rhs.0), self.1.sub(rhs.1))
    }

    pub fn mul(self, rhs: CM31) -> (r: CM31)
        ensures
            r == cm31_mul(self, rhs),
            r.0.canonical(),
            r.1.canonical(),
    {
        CM31(
            self.0.mul(rhs.0).sub(self.1.mul(rhs.1)),
            self.0.mul(rhs.1).add(self.1.mul(rhs.0)),
        )
    }
}

impl QM31 {
    pub open spec fn canonical(self) -> bool {
        &&& self.0.0.canonical()
        &&& self.0.1.canonical()
        &&& self.1.0.canonical()
        &&& self.1.1.canonical()
    }

    pub fn zero() -> (r: QM31)
        ensures
            r == embed(M31(0)),
            r.canonical(),
    {
        QM31(CM31(M31(0), M31(0)), CM31(M31(0), M31(0)))
    }

    pub fn one() -> (r: QM31)
        ensures
            r == embed(M31(1)),
            r.canonical(),
    {
        QM31(CM31(M31(1), M31(0)), CM31(M31(0), M31(0)))
    }

    pub fn from_m31(a: M31, b: M31, c: M31, d: M31) -> (r: QM31)
        ensures
            r == qm31_of(a, b, c, d),
    {
        QM31(CM31(a, b), CM31(c, d))
    }

    pub fn from_m31_array(limbs: [M31; 4]) -> (r: QM31)
        ensures
            r == qm31_of(limbs[0], limbs[1], limbs[2], limbs[3]),
    {
        QM31(CM31(limbs[0], limbs[1]), CM31(limbs[2], limbs[3]))
    }

    /// The four coordinates, in the order `a, b, c, d` of `qm31_of`.
    pub fn to_m31_array(self) -> (r: [M31; 4])
        ensures
            r@ == seq![self.0.0, self.0.1, self.1.0, self.1.1],
    {
        [self.0.0, self.0.1, self.1.0, self.1.1]
    }

    pub fn add(self, rhs: QM31) -> (r: QM31)
        ensures
            r == qm31_add(self, rhs),
            r.canonical(),
    {
        QM31(self.0.add(rhs.0), self.1.add(rhs.1))
    }

    pub fn sub(self, rhs: QM31) -> (r: QM31)
        ensures
            r == qm31_sub(self, rhs),
            r.canonical(),
    {
        QM31(self.0.sub(rhs.0), self.1.sub(rhs.1))
    }

    pub fn mul(self, rhs: QM31) -> (r: QM31)
        ensures
            r == qm31_mul(self, rhs),
            r.canonical(),
    {
        let r = CM31(M31(2), M31(1));
        QM31(
            self.0.mul(rhs.0).add(r.mul(self.1).mul(rhs.1)),
            self.0.mul(rhs.1).add(self.1.mul(rhs.0)),
        )
    }
}

/// Builds the extension element with coordinates `a, b, c, d`, each reduced mod `P`.
pub fn qm31_from_u32s(a: u32, b: u32, c: u32, d: u32) -> (r: QM31)
    ensures
        r == spec_qm31_from_u32s(a, b, c, d),
        r.canonical(),
{
    QM31(CM31(M31::from_u32(a), M31::from_u32(b)), CM31(M31::from_u32(c), M31::from_u32(d)))
}

} // verus!
