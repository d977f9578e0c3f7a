//! Poseidon2 over M31 with a width-16 state: round constants, the linear
//! layers, and the permutation as a specification generic over the field the
//! state lives in.
use crate::field::{embed, lemma_add_reduce, lemma_reduce_small, m31_add, m31_mul, qm31_add, qm31_mul, reduce, M31, P, QM31};
use vstd::prelude::*;

verus! {

pub const N_STATE: usize = 16;

pub const N_PARTIAL_ROUNDS: usize = 14;

pub const N_HALF_FULL_ROUNDS: usize = 4;

pub const LOG_EXPAND: u32 = 3;

/// Round constants of the full rounds: rows 0..4 before the partial rounds, 4..8 after.
pub const RC_EXTERNAL: [[u32; 16]; 8] = [
    [
        0x768bab52, 0x70e0ab7d, 0x3d266c8a, 0x6da42045, 0x600fef22, 0x41dace6b, 0x64f9bdd4, 0x5d42d4fe,
        0x76b1516d, 0x6fc9a717, 0x70ac4fb6, 0x00194ef6, 0x22b644e2, 0x1f7916d5, 0x47581be2, 0x2710a123,
    ],
    [
        0x6284e867, 0x018d3afe, 0x5df99ef3, 0x4c1e467b, 0x566f6abc, 0x2994e427, 0x538a6d42, 0x5d7bf2cf,
        0x7fda2dab, 0x0fd854c4, 0x46922fca, 0x3d7763a1, 0x19fd05ca, 0x0a4bbb43, 0x15075851, 0x3d903d76,
    ],
    [
        0x2d290ff7, 0x40809fa0, 0x59dac6ec, 0x127927a2, 0x6bbf0ea0, 0x0294140f, 0x24742976, 0x6e84c081,
        0x22484f4a, 0x354cae59, 0x0453ffe1, 0x3f47a3cc, 0x0088204e, 0x6066e109, 0x3b7c4b80, 0x6b55665d,
    ],
    [
        0x3bc4b897, 0x735bf378, 0x508daf42, 0x1884fc2b, 0x7214f24c, 0x7498be0a, 0x1a60e640, 0x3303f928,
        0x29b46376, 0x5c96bb68, 0x65d097a5, 0x1d358e9f, 0x4a9a9017, 0x4724cf76, 0x347af70f, 0x1e77e59a,
    ],
    [
        0x57090613, 0x1fa42108, 0x17bbef50, 0x1ff7e11c, 0x047b24ca, 0x4e140275, 0x4fa086f5, 0x079b309c,
        0x1159bd47, 0x6d37e4e5, 0x075d8dce, 0x12121ca0, 0x7f6a7c40, 0x68e182ba, 0x5493201b, 0x0444a80e,
    ],
    [
        0x0064f4c6, 0x6467abe6, 0x66975762, 0x2af68f9b, 0x345b33be, 0x1b70d47f, 0x053db717, 0x381189cb,
        0x43b915f8, 0x20df3694, 0x0f459d26, 0x77a0e97b, 0x2f73e739, 0x1876c2f9, 0x65a0e29a, 0x4cabefbe,
    ],
    [
        0x5abd1268, 0x4d34a760, 0x12771799, 0x69a0c9ac, 0x39091e55, 0x7f611cd0, 0x3af055da, 0x7ac0bbdf,
        0x6e0f3a24, 0x41e3b6f7, 0x49b3756d, 0x568bc538, 0x20c079d8, 0x1701c72c, 0x7670dc6c, 0x5a439035,
    ],
    [
        0x7c93e00e, 0x561fbb4d, 0x1178907b, 0x02737406, 0x32fb24f1, 0x6323b60a, 0x6ab12418, 0x42c99cea,
        0x155a0b97, 0x53d1c6aa, 0x2bd20347, 0x279b3d73, 0x4f5f3c70, 0x0245af6c, 0x238359d3, 0x49966a59,
    ],
];

/// Round constants of the partial rounds.
pub const RC_INTERNAL: [u32; 14] = [
    0x7f7ec4bf, 0x0421926f, 0x5198e669, 0x34db3148, 0x4368bafd, 0x66685c7f, 0x78d3249a,
    0x60187881, 0x76dad67a, 0x0690b437, 0x1ea95311, 0x40e5369a, 0x38f103fc, 0x1d226a21,
];

/// Diagonal of the internal matrix minus the identity.
pub const INTERNAL_DIAG: [u32; 16] = [
    0x07b80ac4, 0x6bd9cb33, 0x48ee3f9f, 0x4f63dd19, 0x18c546b3, 0x5af89e8b, 0x4ff23de8, 0x4f78aaf6,
    0x53bdc6d4, 0x5c59823e, 0x2a471c72, 0x4c975e79, 0x58dc64d4, 0x06e9315d, 0x2cf32286, 0x2fb6755d,
];

/// The operations the permutation is built from, in some field `F`:
/// addition, multiplication, and the embedding of a round constant.
#[verifier::reject_recursive_types(F)]
pub struct FieldOps<F> {
    pub add: spec_fn(F, F) -> F,
    pub mul: spec_fn(F, F) -> F,
    pub lift: spec_fn(u32) -> F,
}

/// The base field.
pub open spec fn m31_ops() -> FieldOps<M31> {
    FieldOps { add: |a: M31, b: M31| m31_add(a, b), mul: |a: M31, b: M31| m31_mul(a, b), lift: |c: u32| M31(c) }
}

/// The degree-4 extension; round constants are base-field elements.
pub open spec fn qm31_ops() -> FieldOps<QM31> {
    FieldOps {
        add: |a: QM31, b: QM31| qm31_add(a, b),
        mul: |a: QM31, b: QM31| qm31_mul(a, b),
        lift: |c: u32| embed(M31(c)),
    }
}

/// `x^5`, as `((x * x) * (x * x)) * x`.
pub open spec fn sbox<F>(o: FieldOps<F>, x: F) -> F {
    let x2 = (o.mul)(x, x);
    let x4 = (o.mul)(x2, x2);
    (o.mul)(x4, x)
}

/// The 4x4 block `[[5, 7, 1, 3], [4, 6, 1, 1], [1, 3, 5, 7], [1, 1, 4, 6]]`,
/// applied with eight additions.
pub open spec fn m4<F>(o: FieldOps<F>, x0: F, x1: F, x2: F, x3: F) -> Seq<F> {
    let t0 = (o.add)(x0, x1);
    let t02 = (o.add)(t0, t0);
    let t1 = (o.add)(x2, x3);
    let t12 = (o.add)(t1, t1);
    let t2 = (o.add)((o.add)(x1, x1), t1);
    let t3 = (o.add)((o.add)(x3, x3), t0);
    let t4 = (o.add)((o.add)(t12, t12), t3);
    let t5 = (o.add)((o.add)(t02, t02), t2);
    seq![(o.add)(t3, t5), t5, (o.add)(t2, t4), t4]
}

/// The block `m4` applied to each of the four groups `4b .. 4b + 4` of the state.
#[verifier::opaque]
pub open spec fn m4_layer<F>(o: FieldOps<F>, s: Seq<F>) -> Seq<F> {
    Seq::new(
        16,
        |k: int| m4(o, s[k - k % 4], s[k - k % 4 + 1], s[k - k % 4 + 2], s[k - k % 4 + 3])[k % 4],
    )
}

/// `y[j] + y[j + 4] + y[j + 8] + y[j + 12]`, added left to right.
pub open spec fn col_sum<F>(o: FieldOps<F>, y: Seq<F>, j: int) -> F {
    (o.add)((o.add)((o.add)(y[j], y[j + 4]), y[j + 8]), y[j + 12])
}

/// The external matrix `circ(2 M4, M4, M4, M4)`: the block layer, then each
/// element gets the sum of its column of blocks added.
#[verifier::opaque]
pub open spec fn external<F>(o: FieldOps<F>, s: Seq<F>) -> Seq<F> {
    let y = m4_layer(o, s);
    Seq::new(16, |k: int| (o.add)(y[k], col_sum(o, y, k % 4)))
}

/// `s[0] + s[1] + ... + s[n - 1]`, added left to right (`s[0]` when `n <= 1`).
pub open spec fn prefix_sum<F>(o: FieldOps<F>, s: Seq<F>, n: nat) -> F
    decreases n,
{
    if n <= 1 {
        s[0]
    } else {
        (o.add)(prefix_sum(o, s, (n - 1) as nat), s[n - 1])
    }
}

/// The internal matrix `diag(INTERNAL_DIAG) + 1`: each element is scaled by its
/// diagonal entry and the sum of the whole state is added.
pub open spec fn internal<F>(o: FieldOps<F>, s: Seq<F>) -> Seq<F> {
    let sum = prefix_sum(o, s, 16);
    Seq::new(16, |i: int| (o.add)((o.mul)(s[i], (o.lift)(INTERNAL_DIAG[i])), sum))
}

/// The state after the constants of round `r` are added, before the S-boxes.
pub open spec fn add_round_constants<F>(o: FieldOps<F>, s: Seq<F>, r: int) -> Seq<F> {
    Seq::new(16, |i: int| (o.add)(s[i], (o.lift)(RC_EXTERNAL[r][i])))
}

/// A full round: constants, an S-box on every element, the external matrix.
pub open spec fn full_round<F>(o: FieldOps<F>, s: Seq<F>, r: int) -> Seq<F> {
    let a = add_round_constants(o, s, r);
    external(o, Seq::new(16, |i: int| sbox(o, a[i])))
}

/// A partial round: a constant and an S-box on element 0, the internal matrix.
pub open spec fn partial_round<F>(o: FieldOps<F>, s: Seq<F>, r: int) -> Seq<F> {
    internal(o, s.update(0, sbox(o, (o.add)(s[0], (o.lift)(RC_INTERNAL[r])))))
}

/// Full rounds `first, first + 1, ..., first + n - 1`, in order.
pub open spec fn full_rounds<F>(o: FieldOps<F>, s: Seq<F>, first: int, n: nat) -> Seq<F>
    decreases n,
{
    if n == 0 {
        s
    } else {
        full_round(o, full_rounds(o, s, first, (n - 1) as nat), first + n - 1)
    }
}

/// Partial rounds `0, 1, ..., n - 1`, in order.
pub open spec fn partial_rounds<F>(o: FieldOps<F>, s: Seq<F>, n: nat) -> Seq<F>
    decreases n,
{
    if n == 0 {
        s
    } else {
        partial_round(o, partial_rounds(o, s, (n - 1) as nat), n - 1)
    }
}

/// The Poseidon2 permutation: the external matrix, four full rounds, fourteen
/// partial rounds, four full rounds.
pub open spec fn permutation<F>(o: FieldOps<F>, s: Seq<F>) -> Seq<F> {
    full_rounds(o, partial_rounds(o, full_rounds(o, external(o, s), 0, 4), 14), 4, 4)
}

/// Entries `4b .. 4b + 4` of the block layer.
pub proof fn lemma_m4_layer<F>(o: FieldOps<F>, s: Seq<F>, b: int)
    requires
        0 <= b < 4,
    ensures
        m4_layer(o, s).len() == 16,
        m4_layer(o, s)[4 * b] == m4(o, s[4 * b], s[4 * b + 1], s[4 * b + 2], s[4 * b + 3])[0],
        m4_layer(o, s)[4 * b + 1] == m4(o, s[4 * b], s[4 * b + 1], s[4 * b + 2], s[4 * b + 3])[1],
        m4_layer(o, s)[4 * b + 2] == m4(o, s[4 * b], s[4 * b + 1], s[4 * b + 2], s[4 * b + 3])[2],
        m4_layer(o, s)[4 * b + 3] == m4(o, s[4 * b], s[4 * b + 1], s[4 * b + 2], s[4 * b + 3])[3],
{
    reveal(m4_layer);
    assert((4 * b) % 4 == 0);
    assert((4 * b + 1) % 4 == 1);
    assert((4 * b + 2) % 4 == 2);
    assert((4 * b + 3) % 4 == 3);
}

/// Entry `k` of the external matrix's result.
pub proof fn lemma_external<F>(o: FieldOps<F>, s: Seq<F>, k: int)
    requires
        0 <= k < 16,
    ensures
        external(o, s).len() == 16,
        external(o, s)[k] == (o.add)(m4_layer(o, s)[k], col_sum(o, m4_layer(o, s), k % 4)),
{
    reveal(external);
}

/// The permuted state has the width of the state.
pub proof fn lemma_permutation_len<F>(o: FieldOps<F>, s: Seq<F>)
    ensures
        permutation(o, s).len() == 16,
{
    let x = full_rounds(o, partial_rounds(o, full_rounds(o, external(o, s), 0, 4), 14), 4, 3);
    lemma_external(o, Seq::new(16, |i: int| sbox(o, add_round_constants(o, x, 7)[i])), 0);
}

/// Every element of a state permuted over M31 is canonical.
pub proof fn lemma_permutation_canonical(s: Seq<M31>)
    ensures
        forall|k: int| 0 <= k < 16 ==> (#[trigger] permutation(m31_ops(), s)[k]).canonical(),
{
    let o = m31_ops();
    let x = full_rounds(o, partial_rounds(o, full_rounds(o, external(o, s), 0, 4), 14), 4, 3);
    let z = Seq::new(16, |i: int| sbox(o, add_round_constants(o, x, 7)[i]));
    assert forall|k: int| 0 <= k < 16 implies (#[trigger] permutation(m31_ops(), s)[k]).canonical() by {
        lemma_external(o, z, k);
        crate::field::lemma_m31_ops_canonical(m4_layer(o, z)[k], col_sum(o, m4_layer(o, z), k % 4));
    }
}

/// `h` maps sums to sums, products to products and each round constant to
/// itself.
pub open spec fn is_hom<F, G>(of: FieldOps<F>, og: FieldOps<G>, h: spec_fn(F) -> G) -> bool {
    &&& forall|a: F, b: F| #[trigger] h((of.add)(a, b)) == (og.add)(h(a), h(b))
    &&& forall|a: F, b: F| #[trigger] h((of.mul)(a, b)) == (og.mul)(h(a), h(b))
    &&& forall|c: u32| c < P ==> #[trigger] h((of.lift)(c)) == (og.lift)(c)
}

proof fn lemma_hom_sbox<F, G>(of: FieldOps<F>, og: FieldOps<G>, h: spec_fn(F) -> G, x: F)
    requires
        is_hom(of, og, h),
    ensures
        h(sbox(of, x)) == sbox(og, h(x)),
{
    let x2 = (of.mul)(x, x);
    let x4 = (of.mul)(x2, x2);
    assert(h(x2) == (og.mul)(h(x), h(x)));
    assert(h(x4) == (og.mul)(h(x2), h(x2)));
    assert(h((of.mul)(x4, x)) == (og.mul)(h(x4), h(x)));
}

proof fn lemma_hom_m4<F, G>(
    of: FieldOps<F>,
    og: FieldOps<G>,
    h: spec_fn(F) -> G,
    x0: F,
    x1: F,
    x2: F,
    x3: F,
)
    requires
        is_hom(of, og, h),
    ensures
        m4(og, h(x0), h(x1), h(x2), h(x3)) == m4(of, x0, x1, x2, x3).map_values(h),
{
    let t0 = (of.add)(x0, x1);
    let t02 = (of.add)(t0, t0);
    let t1 = (of.add)(x2, x3);
    let t12 = (of.add)(t1, t1);
    let u2 = (of.add)(x1, x1);
    let t2 = (of.add)(u2, t1);
    let u3 = (of.add)(x3, x3);
    let t3 = (of.add)(u3, t0);
    let u4 = (of.add)(t12, t12);
    let t4 = (of.add)(u4, t3);
    let u5 = (of.add)(t02, t02);
    let t5 = (of.add)(u5, t2);
    assert(h(t0) == (og.add)(h(x0), h(x1)));
    assert(h(t02) == (og.add)(h(t0), h(t0)));
    assert(h(t1) == (og.add)(h(x2), h(x3)));
    assert(h(t12) == (og.add)(h(t1), h(t1)));
    assert(h(u2) == (og.add)(h(x1), h(x1)));
    assert(h(t2) == (og.add)(h(u2), h(t1)));
    assert(h(u3) == (og.add)(h(x3), h(x3)));
    assert(h(t3) == (og.add)(h(u3), h(t0)));
    assert(h(u4) == (og.add)(h(t12), h(t12)));
    assert(h(t4) == (og.add)(h(u4), h(t3)));
    assert(h(u5) == (og.add)(h(t02), h(t02)));
    assert(h(t5) == (og.add)(h(u5), h(t2)));
    assert(h((of.add)(t3, t5)) == (og.add)(h(t3), h(t5)));
    assert(h((of.add)(t2, t4)) == (og.add)(h(t2), h(t4)));
    assert(m4(og, h(x0), h(x1), h(x2), h(x3)) =~= m4(of, x0, x1, x2, x3).map_values(h));
}

proof fn lemma_hom_external<F, G>(of: FieldOps<F>, og: FieldOps<G>, h: spec_fn(F) -> G, s: Seq<F>)
    requires
        is_hom(of, og, h),
        s.len() == 16,
    ensures
        external(og, s.map_values(h)) == external(of, s).map_values(h),
{
    let t = s.map_values(h);
    let yf = m4_layer(of, s);
    let yg = m4_layer(og, t);
    assert forall|k: int| 0 <= k < 16 implies #[trigger] yg[k] == h(yf[k]) by {
        let b = k / 4;
        lemma_m4_layer(of, s, b);
        lemma_m4_layer(og, t, b);
        lemma_hom_m4(of, og, h, s[4 * b], s[4 * b + 1], s[4 * b + 2], s[4 * b + 3]);
        assert(t[4 * b] == h(s[4 * b]));
        assert(t[4 * b + 1] == h(s[4 * b + 1]));
        assert(t[4 * b + 2] == h(s[4 * b + 2]));
        assert(t[4 * b + 3] == h(s[4 * b + 3]));
        assert(k == 4 * b || k == 4 * b + 1 || k == 4 * b + 2 || k == 4 * b + 3);
    }
    assert forall|j: int| 0 <= j < 4 implies #[trigger] col_sum(og, yg, j) == h(col_sum(of, yf, j)) by {
        let a1 = (of.add)(yf[j], yf[j + 4]);
        let a2 = (of.add)(a1, yf[j + 8]);
        assert(h(a1) == (og.add)(h(yf[j]), h(yf[j + 4])));
        assert(h(a2) == (og.add)(h(a1), h(yf[j + 8])));
        assert(h((of.add)(a2, yf[j + 12])) == (og.add)(h(a2), h(yf[j + 12])));
    }
    assert forall|k: int| 0 <= k < 16 implies #[trigger] external(og, t)[k] == external(of, s).map_values(h)[k] by {
        lemma_external(of, s, k);
        lemma_external(og, t, k);
        assert(h((of.add)(yf[k], col_sum(of, yf, k % 4))) == (og.add)(h(yf[k]), h(col_sum(of, yf, k % 4))));
    }
    lemma_external(of, s, 0);
    lemma_external(og, t, 0);
    assert(external(og, t) =~= external(of, s).map_values(h));
}

proof fn lemma_hom_prefix_sum<F, G>(
    of: FieldOps<F>,
    og: FieldOps<G>,
    h: spec_fn(F) -> G,
    s: Seq<F>,
    n: nat,
)
    requires
        is_hom(of, og, h),
        1 <= n <= s.len(),
    ensures
        prefix_sum(og, s.map_values(h), n) == h(prefix_sum(of, s, n)),
    decreases n,
{
    if n > 1 {
        lemma_hom_prefix_sum(of, og, h, s, (n - 1) as nat);
        assert(h((of.add)(prefix_sum(of, s, (n - 1) as nat), s[n - 1])) == (og.add)(
            h(prefix_sum(of, s, (n - 1) as nat)),
            h(s[n - 1]),
        ));
    }
}

proof fn lemma_hom_internal<F, G>(of: FieldOps<F>, og: FieldOps<G>, h: spec_fn(F) -> G, s: Seq<F>)
    requires
        is_hom(of, og, h),
        s.len() == 16,
    ensures
        internal(og, s.map_values(h)) == internal(of, s).map_values(h),
{
    lemma_constants_below_modulus();
    lemma_hom_prefix_sum(of, og, h, s, 16);
    let sum = prefix_sum(of, s, 16);
    assert forall|i: int| 0 <= i < 16 implies #[trigger] internal(og, s.map_values(h))[i] == h(internal(of, s)[i]) by {
        let d = (of.lift)(INTERNAL_DIAG[i]);
        assert(h(d) == (og.lift)(INTERNAL_DIAG[i]));
        let p = (of.mul)(s[i], d);
        assert(h(p) == (og.mul)(h(s[i]), h(d)));
        assert(h((of.add)(p, sum)) == (og.add)(h(p), h(sum)));
    }
    assert(internal(og, s.map_values(h)) =~= internal(of, s).map_values(h));
}

proof fn lemma_hom_full_round<F, G>(
    of: FieldOps<F>,
    og: FieldOps<G>,
    h: spec_fn(F) -> G,
    s: Seq<F>,
    r: int,
)
    requires
        is_hom(of, og, h),
        s.len() == 16,
        0 <= r < 8,
    ensures
        full_round(og, s.map_values(h), r) == full_round(of, s, r).map_values(h),
{
    lemma_constants_below_modulus();
    let af = add_round_constants(of, s, r);
    let ag = add_round_constants(og, s.map_values(h), r);
    let bf = Seq::new(16, |i: int| sbox(of, af[i]));
    let bg = Seq::new(16, |i: int| sbox(og, ag[i]));
    assert forall|i: int| 0 <= i < 16 implies #[trigger] bg[i] == h(bf[i]) by {
        let c = (of.lift)(RC_EXTERNAL[r][i]);
        assert(h(c) == (og.lift)(RC_EXTERNAL[r][i]));
        assert(h((of.add)(s[i], c)) == (og.add)(h(s[i]), h(c)));
        lemma_hom_sbox(of, og, h, af[i]);
    }
    assert(bg =~= bf.map_values(h));
    lemma_hom_external(of, og, h, bf);
}

proof fn lemma_hom_partial_round<F, G>(
    of: FieldOps<F>,
    og: FieldOps<G>,
    h: spec_fn(F) -> G,
    s: Seq<F>,
    r: int,
)
    requires
        is_hom(of, og, h),
        s.len() == 16,
        0 <= r < 14,
    ensures
        partial_round(og, s.map_values(h), r) == partial_round(of, s, r).map_values(h),
{
    lemma_constants_below_modulus();
    let c = (of.lift)(RC_INTERNAL[r]);
    assert(h(c) == (og.lift)(RC_INTERNAL[r]));
    let a = (of.add)(s[0], c);
    assert(h(a) == (og.add)(h(s[0]), h(c)));
    lemma_hom_sbox(of, og, h, a);
    let uf = s.update(0, sbox(of, a));
    assert(s.map_values(h).update(0, sbox(og, h(a))) =~= uf.map_values(h));
    lemma_hom_internal(of, og, h, uf);
}

proof fn lemma_full_rounds_len<F>(o: FieldOps<F>, s: Seq<F>, first: int, n: nat)
    requires
        s.len() == 16,
    ensures
        full_rounds(o, s, first, n).len() == 16,
    decreases n,
{
    if n > 0 {
        let x = full_rounds(o, s, first, (n - 1) as nat);
        lemma_external(o, Seq::new(16, |i: int| sbox(o, add_round_constants(o, x, first + n - 1)[i])), 0);
    }
}

proof fn lemma_partial_rounds_len<F>(o: FieldOps<F>, s: Seq<F>, n: nat)
    requires
        s.len() == 16,
    ensures
        partial_rounds(o, s, n).len() == 16,
    decreases n,
{
    if n > 0 {
        lemma_partial_rounds_len(o, s, (n - 1) as nat);
    }
}

proof fn lemma_hom_full_rounds<F, G>(
    of: FieldOps<F>,
    og: FieldOps<G>,
    h: spec_fn(F) -> G,
    s: Seq<F>,
    first: int,
    n: nat,
)
    requires
        is_hom(of, og, h),
        s.len() == 16,
        0 <= first,
        first + n <= 8,
    ensures
        full_rounds(og, s.map_values(h), first, n) == full_rounds(of, s, first, n).map_values(h),
    decreases n,
{
    if n > 0 {
        lemma_hom_full_rounds(of, og, h, s, first, (n - 1) as nat);
        lemma_full_rounds_len(of, s, first, (n - 1) as nat);
        lemma_hom_full_round(of, og, h, full_rounds(of, s, first, (n - 1) as nat), first + n - 1);
    }
}

proof fn lemma_hom_partial_rounds<F, G>(
    of: FieldOps<F>,
    og: FieldOps<G>,
    h: spec_fn(F) -> G,
    s: Seq<F>,
    n: nat,
)
    requires
        is_hom(of, og, h),
        s.len() == 16,
        n <= 14,
    ensures
        partial_rounds(og, s.map_values(h), n) == partial_rounds(of, s, n).map_values(h),
    decreases n,
{
    if n > 0 {
        lemma_hom_partial_rounds(of, og, h, s, (n - 1) as nat);
        lemma_partial_rounds_len(of, s, (n - 1) as nat);
        lemma_hom_partial_round(of, og, h, partial_rounds(of, s, (n - 1) as nat), n - 1);
    }
}

/// A map between fields that respects addition, multiplication and the round
/// constants commutes with the permutation.
pub proof fn lemma_permutation_hom<F, G>(
    of: FieldOps<F>,
    og: FieldOps<G>,
    h: spec_fn(F) -> G,
    s: Seq<F>,
)
    requires
        is_hom(of, og, h),
        s.len() == 16,
    ensures
        permutation(og, s.map_values(h)) == permutation(of, s).map_values(h),
{
    lemma_hom_external(of, og, h, s);
    lemma_external(of, s, 0);
    let x1 = external(of, s);
    lemma_hom_full_rounds(of, og, h, x1, 0, 4);
    lemma_full_rounds_len(of, x1, 0, 4);
    let x2 = full_rounds(of, x1, 0, 4);
    lemma_hom_partial_rounds(of, og, h, x2, 14);
    lemma_partial_rounds_len(of, x2, 14);
    let x3 = partial_rounds(of, x2, 14);
    lemma_hom_full_rounds(of, og, h, x3, 4, 4);
}

/// Over M31, the block `m4` is the matrix
/// `[[5, 7, 1, 3], [4, 6, 1, 1], [1, 3, 5, 7], [1, 1, 4, 6]]`.
pub proof fn lemma_m4_matrix(x0: M31, x1: M31, x2: M31, x3: M31)
    requires
        x0.canonical(),
        x1.canonical(),
        x2.canonical(),
        x3.canonical(),
    ensures
        m4(m31_ops(), x0, x1, x2, x3) == seq![
            reduce(5 * x0.0 + 7 * x1.0 + x2.0 + 3 * x3.0),
            reduce(4 * x0.0 + 6 * x1.0 + x2.0 + x3.0),
            reduce(x0.0 + 3 * x1.0 + 5 * x2.0 + 7 * x3.0),
            reduce(x0.0 + x1.0 + 4 * x2.0 + 6 * x3.0),
        ],
{
    let (a, b, c, d) = (x0.0 as int, x1.0 as int, x2.0 as int, x3.0 as int);
    lemma_reduce_small(a);
    lemma_reduce_small(b);
    lemma_reduce_small(c);
    lemma_reduce_small(d);
    lemma_add_reduce(a, b);
    lemma_add_reduce(a + b, a + b);
    lemma_add_reduce(c, d);
    lemma_add_reduce(c + d, c + d);
    lemma_add_reduce(b, b);
    lemma_add_reduce(2 * b, c + d);
    lemma_add_reduce(d, d);
    lemma_add_reduce(2 * d, a + b);
    lemma_add_reduce(2 * c + 2 * d, 2 * c + 2 * d);
    lemma_add_reduce(4 * c + 4 * d, 2 * d + a + b);
    lemma_add_reduce(2 * a + 2 * b, 2 * a + 2 * b);
    lemma_add_reduce(4 * a + 4 * b, 2 * b + c + d);
    lemma_add_reduce(2 * d + a + b, 4 * a + 6 * b + c + d);
    lemma_add_reduce(2 * b + c + d, a + b + 4 * c + 6 * d);
    assert(m4(m31_ops(), x0, x1, x2, x3) =~= seq![
        reduce(5 * a + 7 * b + c + 3 * d),
        reduce(4 * a + 6 * b + c + d),
        reduce(a + 3 * b + 5 * c + 7 * d),
        reduce(a + b + 4 * c + 6 * d),
    ]);
}

pub proof fn lemma_constants_below_modulus()
    ensures
        forall|r: int, i: int| 0 <= r < 8 && 0 <= i < 16 ==> #[trigger] RC_EXTERNAL[r][i] < P,
        forall|r: int| 0 <= r < 14 ==> #[trigger] RC_INTERNAL[r] < P,
        forall|i: int| 0 <= i < 16 ==> #[trigger] INTERNAL_DIAG[i] < P,
{
}

/// `x^5`.
pub fn pow5(x: M31) -> (r: M31)
    ensures
        r == sbox(m31_ops(), x),
{
    let x2 = x.mul(x);
    let x4 = x2.mul(x2);
    x4.mul(x)
}

/// `x^5`, written for expressions of the constraint system; on field values it
/// is `pow5`.
pub fn pow5_expr(x: M31) -> (r: M31)
    ensures
        r == sbox(m31_ops(), x),
{
    let x2 = x.mul(x);
    let x4 = x2.mul(x2);
    x4.mul(x)
}

/// The 4x4 block of the external matrix.
pub fn apply_m4(x: [M31; 4]) -> (r: [M31; 4])
    ensures
        r@ == m4(m31_ops(), x[0], x[1], x[2], x[3]),
{
    let t0 = x[0].add(x[1]);
    let t02 = t0.add(t0);
    let t1 = x[2].add(x[3]);
    let t12 = t1.add(t1);
    let t2 = x[1].add(x[1]).add(t1);
    let t3 = x[3].add(x[3]).add(t0);
    let t4 = t12.add(t12).add(t3);
    let t5 = t02.add(t02).add(t2);
    let t6 = t3.add(t5);
    let t7 = t2.add(t4);
    let r = [t6, t5, t7, t4];
    assert(r@ =~= m4(m31_ops(), x[0], x[1], x[2], x[3]));
    r
}

/// Multiplies the state by the external matrix.
pub fn apply_external_round_matrix(state: &mut [M31; 16])
    ensures
        final(state)@ == external(m31_ops(), old(state)@),
{
    let ghost s0 = state@;
    let ghost y = m4_layer(m31_ops(), s0);
    for i in 0..4
        invariant
            y == m4_layer(m31_ops(), s0),
            forall|k: int| 0 <= k < 16 ==> #[trigger] state@[k] == if k < 4 * i { y[k] } else { s0[k] },
    {
        let r = apply_m4([state[4 * i], state[4 * i + 1], state[4 * i + 2], state[4 * i + 3]]);
        proof {
            lemma_m4_layer(m31_ops(), s0, i as int);
        }
        state[4 * i] = r[0];
        state[4 * i + 1] = r[1];
        state[4 * i + 2] = r[2];
        state[4 * i + 3] = r[3];
    }
    for j in 0..4
        invariant
            y == m4_layer(m31_ops(), s0),
            forall|k: int| 0 <= k < 16 ==> #[trigger] state@[k] == if k % 4 < j {
                m31_add(y[k], col_sum(m31_ops(), y, k % 4))
            } else {
                y[k]
            },
    {
        let s = state[j].add(state[j + 4]).add(state[j + 8]).add(state[j + 12]);
        assert(s == col_sum(m31_ops(), y, j as int));
        for i in 0..4
            invariant
                0 <= j < 4,
                s == col_sum(m31_ops(), y, j as int),
                forall|k: int| 0 <= k < 16 ==> #[trigger] state@[k] == if k % 4 < j || (k % 4 == j && k < 4 * i) {
                    m31_add(y[k], col_sum(m31_ops(), y, k % 4))
                } else {
                    y[k]
                },
        {
            state[4 * i + j] = state[4 * i + j].add(s);
        }
    }
    assert forall|k: int| 0 <= k < 16 implies #[trigger] state@[k] == external(m31_ops(), s0)[k] by {
        lemma_external(m31_ops(), s0, k);
    }
    proof {
        lemma_external(m31_ops(), s0, 0);
    }
    assert(state@ =~= external(m31_ops(), s0));
}

/// Multiplies the state by the internal matrix.
pub fn apply_internal_round_matrix(state: &mut [M31; 16])
    ensures
        final(state)@ == internal(m31_ops(), old(state)@),
{
    let ghost s0 = state@;
    let mut sum = state[0];
    for i in 1..16
        invariant
            state@ == s0,
            sum == prefix_sum(m31_ops(), s0, i as nat),
    {
        sum = sum.add(state[i]);
    }
    for i in 0..16
        invariant
            sum == prefix_sum(m31_ops(), s0, 16),
            forall|k: int| 0 <= k < 16 ==> #[trigger] state@[k] == if k < i {
                m31_add(m31_mul(s0[k], M31(INTERNAL_DIAG[k])), sum)
            } else {
                s0[k]
            },
    {
        state[i] = state[i].mul(M31::from_u32_unchecked(INTERNAL_DIAG[i])).add(sum);
    }
    assert(state@ =~= internal(m31_ops(), s0));
}

} // verus!
