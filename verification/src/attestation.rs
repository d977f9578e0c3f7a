//! The attestation of a transfer and a circuit that proves knowledge of a
//! blinder under which a public commitment hashes it.
use crate::bytes::{all_digits, decimal_value, lemma_padded_decimal_reads_back, le_u32, padded_decimal, pow10, u32_from_le_bytes, write_padded_decimal};
use crate::context::{lemma_extends_refl, lemma_extends_trans, Context, Var};
use crate::field::{qm31_from_u32s, reduce, spec_qm31_from_u32s, QM31};
use crate::ops::{eq, guess, output};
use crate::poseidon2::{poseidon2_hash_two, spec_hash_two};
use vstd::prelude::*;

verus! {

pub const ATTESTATION_LEN: usize = 32;

const TX_ID_WIDTH: usize = 10;

const USER_ID_WIDTH: usize = 10;

const AMOUNT_WIDTH: usize = 12;

/// The attestation text: `tx_id`, `to_user_id` and `amount` in decimal,
/// zero-padded to 10, 10 and 12 digits.
pub open spec fn spec_attestation_bytes(tx_id: u64, to_user_id: u64, amount: u64) -> Seq<u8> {
    padded_decimal(tx_id as nat, 10) + padded_decimal(to_user_id as nat, 10) + padded_decimal(amount as nat, 12)
}

/// Sixteen bytes as four little-endian words, one coordinate each (reduced
/// mod `P`).
pub open spec fn pack16(b: Seq<u8>) -> QM31 {
    spec_qm31_from_u32s(le_u32(b, 0) as u32, le_u32(b, 4) as u32, le_u32(b, 8) as u32, le_u32(b, 12) as u32)
}

/// Packing sixteen bytes: coordinate `k` is the little-endian word of bytes
/// `4k .. 4k + 4`, reduced mod `P`.
pub proof fn lemma_pack16_coordinates(b: Seq<u8>)
    requires
        b.len() == 16,
    ensures
        pack16(b).0.0 == reduce(b[0] + 256 * b[1] + 65536 * b[2] + 16777216 * b[3]),
        pack16(b).0.1 == reduce(b[4] + 256 * b[5] + 65536 * b[6] + 16777216 * b[7]),
        pack16(b).1.0 == reduce(b[8] + 256 * b[9] + 65536 * b[10] + 16777216 * b[11]),
        pack16(b).1.1 == reduce(b[12] + 256 * b[13] + 65536 * b[14] + 16777216 * b[15]),
{
    lemma_le_u32_fits(b, 0);
    lemma_le_u32_fits(b, 4);
    lemma_le_u32_fits(b, 8);
    lemma_le_u32_fits(b, 12);
}

/// A little-endian word of four bytes fits a `u32`.
proof fn lemma_le_u32_fits(b: Seq<u8>, at: int)
    requires
        0 <= at,
        at + 4 <= b.len(),
    ensures
        le_u32(b, at) < 0x1_0000_0000,
        (le_u32(b, at) as u32) as int == b[at] + 256 * b[at + 1] + 65536 * b[at + 2] + 16777216 * b[at + 3],
{
}

/// The commitment, word by word: the attestation's words at bytes 0, 4, 8,
/// 12 are the coordinates of the first extension element, those at 16, 20,
/// 24, 28 of the second, the blinder's words at 0, 4, 8, 12 of the third;
/// the first two are hashed, then the result with the third.
pub proof fn lemma_attestation_commitment_words(att: Seq<u8>, blinder: Seq<u8>)
    requires
        att.len() == ATTESTATION_LEN,
        blinder.len() == 16,
    ensures
        attestation_commitment(att, blinder) == spec_hash_two(
            spec_hash_two(
                spec_qm31_from_u32s(le_u32(att, 0) as u32, le_u32(att, 4) as u32, le_u32(att, 8) as u32, le_u32(att, 12) as u32),
                spec_qm31_from_u32s(le_u32(att, 16) as u32, le_u32(att, 20) as u32, le_u32(att, 24) as u32, le_u32(att, 28) as u32),
            ),
            spec_qm31_from_u32s(le_u32(blinder, 0) as u32, le_u32(blinder, 4) as u32, le_u32(blinder, 8) as u32, le_u32(blinder, 12) as u32),
        ),
{
    let a0 = att.subrange(0, 16);
    let a1 = att.subrange(16, 32);
    lemma_pack16_coordinates(a0);
    lemma_pack16_coordinates(a1);
    lemma_pack16_coordinates(blinder);
    lemma_le_u32_fits(att, 0);
    lemma_le_u32_fits(att, 4);
    lemma_le_u32_fits(att, 8);
    lemma_le_u32_fits(att, 12);
    lemma_le_u32_fits(att, 16);
    lemma_le_u32_fits(att, 20);
    lemma_le_u32_fits(att, 24);
    lemma_le_u32_fits(att, 28);
    lemma_le_u32_fits(blinder, 0);
    lemma_le_u32_fits(blinder, 4);
    lemma_le_u32_fits(blinder, 8);
    lemma_le_u32_fits(blinder, 12);
}

/// The commitment to an attestation under a blinder:
/// `h1 = P2(att[0..16], att[16..32])`, `h2 = P2(h1, blinder)`.
pub open spec fn attestation_commitment(att: Seq<u8>, blinder: Seq<u8>) -> QM31 {
    spec_hash_two(spec_hash_two(pack16(att.subrange(0, 16)), pack16(att.subrange(16, 32))), pack16(blinder))
}

/// The attestation text of a transfer whose numbers fit their widths is 32
/// ASCII digits, and its three fields read back as `tx_id`, `to_user_id` and
/// `amount`.
pub proof fn lemma_attestation_bytes_read_back(tx_id: u64, to_user_id: u64, amount: u64)
    requires
        tx_id < 10_000_000_000,
        to_user_id < 10_000_000_000,
        amount < 1_000_000_000_000,
    ensures
        ({
            let s = spec_attestation_bytes(tx_id, to_user_id, amount);
            &&& s.len() == ATTESTATION_LEN
            &&& all_digits(s)
            &&& decimal_value(s.subrange(0, 10)) == tx_id
            &&& decimal_value(s.subrange(10, 20)) == to_user_id
            &&& decimal_value(s.subrange(20, 32)) == amount
        }),
{
    reveal_with_fuel(pow10, 13);
    assert(pow10(10) == 10_000_000_000);
    assert(pow10(12) == 1_000_000_000_000);
    lemma_padded_decimal_reads_back(tx_id as nat, 10);
    lemma_padded_decimal_reads_back(to_user_id as nat, 10);
    lemma_padded_decimal_reads_back(amount as nat, 12);
    let a = padded_decimal(tx_id as nat, 10);
    let b = padded_decimal(to_user_id as nat, 10);
    let c = padded_decimal(amount as nat, 12);
    let s = spec_attestation_bytes(tx_id, to_user_id, amount);
    assert(s.subrange(0, 10) =~= a);
    assert(s.subrange(10, 20) =~= b);
    assert(s.subrange(20, 32) =~= c);
    assert forall|i: int| 0 <= i < s.len() implies 48 <= #[trigger] s[i] <= 57 by {
        if i < 10 {
            assert(s[i] == a[i]);
        } else if i < 20 {
            assert(s[i] == b[i - 10]);
        } else {
            assert(s[i] == c[i - 20]);
        }
    }
}

/// The attestation text of a transfer (`spec_attestation_bytes`). Each number
/// must fit its width, or the text would not be 32 bytes long.
pub fn attestation_bytes(tx_id: u64, to_user_id: u64, amount: u64) -> (r: [u8; ATTESTATION_LEN])
    requires
        tx_id < 10_000_000_000,
        to_user_id < 10_000_000_000,
        amount < 1_000_000_000_000,
    ensures
        r@ == spec_attestation_bytes(tx_id, to_user_id, amount),
{
    let mut s = [0u8; ATTESTATION_LEN];
    write_padded_decimal(&mut s, 0, TX_ID_WIDTH, tx_id);
    let ghost s1 = s@;
    write_padded_decimal(&mut s, TX_ID_WIDTH, USER_ID_WIDTH, to_user_id);
    let ghost s2 = s@;
    write_padded_decimal(&mut s, TX_ID_WIDTH + USER_ID_WIDTH, AMOUNT_WIDTH, amount);
    assert(s@.subrange(0, 10) =~= s1.subrange(0, 10));
    assert(s@.subrange(10, 20) =~= s2.subrange(10, 20));
    assert(s@ =~= spec_attestation_bytes(tx_id, to_user_id, amount));
    s
}

fn pack_bytes16(bytes: &[u8; 16]) -> (r: QM31)
    ensures
        r == pack16(bytes@),
        r.canonical(),
{
    qm31_from_u32s(
        u32_from_le_bytes(bytes, 0),
        u32_from_le_bytes(bytes, 4),
        u32_from_le_bytes(bytes, 8),
        u32_from_le_bytes(bytes, 12),
    )
}

/// `b[at .. at + 16]`.
fn bytes16_at(b: &[u8; ATTESTATION_LEN], at: usize) -> (r: [u8; 16])
    requires
        at + 16 <= ATTESTATION_LEN,
    ensures
        r@ == b@.subrange(at as int, at + 16),
{
    let mut r = [0u8; 16];
    for i in 0..16
        invariant
            at + 16 <= ATTESTATION_LEN,
            forall|k: int| 0 <= k < i ==> #[trigger] r@[k] == b@[at + k],
    {
        r[i] = b[at + i];
    }
    assert(r@ =~= b@.subrange(at as int, at + 16));
    r
}

/// Computes the commitment with the gates of a circuit, as the circuit does:
/// `attestation_commitment`.
pub fn compute_attestation_commitment(attestation: &[u8; ATTESTATION_LEN], blinder: &[u8; 16]) -> (r: QM31)
    ensures
        r == attestation_commitment(attestation@, blinder@),
        r.canonical(),
        r == spec_hash_two(
            spec_hash_two(
                spec_qm31_from_u32s(le_u32(attestation@, 0) as u32, le_u32(attestation@, 4) as u32, le_u32(attestation@, 8) as u32, le_u32(attestation@, 12) as u32),
                spec_qm31_from_u32s(le_u32(attestation@, 16) as u32, le_u32(attestation@, 20) as u32, le_u32(attestation@, 24) as u32, le_u32(attestation@, 28) as u32),
            ),
            spec_qm31_from_u32s(le_u32(blinder@, 0) as u32, le_u32(blinder@, 4) as u32, le_u32(blinder@, 8) as u32, le_u32(blinder@, 12) as u32),
        ),
{
    proof {
        lemma_attestation_commitment_words(attestation@, blinder@);
    }
    let mut ctx = Context::new();
    let att0 = ctx.constant(pack_bytes16(&bytes16_at(attestation, 0)));
    let att1 = ctx.constant(pack_bytes16(&bytes16_at(attestation, 16)));
    let b = ctx.constant(pack_bytes16(blinder));
    let ghost c1 = ctx;
    let h1 = poseidon2_hash_two(&mut ctx, att0, att1);
    let ghost c2 = ctx;
    let h2 = poseidon2_hash_two(&mut ctx, h1, b);
    assert(c2.val(b) == c1.val(b));
    ctx.get(h2)
}

/// A circuit that holds exactly when the guessed attestation is the one of
/// the public transfer (`tx_id`, `to_user_id`, `amount`) and hashes, with the
/// guessed blinder, to the public `commitment`. Its outputs are the
/// commitment and the three public numbers (each cut to 32 bits).
#[verifier::rlimit(40)]
pub fn build_attestation_circuit(
    attestation: &[u8; ATTESTATION_LEN],
    blinder: &[u8; 16],
    commitment: QM31,
    tx_id: u64,
    to_user_id: u64,
    amount: u64,
) -> (r: Context)
    requires
        commitment.canonical(),
        tx_id < 10_000_000_000,
        to_user_id < 10_000_000_000,
        amount < 1_000_000_000_000,
    ensures
        r.wf(),
        r.guessed@.len() == 0,
        r.vars_used(),
        r.circuit.yields_each_var_once(),
        r.is_valid() <==> ({
            let expected = spec_attestation_bytes(tx_id, to_user_id, amount);
            &&& pack16(attestation@.subrange(0, 16)) == pack16(expected.subrange(0, 16))
            &&& pack16(attestation@.subrange(16, 32)) == pack16(expected.subrange(16, 32))
            &&& attestation_commitment(attestation@, blinder@) == commitment
        }),
        r.circuit.output@.len() == 4,
        r.values@[r.circuit.output@[0].in0 as int] == commitment,
        r.values@[r.circuit.output@[1].in0 as int] == spec_qm31_from_u32s(tx_id as u32, 0, 0, 0),
        r.values@[r.circuit.output@[2].in0 as int] == spec_qm31_from_u32s(to_user_id as u32, 0, 0, 0),
        r.values@[r.circuit.output@[3].in0 as int] == spec_qm31_from_u32s(amount as u32, 0, 0, 0),
        r.values@[0] == pack16(attestation@.subrange(0, 16)),
        r.values@[1] == pack16(attestation@.subrange(16, 32)),
        r.values@[2] == pack16(blinder@),
        forall|v: Seq<QM31>|
            #[trigger] r.circuit.satisfied_by(v) ==> {
                let expected = spec_attestation_bytes(tx_id, to_user_id, amount);
                &&& v[0] == pack16(expected.subrange(0, 16))
                &&& v[1] == pack16(expected.subrange(16, 32))
                &&& commitment == spec_hash_two(spec_hash_two(v[0], v[1]), v[2])
                &&& v[r.circuit.output@[0].in0 as int] == commitment
            },
{
    let mut ctx = Context::new();

    // Private witnesses: the two halves of attestation and the blinder.
    let att0_var = guess(&mut ctx, pack_bytes16(&bytes16_at(attestation, 0)));
    let att1_var = guess(&mut ctx, pack_bytes16(&bytes16_at(attestation, 16)));
    let blinder_var = guess(&mut ctx, pack_bytes16(blinder));

    // Constrain attestation fields match public tx data.
    let expected_att = attestation_bytes(tx_id, to_user_id, amount);
    let p0 = pack_bytes16(&bytes16_at(&expected_att, 0));
    let expected_att0 = ctx.constant(p0);
    let ghost ca = ctx;
    let p1 = pack_bytes16(&bytes16_at(&expected_att, 16));
    let expected_att1 = ctx.constant(p1);
    let ghost c0 = ctx;
    eq(&mut ctx, att0_var, expected_att0);
    eq(&mut ctx, att1_var, expected_att1);
    let ghost c1 = ctx;

    // Poseidon2: h1 = P2(att0, att1), h2 = P2(h1, blinder).
    let h1 = poseidon2_hash_two(&mut ctx, att0_var, att1_var);
    let ghost c2 = ctx;
    let h2 = poseidon2_hash_two(&mut ctx, h1, blinder_var);
    let ghost c3 = ctx;

    // Constrain Poseidon2 hash matches public commitment.
    let commitment_var = ctx.constant(commitment);
    let ghost c4 = ctx;
    eq(&mut ctx, h2, commitment_var);
    let ghost c5 = ctx;

    // Public outputs: [0] poseidon2_commitment, [1] tx_id, [2] to_user_id, [3] amount.
    let tx_id_var = ctx.constant(qm31_from_u32s(tx_id as u32, 0, 0, 0));
    let ghost c5a = ctx;
    let to_user_id_var = ctx.constant(qm31_from_u32s(to_user_id as u32, 0, 0, 0));
    let ghost c5b = ctx;
    let amount_var = ctx.constant(qm31_from_u32s(amount as u32, 0, 0, 0));
    let ghost c5c = ctx;
    output(&mut ctx, commitment_var);
    let ghost c5d = ctx;
    output(&mut ctx, tx_id_var);
    let ghost c5e = ctx;
    output(&mut ctx, to_user_id_var);
    let ghost c5f = ctx;
    output(&mut ctx, amount_var);
    let ghost c6 = ctx;

    ctx.finalize_guessed_vars();
    assert forall|v: Seq<QM31>| #[trigger] ctx.circuit.satisfied_by(v) implies {
        let expected = spec_attestation_bytes(tx_id, to_user_id, amount);
        &&& v[0] == pack16(expected.subrange(0, 16))
        &&& v[1] == pack16(expected.subrange(16, 32))
        &&& commitment == spec_hash_two(spec_hash_two(v[0], v[1]), v[2])
        &&& v[ctx.circuit.output@[0].in0 as int] == commitment
    } by {
        let d = ctx;
        assert(d.computes(v));
        lemma_extends_refl(&d);
        lemma_extends_trans(&d, &ctx, &c6);
        lemma_extends_trans(&d, &c6, &c5f);
        lemma_extends_trans(&d, &c5f, &c5e);
        lemma_extends_trans(&d, &c5e, &c5d);
        lemma_extends_trans(&d, &c5d, &c5c);
        lemma_extends_trans(&d, &c5c, &c5b);
        lemma_extends_trans(&d, &c5b, &c5a);
        lemma_extends_trans(&d, &c5a, &c5);
        lemma_extends_trans(&d, &c5, &c4);
        lemma_extends_trans(&d, &c4, &c3);
        lemma_extends_trans(&d, &c3, &c2);
        lemma_extends_trans(&d, &c2, &c1);
        lemma_extends_trans(&d, &c1, &c0);
        lemma_extends_trans(&d, &c0, &ca);
        let expected = spec_attestation_bytes(tx_id, to_user_id, amount);
        assert(v[expected_att0.idx as int] == p0);
        assert(v[expected_att1.idx as int] == p1);
        assert(p0 == pack16(expected.subrange(0, 16)));
        assert(p1 == pack16(expected.subrange(16, 32)));
        assert(v[commitment_var.idx as int] == commitment);
        assert(v[h1.idx as int] == spec_hash_two(v[att0_var.idx as int], v[att1_var.idx as int]));
        assert(v[h2.idx as int] == spec_hash_two(v[h1.idx as int], v[blinder_var.idx as int]));
        assert(ctx.circuit.eq@[0] == (crate::circuit::Eq { in0: att0_var.idx, in1: expected_att0.idx }));
        assert(ctx.circuit.eq@[1] == (crate::circuit::Eq { in0: att1_var.idx, in1: expected_att1.idx }));
        assert(ctx.circuit.eq@[2] == (crate::circuit::Eq { in0: h2.idx, in1: commitment_var.idx }));
        assert(ctx.circuit.output@[0] == c5d.circuit.output@[0]);
    }
    proof {
        let e1 = crate::circuit::Eq { in0: att0_var.idx, in1: expected_att0.idx };
        let e2 = crate::circuit::Eq { in0: att1_var.idx, in1: expected_att1.idx };
        let e3 = crate::circuit::Eq { in0: h2.idx, in1: commitment_var.idx };
        assert(ctx.circuit.eq@ =~= seq![e1, e2, e3]);
        crate::context::lemma_valid_iff_eq_holds(&ctx);
        let v = ctx.values@;
        assert(v[att0_var.idx as int] == c0.val(att0_var));
        assert(v[att1_var.idx as int] == c0.val(att1_var));
        assert(v[expected_att0.idx as int] == c0.val(expected_att0));
        assert(v[expected_att1.idx as int] == c0.val(expected_att1));
        assert(v[h2.idx as int] == c3.val(h2));
        assert(v[commitment_var.idx as int] == c4.val(commitment_var));
        assert(c2.val(blinder_var) == c0.val(blinder_var));
        assert(ctx.circuit.eq@[0] == e1);
        assert(ctx.circuit.eq@[1] == e2);
        assert(ctx.circuit.eq@[2] == e3);
        assert(ctx.circuit.output@ == c6.circuit.output@);
        crate::context::lemma_sourced_vars_used(&ctx);
        crate::context::lemma_yields_once_each(&ctx);
    }
    ctx
}

} // verus!
