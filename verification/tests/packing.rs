use circuits::balance_commitment::{pack_balance_str, pack_blinder};
use circuits::context::Context;
use circuits::field::{qm31_from_u32s, QM31};
use circuits::ops::{cond_flip, guess};

#[test]
fn balance_string_packing() {
    let balance: &[u8; 12] = b"100         ";
    let expected = qm31_from_u32s(
        u32::from_le_bytes(*b"100 "),
        u32::from_le_bytes(*b"    "),
        u32::from_le_bytes(*b"    "),
        0,
    );
    assert_eq!(pack_balance_str(balance), expected);
}

#[test]
fn blinder_packing_reduces() {
    let blinder = [0xffu8; 16];
    assert_eq!(pack_blinder(&blinder), qm31_from_u32s(1, 1, 1, 1));
    let blinder = [1u8, 0, 0, 0, 2, 0, 0, 0, 3, 0, 0, 0, 0, 1, 0, 0];
    assert_eq!(pack_blinder(&blinder), qm31_from_u32s(1, 2, 3, 256));
}

#[test]
fn cond_flip_swaps_on_one() {
    let mut ctx = Context::default();
    let a = guess(&mut ctx, qm31_from_u32s(3, 1, 4, 1));
    let b = guess(&mut ctx, qm31_from_u32s(5, 9, 2, 6));
    let zero = guess(&mut ctx, QM31::zero());
    let one = guess(&mut ctx, QM31::one());
    let (l, r) = cond_flip(&mut ctx, zero, a, b);
    assert_eq!((ctx.get(l), ctx.get(r)), (ctx.get(a), ctx.get(b)));
    let (l, r) = cond_flip(&mut ctx, one, a, b);
    assert_eq!((ctx.get(l), ctx.get(r)), (ctx.get(b), ctx.get(a)));
}
