use circuits::air::{CircuitInteractionClaim, Claim, InteractionClaim};
use circuits::channel::Blake2sChannel;
use circuits::field::qm31_from_u32s;

fn stwo_qm31(a: u32, b: u32, c: u32, d: u32) -> stwo::core::fields::qm31::QM31 {
    stwo::core::fields::qm31::QM31::from_u32_unchecked(a, b, c, d)
}

#[test]
fn fresh_channel_is_zero() {
    let channel = Blake2sChannel::default();
    assert_eq!(channel.digest, [0u8; 32]);
    assert_eq!(channel.n_draws, 0);
    assert_eq!(stwo::core::channel::Blake2sChannel::default().digest().0, [0u8; 32]);
}

#[test]
fn claim_mixes_its_log_size() {
    let mut channel = Blake2sChannel::new();
    Claim { log_size: 17 }.mix_into(&mut channel);
    let mut reference = stwo::core::channel::Blake2sChannel::default();
    stwo::core::channel::Channel::mix_u64(&mut reference, 17);
    assert_eq!(channel.digest, reference.digest().0);
    assert_ne!(channel.digest, [0u8; 32]);
    assert_eq!(channel.n_draws, 0);
}

#[test]
fn interaction_claim_mixes_its_sum() {
    let mut channel = Blake2sChannel::new();
    Claim { log_size: 5 }.mix_into(&mut channel);
    InteractionClaim { claimed_sum: qm31_from_u32s(1, 2, 3, 4) }.mix_into(&mut channel);
    let mut reference = stwo::core::channel::Blake2sChannel::default();
    stwo::core::channel::Channel::mix_u64(&mut reference, 5);
    stwo::core::channel::Channel::mix_felts(&mut reference, &[stwo_qm31(1, 2, 3, 4)]);
    assert_eq!(channel.digest, reference.digest().0);
}

#[test]
fn circuit_interaction_claim_mixes_the_sums_in_order() {
    let sums = [qm31_from_u32s(1, 0, 0, 0), qm31_from_u32s(0, 2, 0, 0), qm31_from_u32s(0, 0, 3, 9)];
    let mut channel = Blake2sChannel::new();
    CircuitInteractionClaim { claimed_sums: sums }.mix_into(&mut channel);
    let mut reference = stwo::core::channel::Blake2sChannel::default();
    stwo::core::channel::Channel::mix_felts(&mut reference, &[stwo_qm31(1, 0, 0, 0), stwo_qm31(0, 2, 0, 0), stwo_qm31(0, 0, 3, 9)]);
    assert_eq!(channel.digest, reference.digest().0);
    let mut swapped = Blake2sChannel::new();
    CircuitInteractionClaim { claimed_sums: [sums[1], sums[0], sums[2]] }.mix_into(&mut swapped);
    assert_ne!(swapped.digest, channel.digest);
}
