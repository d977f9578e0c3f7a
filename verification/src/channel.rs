//! The Fiat-Shamir channel over Blake2s into which the claims of a proof are
//! mixed. The channel is held as plain values, its digest and the number of
//! draws since the last mix; the hashing itself is done by `stwo`.
use crate::field::QM31;
use vstd::prelude::*;

verus! {

/// The state of a Blake2s channel.
#[derive(Clone, Copy, Debug)]
pub struct Blake2sChannel {
    /// The digest of everything mixed so far.
    pub digest: [u8; 32],
    /// How many draws were made since the last mix.
    pub n_draws: u32,
}

/// The digest of a Blake2s channel with digest `digest` after `value` is
/// mixed into it.
pub uninterp spec fn blake2s_mixed_u64(digest: Seq<u8>, value: u64) -> Seq<u8>;

/// The digest of a Blake2s channel with digest `digest` after the
/// extension-field elements `felts` are mixed into it.
pub uninterp spec fn blake2s_mixed_felts(digest: Seq<u8>, felts: Seq<QM31>) -> Seq<u8>;

/// `Channel::mix_u64` of `stwo`'s `Blake2sChannel`, on a channel whose digest
/// is `digest`: the new digest is the Blake2s hash of the old one and the two
/// little-endian halves of `value`, a function of `digest` and `value` alone.
#[verifier::external_body]
fn mix_u64_digest(digest: [u8; 32], value: u64) -> (r: [u8; 32])
    ensures
        r@ == blake2s_mixed_u64(digest@, value),
{
    let mut channel = stwo::core::channel::Blake2sChannel::default();
    channel.update_digest(stwo::core::vcs::blake2_hash::Blake2sHash(digest));
    stwo::core::channel::Channel::mix_u64(&mut channel, value);
    channel.digest().0
}

/// `Channel::mix_felts` of `stwo`'s `Blake2sChannel`, on a channel whose digest
/// is `digest`: the new digest is the Blake2s hash of the old one and the
/// little-endian words of the coordinates of `felts`, a function of `digest`
/// and `felts` alone.
#[verifier::external_body]
fn mix_felts_digest(digest: [u8; 32], felts: &[QM31]) -> (r: [u8; 32])
    ensures
        r@ == blake2s_mixed_felts(digest@, felts@),
{
    let felts: Vec<stwo::core::fields::qm31::QM31> = felts.iter().map(
        |q| stwo::core::fields::qm31::QM31::from_u32_unchecked(q.0.0.0, q.0.1.0, q.1.0.0, q.1.1.0),
    ).collect();
    let mut channel = stwo::core::channel::Blake2sChannel::default();
    channel.update_digest(stwo::core::vcs::blake2_hash::Blake2sHash(digest));
    stwo::core::channel::Channel::mix_felts(&mut channel, &felts);
    channel.digest().0
}

impl Blake2sChannel {
    /// A fresh channel: a zero digest and no draws.
    pub fn new() -> (r: Blake2sChannel)
        ensures
            r.digest@ == Seq::new(32, |i: int| 0u8),
            r.n_draws == 0,
    {
        let r = Blake2sChannel { digest: [0u8; 32], n_draws: 0 };
        assert(r.digest@ =~= Seq::new(32, |i: int| 0u8));
        r
    }

    /// Mixes `value` into the channel, which starts a new series of draws.
    pub fn mix_u64(&mut self, value: u64)
        ensures
            final(self).digest@ == blake2s_mixed_u64(old(self).digest@, value),
            final(self).n_draws == 0,
    {
        self.digest = mix_u64_digest(self.digest, value);
        self.n_draws = 0;
    }

    /// Mixes `felts` into the channel, which starts a new series of draws.
    pub fn mix_felts(&mut self, felts: &[QM31])
        ensures
            final(self).digest@ == blake2s_mixed_felts(old(self).digest@, felts@),
            final(self).n_draws == 0,
    {
        self.digest = mix_felts_digest(self.digest, felts);
        self.n_draws = 0;
    }
}

impl Default for Blake2sChannel {
    fn default() -> (r: Blake2sChannel)
        ensures
            r.digest@ == Seq::new(32, |i: int| 0u8),
            r.n_draws == 0,
    {
        Blake2sChannel::new()
    }
}

} // verus!
