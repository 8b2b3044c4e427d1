//! The `rand` crate's seeded generator, read as a deterministic stream.

use rand::rngs::StdRng;
use rand::{Rng, RngCore, SeedableRng};
use vstd::prelude::*;

verus! {

/// The seeded standard generator of `rand`.
#[verifier::external_type_specification]
#[verifier::external_body]
pub struct ExStdRng(StdRng);

/// Calls `SeedableRng::seed_from_u64` of `rand`: the standard generator
/// seeded from `seed`. The generator state is opaque here; nothing more is
/// claimed of it ([`Stream::new`] records the seed beside it).
#[verifier::external_body]
fn seeded(seed: u64) -> StdRng {
    StdRng::seed_from_u64(seed)
}

/// The word that `RngCore::next_u64` of `rand`'s standard generator
/// (ChaCha12) returns when it was seeded with `seed` by `seed_from_u64` and
/// has since been read up to position `pos`, and the position after the read.
/// The generator is deterministic: this is a function of the seed and the
/// position alone.
pub uninterp spec fn stdrng_next(seed: u64, pos: nat) -> (u64, nat);

/// The value that `Rng::gen_range(0..n)` of `rand` returns for `u64` on the
/// standard generator seeded with `seed` and read up to position `pos`, and
/// the position after the call (it reads as many words as its rejection
/// sampling needs).
pub uninterp spec fn stdrng_index(seed: u64, pos: nat, n: u64) -> (u64, nat);

/// The standard generator of `rand`, seeded once, with the seed it was made
/// from and how far it has been read. The position counts the generator's
/// 32-bit output words consumed since seeding; it is changed only by the
/// reads below, each of which consumes the words it reports.
pub struct Stream {
    rng: StdRng,
    seed: Ghost<u64>,
    pos: Ghost<nat>,
}

impl Stream {
    /// The seed the generator was made from.
    pub closed spec fn seed(&self) -> u64 {
        self.seed@
    }

    /// How far the generator has been read.
    pub closed spec fn pos(&self) -> nat {
        self.pos@
    }

    /// A fresh generator seeded with `seed`, read up to position 0.
    pub fn new(seed: u64) -> (s: Stream)
        ensures
            s.seed() == seed,
            s.pos() == 0,
    {
        Stream { rng: seeded(seed), seed: Ghost(seed), pos: Ghost(0) }
    }

    /// Calls `RngCore::next_u64` of `rand` on the generator: the next 64
    /// random bits, which are the stream's word at the current position; the
    /// generator moves past them. The seed is kept.
    #[verifier::external_body]
    pub(crate) fn next_word(&mut self) -> (r: u64)
        ensures
            (r, final(self).pos()) == stdrng_next(old(self).seed(), old(self).pos()),
            final(self).seed() == old(self).seed(),
    {
        self.rng.next_u64()
    }

    /// Calls `Rng::gen_range(0..n)` of `rand` on the generator, over `u64`:
    /// an index drawn uniformly from `0..n`, which is the stream's value at
    /// the current position; the generator moves past the words it read.
    /// `gen_range` panics on an empty range, hence `n > 0`.
    #[verifier::external_body]
    pub(crate) fn index_below(&mut self, n: usize) -> (r: usize)
        requires
            n > 0,
        ensures
            r < n,
            (r as u64, final(self).pos()) == stdrng_index(old(self).seed(), old(self).pos(), n as u64),
            final(self).seed() == old(self).seed(),
    {
        self.rng.gen_range(0..n as u64) as usize
    }
}

/// Resolution of a uniform draw on `[0, 1)`: `rand` builds
/// `gen_range(0.0..1.0)` for `f64` from the top 52 bits of one 64-bit word,
/// as `(word >> 12) / 2^52`.
pub const UNIT_STEPS: u64 = 0x10_0000_0000_0000;

/// The comparison of one uniform draw with a probability: the 64-bit
/// `word` gives the draw `u = (word >> 12) / 2^52`, exactly as
/// `gen_range(0.0..1.0)` builds it, and the probability `p` is given as the
/// threshold `ceil(p * 2^52)`; the answer is `u < p`. A threshold of at least
/// `2^52` (`p >= 1`) always passes and a threshold of 0 (`p <= 0`) never does.
pub fn steps_below(word: u64, threshold: u64) -> (r: bool)
    ensures
        r == ((word >> 12u64) < threshold),
        threshold >= UNIT_STEPS ==> r,
        threshold == 0 ==> !r,
{
    assert(word >> 12u64 < 0x10_0000_0000_0000u64) by (bit_vector);
    (word >> 12) < threshold
}

/// One uniform draw on `[0, 1)` from the generator, compared with a
/// probability given as a threshold (see [`steps_below`]): returns the
/// answer and the 64-bit word that was drawn.
pub fn draw_below(rng: &mut Stream, threshold: u64) -> (r: (bool, u64))
    ensures
        (r.1, final(rng).pos()) == stdrng_next(old(rng).seed(), old(rng).pos()),
        final(rng).seed() == old(rng).seed(),
        r.0 == ((r.1 >> 12u64) < threshold),
        threshold >= UNIT_STEPS ==> r.0,
        threshold == 0 ==> !r.0,
{
    let word = rng.next_word();
    (steps_below(word, threshold), word)
}

} // verus!
