//! A seeded random source backed by the ChaCha8 stream cipher. The generator
//! state is a pure function of the seed and of the sequence of bounded draws
//! already made, so every draw is named by `chacha_draw` over that history:
//! this is what makes whole-workload determinism provable.

use rand::Rng;
use vstd::prelude::*;

verus! {

#[verifier::external_type_specification]
#[verifier::external_body]
pub struct ExChaCha8Rng(rand_chacha::ChaCha8Rng);

/// The value that the ChaCha8 generator seeded with `seed` yields for a draw
/// bounded by `bound`, after the draws whose bounds `history` lists were made.
/// The stream cipher and the uniform-integer sampler are both deterministic
/// functions of the seed and the draw sequence, on every machine, so this is
/// a function of its arguments alone.
pub uninterp spec fn chacha_draw(seed: u64, history: Seq<int>, bound: int) -> int;

/// A ChaCha8 generator together with the seed it was built from and the
/// bounds of the draws made so far.
pub struct SeededRng {
    inner: rand_chacha::ChaCha8Rng,
    seed: Ghost<u64>,
    history: Ghost<Seq<int>>,
}

impl SeededRng {
    /// The seed this generator was built from.
    pub closed spec fn seed(&self) -> u64 {
        self.seed@
    }

    /// The bounds of the draws made so far, oldest first.
    pub closed spec fn history(&self) -> Seq<int> {
        self.history@
    }

    /// Relies on `rand::SeedableRng::seed_from_u64` for `ChaCha8Rng`: the
    /// resulting generator state is a deterministic function of the seed.
    #[verifier::external_body]
    pub fn new(seed: u64) -> (r: SeededRng)
        ensures
            r.seed() == seed,
            r.history() == Seq::<int>::empty(),
    {
        SeededRng {
            inner: <rand_chacha::ChaCha8Rng as rand::SeedableRng>::seed_from_u64(seed),
            seed: Ghost(seed),
            history: Ghost(Seq::empty()),
        }
    }

    /// Relies on `rand::Rng::gen_range` over `0..bound` for `ChaCha8Rng`: it
    /// returns a value below `bound`, by rejection sampling on the cipher's
    /// output words, so the value is a deterministic function of the seed and
    /// of the bounds of all prior draws. It panics only on an empty range,
    /// which `bound >= 1` rules out.
    #[verifier::external_body]
    pub fn gen_range(&mut self, bound: u64) -> (r: u64)
        requires
            bound >= 1,
        ensures
            r < bound,
            r == chacha_draw(old(self).seed(), old(self).history(), bound as int),
            final(self).seed() == old(self).seed(),
            final(self).history() == old(self).history().push(bound as int),
    {
        self.inner.gen_range(0..bound)
    }
}

} // verus!
