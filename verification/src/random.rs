//! The random source of a client: draws of 53 bits, each standing for a real
//! in `[0, 1)`.

use rand::rngs::SmallRng;
use rand::RngCore;
use rand::SeedableRng;
use vstd::prelude::*;

verus! {

/// `rand::rngs::SmallRng`, the generator behind a `RandomSource`. Nothing is
/// known of its state.
#[verifier::external_type_specification]
#[verifier::external_body]
pub struct ExSmallRng(SmallRng);

/// Calls `SmallRng::seed_from_u64`. Nothing is claimed of the generator that
/// comes back.
#[verifier::external_body]
fn small_rng_from_seed(seed: u64) -> SmallRng {
    SmallRng::seed_from_u64(seed)
}

/// Calls `RngCore::next_u64` on the generator. Nothing is claimed of the
/// number that comes back: the code that draws is verified for every value.
#[verifier::external_body]
fn small_rng_next(rng: &mut SmallRng) -> u64 {
    rng.next_u64()
}

/// Number of values a draw can take. The draw `d` stands for the real
/// `d / DRAW_RANGE`.
pub const DRAW_RANGE: u64 = 0x20_0000_0000_0000;

/// A source of draws, owned by one client. It records, for the proofs only,
/// every draw it has handed out.
pub struct RandomSource {
    rng: SmallRng,
    drawn: Ghost<Seq<u64>>,
}

impl RandomSource {
    /// The draws handed out so far, oldest first.
    pub closed spec fn history(&self) -> Seq<u64> {
        self.drawn@
    }

    /// A source that draws from `rng`.
    pub fn new(rng: SmallRng) -> (source: Self)
        ensures
            source.history() == Seq::<u64>::empty(),
    {
        RandomSource { rng, drawn: Ghost(Seq::empty()) }
    }

    /// A source whose draws are fixed by `seed`, for runs that can be repeated.
    pub fn seeded(seed: u64) -> (source: Self)
        ensures
            source.history() == Seq::<u64>::empty(),
    {
        RandomSource { rng: small_rng_from_seed(seed), drawn: Ghost(Seq::empty()) }
    }

    /// The next draw: the upper 53 bits of the generator's next 64.
    pub fn next_draw(&mut self) -> (draw: u64)
        ensures
            draw < DRAW_RANGE,
            final(self).history() == old(self).history().push(draw),
    {
        let bits: u64 = small_rng_next(&mut self.rng);
        let draw: u64 = bits >> 11;
        assert(bits >> 11 < 0x20_0000_0000_0000u64) by (bit_vector);
        proof {
            self.drawn@ = self.drawn@.push(draw);
        }
        draw
    }
}

} // verus!
