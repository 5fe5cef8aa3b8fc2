//! The random source: rand's standard generator, which the library only
//! seeds and reads, together with a record of every value it has handed out.
use rand::rngs::{OsRng, StdRng};
use rand::RngCore;
use rand::SeedableRng;
use vstd::prelude::*;

verus! {

/// rand's standard generator; its state is opaque here.
#[verifier::external_type_specification]
#[verifier::external_body]
pub struct ExStdRng(StdRng);

/// Relies on rand's `SeedableRng::from_rng` for `StdRng`, fed by `OsRng`: a
/// generator seeded by the operating system, or `None` where the operating
/// system gives no entropy.
#[verifier::external_body]
fn os_seeded_generator() -> (r: Option<StdRng>) {
    StdRng::from_rng(OsRng).ok()
}

/// Relies on rand's `SeedableRng::seed_from_u64` for `StdRng`: a generator
/// whose stream depends on the seed alone.
#[verifier::external_body]
fn seeded_generator(seed: u64) -> (r: StdRng) {
    StdRng::seed_from_u64(seed)
}

/// Relies on rand's `RngCore::next_u64` for `StdRng`: the next value of the
/// stream, which may be any `u64`; the generator advances.
#[verifier::external_body]
fn next_draw(generator: &mut StdRng) -> (r: u64) {
    generator.next_u64()
}

/// A generator and the values drawn from it so far, oldest first.
pub struct RandomSource {
    generator: StdRng,
    drawn: Ghost<Seq<u64>>,
}

impl RandomSource {
    /// Every value drawn from this source, in the order drawn.
    pub closed spec fn draws(&self) -> Seq<u64> {
        self.drawn@
    }

    /// A source seeded by the operating system, or `None` where it has no
    /// entropy to give.
    pub fn from_os() -> (r: Option<RandomSource>)
        ensures
            r matches Some(s) ==> s.draws().len() == 0,
    {
        match os_seeded_generator() {
            Some(generator) => Some(RandomSource { generator, drawn: Ghost(Seq::empty()) }),
            None => None,
        }
    }

    /// A source whose stream is fixed by `seed`.
    pub fn seeded(seed: u64) -> (r: RandomSource)
        ensures
            r.draws().len() == 0,
    {
        RandomSource { generator: seeded_generator(seed), drawn: Ghost(Seq::empty()) }
    }

    /// Draws one value, uniform over all of `u64`, and records it.
    pub fn next(&mut self) -> (r: u64)
        ensures
            final(self).draws() == old(self).draws().push(r),
    {
        let r = next_draw(&mut self.generator);
        self.drawn = Ghost(self.drawn@.push(r));
        r
    }
}

} // verus!
