//! A small seeded source of 64-bit pseudo-random words.

pub mod clock;
pub mod feedback;
pub mod rnd_vec;

use crate::modnar::feedback::BYTE_FEEDBACK;
use vstd::prelude::*;

verus! {

/// The algorithm a source steps with.
#[derive(Clone, Copy, Debug, PartialEq, Eq, Structural)]
pub enum Generator {
    /// No algorithm chosen: such a source cannot be stepped.
    Dummy,
    /// Byte-wise linear-feedback shift register.
    Lsfr,
    /// Multiplicative mixer over a counter.
    Rng,
}

/// What a source consists of.
pub struct ModnarView {
    pub seed: u64,
    pub generator: Generator,
}

/// A seeded source of 64-bit pseudo-random words.
pub struct Modnar {
    seed: u64,
    generator: Generator,
}

impl View for Modnar {
    type V = ModnarView;

    closed spec fn view(&self) -> ModnarView {
        ModnarView { seed: self.seed, generator: self.generator }
    }
}

/// The register after one step of the shift register.
pub open spec fn lsfr_step(seed: u64) -> u64 {
    (seed >> 8) ^ BYTE_FEEDBACK[(seed & 0xff) as int]
}

/// One step of the shift register: the register moves on, and its new content
/// is the word given out.
pub fn lsfr_(r: &mut Modnar) -> (word: u64)
    ensures
        final(r)@.seed == lsfr_step(old(r)@.seed),
        final(r)@.generator == old(r)@.generator,
        word == final(r)@.seed,
{
    let seed = r.seed;
    let low = seed & 0xff;
    assert(low < 256) by (bit_vector)
        requires
            low == seed & 0xff,
    ;
    r.seed = (seed >> 8) ^ BYTE_FEEDBACK[low as usize];
    r.seed
}

/// Increment of the mixer's counter.
pub const RNG_INCREMENT: u64 = 12964901029718341801;

/// Multiplier mask of the mixer.
pub const RNG_MULTIPLIER: u64 = 149988720821803190;

/// The counter after one step of the mixer.
pub open spec fn rng_step(seed: u64) -> u64 {
    seed.wrapping_add(RNG_INCREMENT)
}

/// The word the mixer gives out for the counter value `counter`.
pub open spec fn rng_word(counter: u64) -> u64 {
    let mixed = counter.wrapping_mul(RNG_MULTIPLIER ^ counter);
    mixed ^ (mixed >> 32)
}

/// One step of the mixer: the counter moves on by a fixed increment, and the
/// word given out is the counter multiplied by a mask of itself, folded onto
/// its upper half.
pub fn rng_(rng: &mut Modnar) -> (word: u64)
    ensures
        final(rng)@.seed == rng_step(old(rng)@.seed),
        final(rng)@.generator == old(rng)@.generator,
        word == rng_word(final(rng)@.seed),
{
    let mut value = rng.seed.wrapping_add(RNG_INCREMENT);
    rng.seed = value;
    value = value.wrapping_mul(RNG_MULTIPLIER ^ value);
    value ^ (value >> 32)
}

/// Mixes two words into one: their wrapped sum, with the second word shifted
/// up by ten bits folded in.
pub open spec fn mix2_64_spec(x: u64, y: u64) -> u64 {
    x.wrapping_add(y) ^ (y << 10)
}

/// Mixes two words into one.
pub fn mix2_64(x: u64, y: u64) -> (r: u64)
    ensures
        r == mix2_64_spec(x, y),
{
    x.wrapping_add(y) ^ (y << 10)
}

/// The seed for a point in time given as whole seconds and the nanoseconds
/// beyond them.
pub fn hash_time(secs: u64, subsec_nanos: u32) -> (seed: u64)
    ensures
        seed == mix2_64_spec(secs, subsec_nanos as u64),
{
    mix2_64(secs, subsec_nanos as u64)
}

/// A seed taken from the wall clock, or `None` where the clock is set to
/// before the epoch.
pub fn random_seed_() -> (seed: Option<u64>)
    ensures
        seed matches Some(s) ==> exists|secs: u64, nanos: u32|
            nanos < 1_000_000_000 && s == #[trigger] mix2_64_spec(secs, nanos as u64),
{
    seed_for(match clock::since_epoch() {
        Ok(duration) => Some((duration.as_secs(), duration.subsec_nanos())),
        Err(_) => None,
    })
}

impl Default for Modnar {
    /// A source without an algorithm.
    fn default() -> (r: Self)
        ensures
            r@ == (ModnarView { seed: 0, generator: Generator::Dummy }),
    {
        Self { seed: 0, generator: Generator::Dummy }
    }
}

impl Modnar {
    /// A shift-register source that starts from `seed`.
    pub fn new_lsfr(seed: u64) -> (r: Self)
        ensures
            r@ == (ModnarView { seed, generator: Generator::Lsfr }),
    {
        Self { seed: seed, generator: Generator::Lsfr }
    }

    /// A mixer source seeded from the wall clock, or `None` where the clock
    /// gives no seed.
    pub fn new_rng() -> (r: Option<Self>)
        ensures
            r matches Some(m) ==> m@.generator == Generator::Rng && exists|secs: u64, nanos: u32|
                nanos < 1_000_000_000 && m@.seed == #[trigger] mix2_64_spec(secs, nanos as u64),
    {
        Self::rng_for(random_seed_())
    }

    /// A mixer source that starts from the seed that the clock gave, or
    /// `None` where it gave none.
    pub fn rng_for(seed: Option<u64>) -> (r: Option<Self>)
        ensures
            match seed {
                Some(s) => r matches Some(m) && m@ == (ModnarView {
                    seed: s,
                    generator: Generator::Rng,
                }),
                None => r.is_none(),
            },
    {
        match seed {
            Some(seed) => Some(Self::with_seed(seed)),
            None => None,
        }
    }

    /// A mixer source that starts from `seed`.
    pub fn with_seed(seed: u64) -> (r: Self)
        ensures
            r@ == (ModnarView { seed, generator: Generator::Rng }),
    {
        Self { seed: seed, generator: Generator::Rng }
    }

    /// The algorithm this source steps with.
    pub fn generator(&self) -> (g: Generator)
        ensures
            g == self@.generator,
    {
        self.generator
    }

    /// The seed after one step.
    pub open spec fn next_seed(v: ModnarView) -> u64 {
        match v.generator {
            Generator::Lsfr => lsfr_step(v.seed),
            _ => rng_step(v.seed),
        }
    }

    /// The word given out by one step.
    pub open spec fn next_word(v: ModnarView) -> u64 {
        match v.generator {
            Generator::Lsfr => lsfr_step(v.seed),
            _ => rng_word(rng_step(v.seed)),
        }
    }

    /// Steps the source and gives out the next word. A source without an
    /// algorithm cannot be stepped.
    pub fn next_word_raw(&mut self) -> (word: u64)
        requires
            old(self)@.generator != Generator::Dummy,
        ensures
            final(self)@.generator == old(self)@.generator,
            final(self)@.seed == Self::next_seed(old(self)@),
            word == Self::next_word(old(self)@),
    {
        match self.generator {
            Generator::Lsfr => lsfr_(self),
            _ => rng_(self),
        }
    }
}

/// The seed for a reading of the clock, given as the whole seconds and the
/// nanoseconds beyond them that have passed since the epoch, or `None` where
/// the clock gave no reading.
pub fn seed_for(reading: Option<(u64, u32)>) -> (seed: Option<u64>)
    ensures
        seed == match reading {
            Some((secs, nanos)) => Some(mix2_64_spec(secs, nanos as u64)),
            None => None,
        },
{
    match reading {
        Some((secs, nanos)) => Some(hash_time(secs, nanos)),
        None => None,
    }
}

} // verus!
