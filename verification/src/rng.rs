//! A seedable source of shuffles for the solver's candidate lists, wrapped
//! around rand's small generator so that search runs are reproducible.

use vstd::prelude::*;

use crate::basic_types::Word;

verus! {

/// The declared shape of rand's small seedable generator.
#[verifier::external_type_specification]
#[verifier::external_body]
pub struct ExSmallRng(rand::rngs::SmallRng);

/// Relies on rand's SeedableRng::seed_from_u64: builds a generator whose
/// draws are determined by the seed.
#[verifier::external_body]
fn seeded_rng(seed: u64) -> rand::rngs::SmallRng {
    <rand::rngs::SmallRng as rand::SeedableRng>::seed_from_u64(seed)
}

/// Relies on rand's SliceRandom::shuffle: permutes the slice in place, so
/// the words afterwards are exactly the words before, reordered.
#[verifier::external_body]
fn shuffle_words(words: &mut Vec<Word>, rng: &mut rand::rngs::SmallRng)
    ensures
        final(words)@.to_multiset() == old(words)@.to_multiset(),
{
    rand::seq::SliceRandom::shuffle(words.as_mut_slice(), rng);
}

/// A seedable shuffler: equal seeds give equal shuffle sequences within one
/// build, which makes randomized searches reproducible.
pub struct Shuffler {
    rng: rand::rngs::SmallRng,
}

impl Shuffler {
    /// A shuffler whose draws are determined by the seed.
    pub fn from_seed(seed: u64) -> Shuffler {
        Shuffler { rng: seeded_rng(seed) }
    }

    /// Reorders the words in place; the multiset of words is unchanged.
    pub fn shuffle(&mut self, words: &mut Vec<Word>)
        ensures
            final(words)@.to_multiset() == old(words)@.to_multiset(),
    {
        shuffle_words(words, &mut self.rng);
    }
}

} // verus!
