use rand::seq::SliceRandom;
use vstd::prelude::*;
use crate::domain::VecShuffleStrategy;

verus! {

/// The ways of reordering a vector that the library offers.
#[derive(Debug)]
pub enum ShuffleStrategies {
    /// Leaves the vector as it is.
    NoShuffle,
    /// Puts the vector in a random order.
    RandomShuffle,
}

/// Relies on rand's `SliceRandom::shuffle` with `thread_rng`: it only swaps
/// elements of the vector, so it keeps the same elements in some order.
#[verifier::external_body]
fn shuffle_randomly<T>(vec: &mut Vec<T>)
    ensures
        final(vec)@.to_multiset() == old(vec)@.to_multiset(),
{
    let mut rng = rand::thread_rng();
    vec.shuffle(&mut rng);
}

impl VecShuffleStrategy for ShuffleStrategies {
    open spec fn keeps_order(&self) -> bool {
        *self == ShuffleStrategies::NoShuffle
    }

    fn shuffle<T>(&self, vec: &mut Vec<T>) {
        match self {
            ShuffleStrategies::NoShuffle => {},
            ShuffleStrategies::RandomShuffle => {
                shuffle_randomly(vec);
            },
        }
    }
}

} // verus!
