//! Trusted access to the process random source. All randomness used by the
//! engine (world sampling, turn order, secret-id assignment) flows through
//! these two wrappers; everything stated about their results holds of every
//! outcome.

use vstd::prelude::*;

use rand::seq::SliceRandom;
use rand::Rng;

verus! {

/// Relies on rand's `Rng::gen_range` over `0..len`: returns one value of the
/// nonempty range, uniformly at random.
#[verifier::external_body]
pub(crate) fn random_index(len: usize) -> (r: usize)
    requires
        len > 0,
    ensures
        r < len,
{
    rand::thread_rng().gen_range(0..len)
}

/// Relies on rand's `SliceRandom::shuffle`: permutes the elements in place by
/// index swaps (a Fisher-Yates shuffle), uniformly at random.
#[verifier::external_body]
pub(crate) fn shuffle<T>(v: &mut Vec<T>)
    ensures
        final(v)@.len() == old(v)@.len(),
        final(v)@.to_multiset() == old(v)@.to_multiset(),
{
    v.shuffle(&mut rand::thread_rng());
}

} // verus!
