use vstd::prelude::*;
use rand::distributions::{Distribution, Uniform};

verus! {

/// A number drawn from `low..=high` with `rand`'s `Uniform` distribution and
/// the thread-local generator (`Uniform::from`, `Distribution::sample`,
/// `rand::thread_rng`). The contract claims only that the number lies in the
/// range: which one comes is left to chance. `Uniform::from` panics when
/// `low > high`, so that is not accepted.
#[verifier::external_body]
pub(crate) fn uniform_in(low: usize, high: usize) -> (r: usize)
    requires
        low <= high,
    ensures
        low <= r <= high,
{
    let between = Uniform::from(low..=high);
    between.sample(&mut rand::thread_rng())
}

} // verus!
