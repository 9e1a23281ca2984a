//! The source of chance for the search.

use crate::action::Action;
use rand::rngs::StdRng;
use rand::seq::SliceRandom;
use rand::SeedableRng;
use vstd::prelude::*;

verus! {

/// The generator of the `rand` crate that the search draws from.
#[verifier::external_type_specification]
#[verifier::external_body]
pub struct ExStdRng(rand::rngs::StdRng);

/// Calls `SeedableRng::seed_from_u64` for `StdRng`: a generator started from
/// `seed`. Nothing is claimed of the numbers it will give.
#[verifier::external_body]
pub(crate) fn seeded_rng(seed: u64) -> (rng: StdRng) {
    StdRng::seed_from_u64(seed)
}

/// Calls `SliceRandom::choose` on `actions`: one of its elements, picked at
/// random, or nothing if there is none. Which element is picked is left
/// open.
#[verifier::external_body]
pub(crate) fn choose_action(actions: &Vec<Action>, rng: &mut StdRng) -> (picked: Option<Action>)
    ensures
        actions@.len() == 0 ==> picked is None,
        actions@.len() > 0 ==> picked is Some && actions@.contains(picked.unwrap()),
{
    actions.choose(rng).copied()
}

} // verus!
