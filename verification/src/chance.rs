//! What is left to chance.
//!
//! Both functions use the generator that `rand::thread_rng` keeps for the thread. It is seeded
//! from the operating system when the thread first asks for it; where that fails, `rand` panics.
use vstd::prelude::*;
use rand::seq::SliceRandom;

verus! {

/// One of `candidates`, chosen by `rand::seq::SliceRandom::choose`. Believed of it, not proved:
/// the result is `None` exactly if there is no candidate, and is one of the candidates
/// otherwise. Which one is not said.
#[verifier::external_body]
pub(crate) fn pick(candidates: &Vec<usize>) -> (r: Option<usize>)
    ensures
        r is None <==> candidates.len() == 0,
        r matches Some(c) ==> candidates@.contains(c),
{
    candidates.choose(&mut rand::thread_rng()).copied()
}

/// Puts `items` in a random order, by `rand::seq::SliceRandom::shuffle`. Believed of it, not
/// proved: the items are the same as before, each as often as before. In which order is not
/// said.
#[verifier::external_body]
pub(crate) fn shuffle<T>(items: &mut Vec<T>)
    ensures
        final(items)@.to_multiset() == old(items)@.to_multiset(),
{
    items.shuffle(&mut rand::thread_rng());
}

} // verus!
