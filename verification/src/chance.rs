//! Chance in battle: the enemy picks its ability and its target at random.
use vstd::prelude::*;
use rand::seq::IndexedRandom;

verus! {

/// `IndexedRandom::choose` of the `rand` crate, with a fresh handle on the
/// thread's generator: one of `names`, picked at random, or none when `names`
/// is empty. Which one comes back is chance: only that it is one of `names`
/// is stated.
#[verifier::external_body]
pub(crate) fn pick_name(names: &Vec<String>) -> (r: Option<&String>)
    ensures
        r is None <==> names@.len() == 0,
        r matches Some(s) ==> names@.contains(*s),
{
    names.choose(&mut rand::rng())
}

} // verus!
