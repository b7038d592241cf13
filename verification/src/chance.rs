//! Random draws. What is drawn is never known beforehand, only where it lies.

use crate::error::PursuitError;
use rand::seq::SliceRandom;
use rand::Rng;
use vstd::prelude::*;

verus! {

/// `Rng::gen_range` on the thread's generator, over `0..bound`: some number
/// below `bound`. It panics on an empty range, so `bound` is positive.
#[verifier::external_body]
pub(crate) fn random_below(bound: usize) -> (r: usize)
    requires
        bound > 0,
    ensures
        r < bound,
{
    rand::thread_rng().gen_range(0..bound)
}

/// `SliceRandom::choose` on the thread's generator: one of the entries, and
/// nothing exactly where there is no entry.
#[verifier::external_body]
pub(crate) fn choose_from(choices: &Vec<usize>) -> (r: Option<usize>)
    ensures
        match r {
            Some(x) => choices@.contains(x),
            None => choices@.len() == 0,
        },
{
    choices.choose(&mut rand::thread_rng()).copied()
}

/// One of `choices`, drawn at random; refused where there is nothing to draw
/// from.
pub fn pick(choices: &Vec<usize>) -> (r: Result<usize, PursuitError>)
    ensures
        match r {
            Ok(x) => choices@.contains(x),
            Err(e) => e == PursuitError::EmptyChoiceSet && choices@.len() == 0,
        },
{
    match choose_from(choices) {
        Some(x) => Ok(x),
        None => Err(PursuitError::EmptyChoiceSet),
    }
}

} // verus!
