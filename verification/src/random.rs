//! Random choices, drawn from the `rand` crate's thread-local generator.
use vstd::prelude::*;
use rand::Rng;
use rand::seq::SliceRandom;

verus! {

/// `rand::Rng::gen_range(0..bound)` on `rand::thread_rng()`: a number in
/// `0..bound`. Which one it is depends on chance and is not stated.
/// `gen_range` panics on an empty range, hence `bound > 0`.
#[verifier::external_body]
pub(crate) fn random_below(bound: usize) -> (r: usize)
    requires
        bound > 0,
    ensures
        r < bound,
{
    rand::thread_rng().gen_range(0..bound)
}

/// `rand::seq::SliceRandom::choose` on `rand::thread_rng()`: `None` for
/// an empty list, otherwise a copy of one of its words. Which word is
/// chosen depends on chance and is not stated.
#[verifier::external_body]
pub(crate) fn choose_word(words: &Vec<String>) -> (r: Option<String>)
    ensures
        r is None <==> words@.len() == 0,
        r matches Some(w) ==> exists|i: int| 0 <= i < words@.len() && words@[i]@ == w@,
{
    match words.choose(&mut rand::thread_rng()) {
        Some(w) => Some(w.clone()),
        None => None,
    }
}

} // verus!
