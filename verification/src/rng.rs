//! Trusted boundary around the `rand` crate.
//!
//! The engine draws randomness only through the three wrappers below; every
//! caller states what holds of any outcome, never which outcome comes.

use vstd::prelude::*;

use rand::seq::SliceRandom;
use rand::Rng;

verus! {

/// Declares rand's `ThreadRng` so that a generator handle can stand in
/// the engine's signatures; the engine never looks inside it.
#[verifier::external_type_specification]
#[verifier::external_body]
pub struct ExThreadRng(rand::rngs::ThreadRng);

/// Both values stand in `items`, at two distinct positions.
pub open spec fn two_distinct_members(items: Seq<usize>, a: usize, b: usize) -> bool {
    exists|i: int, j: int|
        0 <= i < items.len() && 0 <= j < items.len() && i != j && a == items[i] && b == items[j]
}

/// Relies on rand's `SliceRandom::choose_multiple`: it yields the requested
/// number of elements of the slice, taken at distinct indices ("without
/// repetition"), whenever the slice is long enough.
#[verifier::external_body]
pub(crate) fn choose_two_from(rng: &mut rand::rngs::ThreadRng, items: &Vec<usize>) -> (r: (
    usize,
    usize,
))
    requires
        items@.len() >= 2,
    ensures
        two_distinct_members(items@, r.0, r.1),
{
    let mut chosen = items.choose_multiple(rng, 2);
    let first = *chosen.next().unwrap();
    let second = *chosen.next().unwrap();
    (first, second)
}

/// Relies on rand's `SliceRandom::choose`: on a non-empty slice it returns
/// `Some` of one of the slice's elements.
#[verifier::external_body]
pub(crate) fn choose_one_from(rng: &mut rand::rngs::ThreadRng, items: &Vec<usize>) -> (r: usize)
    requires
        items@.len() >= 1,
    ensures
        items@.contains(r),
{
    *items.choose(rng).unwrap()
}

/// Relies on rand's `Rng::gen_ratio`, which returns true with probability
/// `num` in `den` and panics only when `den == 0` or `num > den`; nothing
/// can be promised of a single draw.
#[verifier::external_body]
pub(crate) fn ratio_event(rng: &mut rand::rngs::ThreadRng, num: u32, den: u32) -> bool
    requires
        0 < den,
        num <= den,
{
    rng.gen_ratio(num, den)
}

} // verus!
