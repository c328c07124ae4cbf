//! Chance: the random number generator of the `rand` crate, and the calls
//! that draw from it. Verus takes these contracts on trust; each says only
//! what holds of every draw.

use vstd::prelude::*;
use rand::rngs::StdRng;
use rand::seq::IndexedRandom;
use rand::seq::SliceRandom;
use rand::Rng;

verus! {

/// `StdRng` of rand: the random number generator. Verus sees nothing
/// inside it, and nothing is claimed of what it will draw.
#[verifier::external_type_specification]
#[verifier::external_body]
pub struct ExStdRng(StdRng);

/// `SliceRandom::shuffle` of rand: puts the items in an order picked at
/// random, by swapping them in place. Which order comes out is open; the
/// items are the same, each as often as before.
#[verifier::external_body]
pub(crate) fn shuffle(items: &mut Vec<usize>, rng: &mut StdRng)
    ensures
        final(items)@.to_multiset() == old(items)@.to_multiset(),
{
    items.shuffle(rng)
}

/// `Rng::random_ratio` of rand with numerator 1: true with one chance in
/// `n`. Which comes out is open, but that one chance in one is certain.
#[verifier::external_body]
pub(crate) fn one_in(rng: &mut StdRng, n: u32) -> (b: bool)
    requires
        n >= 1,
    ensures
        n == 1 ==> b,
{
    rng.random_ratio(1, n)
}

/// `Rng::random_range` of rand on the range below `total`: a number at
/// least 0 and less than `total`, picked at random. The range must not be
/// empty, or the call panics.
#[verifier::external_body]
pub(crate) fn random_below(rng: &mut StdRng, total: u128) -> (r: u128)
    requires
        total > 0,
    ensures
        r < total,
{
    rng.random_range(0..total)
}

/// `IndexedRandom::choose` of rand on a slice: one of the items, picked at
/// random, and none where there is no item.
#[verifier::external_body]
pub(crate) fn choose_item<T: Copy>(items: &Vec<T>, rng: &mut StdRng) -> (picked: Option<T>)
    ensures
        picked is None <==> items@.len() == 0,
        picked matches Some(item) ==> items@.contains(item),
{
    items.choose(rng).copied()
}

} // verus!
