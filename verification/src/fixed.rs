//! The fixed-capacity vectors of the `arrayvec` crate, as far as the library
//! uses them: what such a vector holds, and the calls that build and read
//! one. Verus takes these contracts on trust.

use vstd::prelude::*;
use arrayvec::ArrayVec;

verus! {

/// `ArrayVec` of arrayvec: a vector of at most `CAP` items, stored in place.
/// Verus sees nothing inside it; what it holds has a name below.
#[verifier::external_type_specification]
#[verifier::external_body]
#[verifier::reject_recursive_types(T)]
pub struct ExArrayVec<T, const CAP: usize>(ArrayVec<T, CAP>);

/// The cells that a vector of up to six cells holds, in order.
pub uninterp spec fn cells_of(v: ArrayVec<u8, 6>) -> Seq<u8>;

/// The scores that a vector of up to four scores holds, in order.
pub uninterp spec fn scores_of(v: ArrayVec<usize, 4>) -> Seq<usize>;

/// `ArrayVec::new`: a vector that holds nothing.
#[verifier::external_body]
pub(crate) fn cells_new() -> (v: ArrayVec<u8, 6>)
    ensures
        cells_of(v) == Seq::<u8>::empty(),
{
    ArrayVec::new()
}

/// `ArrayVec::push`: appends `cell` behind what the vector holds. The
/// vector must not be full, or the call panics.
#[verifier::external_body]
pub(crate) fn cells_push(v: &mut ArrayVec<u8, 6>, cell: u8)
    requires
        cells_of(*old(v)).len() < 6,
    ensures
        cells_of(*final(v)) == cells_of(*old(v)).push(cell),
{
    v.push(cell)
}

/// `ArrayVec::as_slice`: what the vector holds, as a slice.
#[verifier::external_body]
pub(crate) fn cells_slice(v: &ArrayVec<u8, 6>) -> (s: &[u8])
    ensures
        s@ == cells_of(*v),
{
    v.as_slice()
}

/// `ArrayVec::new`: a vector that holds nothing.
#[verifier::external_body]
pub(crate) fn scores_new() -> (v: ArrayVec<usize, 4>)
    ensures
        scores_of(v) == Seq::<usize>::empty(),
{
    ArrayVec::new()
}

/// `ArrayVec::push`: appends `score` behind what the vector holds. The
/// vector must not be full, or the call panics.
#[verifier::external_body]
pub(crate) fn scores_push(v: &mut ArrayVec<usize, 4>, score: usize)
    requires
        scores_of(*old(v)).len() < 4,
    ensures
        scores_of(*final(v)) == scores_of(*old(v)).push(score),
{
    v.push(score)
}

/// `ArrayVec::as_slice`: what the vector holds, as a slice.
#[verifier::external_body]
pub(crate) fn scores_slice(v: &ArrayVec<usize, 4>) -> (s: &[usize])
    ensures
        s@ == scores_of(*v),
{
    v.as_slice()
}

} // verus!
