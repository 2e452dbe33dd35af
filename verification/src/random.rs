//! The source of chance: the `rand` crate. What is said here of its items is
//! taken on trust, and the engine relies on nothing else about them.

use vstd::prelude::*;
use rand::rngs::ThreadRng;
use rand::seq::SliceRandom;

verus! {

/// `rand::rngs::ThreadRng`: a handle to the generator of the running thread.
/// Nothing of its inside is visible here.
#[verifier::external_type_specification]
#[verifier::external_body]
pub struct ExThreadRng(rand::rngs::ThreadRng);

/// `rand::thread_rng` hands out the handle to the generator of the running
/// thread. Nothing is claimed of the handle. The call does not come back
/// if the system cannot seed the generator.
pub assume_specification[ rand::thread_rng ]() -> (rng: rand::rngs::ThreadRng);

/// What a draw from `items` may give: one of the items, or nothing when
/// there is none to draw.
pub open spec fn drawn_from(items: Seq<usize>, picked: Option<usize>) -> bool {
    match picked {
        Some(v) => items.contains(v),
        None => items.len() == 0,
    }
}

/// `rand::seq::SliceRandom::choose` on `items`, with the item copied out.
///
/// Of the draw only this is claimed: from an empty list it gives nothing,
/// from any other list it gives one of its items. Which one depends on the
/// generator and is left open.
#[verifier::external_body]
pub(crate) fn choose_one(items: &Vec<usize>, rng: &mut ThreadRng) -> (picked: Option<usize>)
    ensures
        drawn_from(items@, picked),
{
    items.choose(rng).copied()
}

} // verus!
