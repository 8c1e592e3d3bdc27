//! The random choices the generator makes, drawn from the thread-local
//! generator of the `rand` crate. Nothing here is proved: each contract
//! states what `rand` documents of every outcome.

use rand::seq::{IndexedRandom, SliceRandom};
use rand::Rng;
use vstd::prelude::*;

verus! {

/// `Rng::random_range(0..n)` on `rand::rng()`: some index below `n`.
/// The range must not be empty.
#[verifier::external_body]
pub(crate) fn random_index(n: usize) -> (r: usize)
    requires
        n > 0,
    ensures
        r < n,
{
    rand::rng().random_range(0..n)
}

/// `IndexedRandom::choose` on a slice with `rand::rng()`: a reference to one
/// of the elements, or `None` exactly when there is none.
#[verifier::external_body]
pub(crate) fn pick<T>(items: &Vec<T>) -> (r: Option<&T>)
    ensures
        r is Some <==> items.len() > 0,
        r is Some ==> exists|i: int| 0 <= i < items.len() && items[i] == *r->Some_0,
{
    items.choose(&mut rand::rng())
}

/// `SliceRandom::shuffle` with `rand::rng()`: the elements are rearranged in
/// place, none is added, dropped or altered.
#[verifier::external_body]
pub(crate) fn shuffle<T>(items: &mut Vec<T>)
    ensures
        final(items)@.to_multiset() == old(items)@.to_multiset(),
{
    items.shuffle(&mut rand::rng());
}

} // verus!
