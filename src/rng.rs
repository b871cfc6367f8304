//! Sources of randomness used by the randomization strategies.
use tinyrand::{RandRange, Wyrand};
use vstd::prelude::*;

verus! {

#[verifier::external_type_specification]
#[verifier::external_body]
pub struct ExWyrand(Wyrand);

/// Relies on tinyrand's `RandRange::next_range` for `u64`: a value in `lo..hi`;
/// it panics on an empty range.
#[verifier::external_body]
pub(crate) fn draw_range(rng: &mut Wyrand, lo: u64, hi: u64) -> (r: u64)
    requires
        lo < hi,
    ensures
        lo <= r < hi,
{
    rng.next_range(lo..hi)
}

/// Relies on `fastrand::shuffle`: it only swaps items, so it permutes them.
#[verifier::external_body]
pub(crate) fn shuffle_pieces(v: &mut Vec<(bool, u64)>)
    ensures
        final(v)@.to_multiset() == old(v)@.to_multiset(),
        final(v)@.len() == old(v)@.len(),
{
    fastrand::shuffle(v.as_mut_slice())
}

} // verus!
