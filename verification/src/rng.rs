//! Randomness for spawn positions and hues, behind a trusted wrapper.

use vstd::prelude::*;

verus! {

/// Relies on `rand::Rng::gen_range` over the inclusive range `lo..=hi`,
/// drawn from `rand::thread_rng`: the sample always lies within the bounds,
/// and the range is nonempty, so the call does not panic. Nothing more is
/// promised: two calls on equal bounds may differ.
#[verifier::external_body]
pub(crate) fn rand_u64_between(lo: u64, hi: u64) -> (r: u64)
    requires
        lo <= hi,
    ensures
        lo <= r <= hi,
{
    rand::Rng::gen_range(&mut rand::thread_rng(), lo..=hi)
}

} // verus!
