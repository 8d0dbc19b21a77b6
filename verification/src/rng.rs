//! The crate's one source of randomness.

use vstd::prelude::*;

verus! {

/// Relies on `rand::Rng::gen_range` over a nonempty inclusive range: the
/// result lies between the two bounds.
#[verifier::external_body]
pub(crate) fn rand_u32_between(lo: u32, hi: u32) -> (r: u32)
    requires
        lo <= hi,
    ensures
        lo <= r <= hi,
{
    rand::Rng::gen_range(&mut rand::thread_rng(), lo..=hi)
}

} // verus!
