//! The simulation's source of chance.
use vstd::prelude::*;
use rand::Rng;

verus! {

/// Relies on `rand::Rng::gen_range` on an inclusive range, drawn from
/// `rand::thread_rng`: the value lies within both bounds (it panics only on
/// an empty range, which `requires` rules out).
#[verifier::external_body]
pub(crate) fn random_in(lo: i64, hi: i64) -> (r: i64)
    requires
        lo <= hi,
    ensures
        lo <= r <= hi,
{
    rand::thread_rng().gen_range(lo..=hi)
}

} // verus!
