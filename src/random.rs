use vstd::prelude::*;
use rand::Rng;

verus! {

/// Relies on rand::Rng::gen_range on the thread-local generator: for an exclusive
/// integer range it returns a value in `[lo, hi)`, and panics only on an empty range.
#[verifier::external_body]
pub(crate) fn random_in(lo: i64, hi: i64) -> (r: i64)
    requires
        lo < hi,
    ensures
        lo <= r < hi,
{
    rand::thread_rng().gen_range(lo..hi)
}

} // verus!
