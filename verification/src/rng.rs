use vstd::prelude::*;

verus! {

/// Relies on rand's `Rng::gen_range` over the range `0..n`: it returns a
/// uniformly drawn value of that range, so the result is strictly below `n`;
/// the range is non-empty by the precondition, so the call cannot panic.
#[verifier::external_body]
pub(crate) fn random_index_below(n: usize) -> (r: usize)
    requires
        n >= 1,
    ensures
        r < n,
{
    rand::Rng::gen_range(&mut rand::thread_rng(), 0..n)
}

} // verus!
