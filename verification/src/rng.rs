use vstd::prelude::*;

verus! {

/// Relies on rand::random_range: a draw from the half-open range below `n`;
/// the documentation promises a value of the range and panics only when the
/// range is empty.
#[verifier::external_body]
pub(crate) fn random_below(n: usize) -> (r: usize)
    requires
        1 <= n,
    ensures
        r < n,
{
    rand::random_range(0..n)
}

/// Relies on rand::random: a coin flip; nothing is promised of the outcome.
#[verifier::external_body]
pub(crate) fn random_flip() -> bool {
    rand::random::<bool>()
}

} // verus!
