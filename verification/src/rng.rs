use vstd::prelude::*;

verus! {

/// Relies on rand::random_range over `0..n`: a draw from the thread-local
/// generator, uniform on [0, n). Panics on an empty range, so n must be
/// positive. Nothing more than the range bound can be promised of a
/// random draw.
#[verifier::external_body]
pub(crate) fn random_below(n: usize) -> (r: usize)
    requires
        n > 0,
    ensures
        r < n,
{
    rand::random_range(0..n)
}

/// Relies on rand::random_ratio: true with probability num/den on the
/// thread-local generator. Panics when den == 0 or num > den. Nothing can
/// be promised of the outcome of a single draw.
#[verifier::external_body]
pub(crate) fn random_ratio(num: u32, den: u32) -> bool
    requires
        0 < den,
        num <= den,
{
    rand::random_ratio(num, den)
}

} // verus!
