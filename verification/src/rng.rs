use rand::rngs::StdRng;
use rand::Rng;
use vstd::prelude::*;

verus! {

/// rand's seedable generator, carried through as an opaque value.
#[verifier::external_type_specification]
#[verifier::external_body]
pub struct ExStdRng(StdRng);

/// `Rng::random_range` over `low..high` for `i32`: a uniformly drawn value
/// in the half-open range. It panics on an empty range, which `requires`
/// excludes. Which value comes out depends on the generator's state.
#[verifier::external_body]
pub(crate) fn random_range_i32(rng: &mut StdRng, low: i32, high: i32) -> (r: i32)
    requires
        low < high,
    ensures
        low <= r < high,
{
    rng.random_range(low..high)
}

/// `Rng::random_range` over `low..=high` for `i32`: a value in the closed
/// range; panics on an empty range, which `requires` excludes.
#[verifier::external_body]
pub(crate) fn random_range_i32_inclusive(rng: &mut StdRng, low: i32, high: i32) -> (r: i32)
    requires
        low <= high,
    ensures
        low <= r <= high,
{
    rng.random_range(low..=high)
}

/// `Rng::random_range` over `low..high` for `usize`.
#[verifier::external_body]
pub(crate) fn random_range_usize(rng: &mut StdRng, low: usize, high: usize) -> (r: usize)
    requires
        low < high,
    ensures
        low <= r < high,
{
    rng.random_range(low..high)
}

/// `Rng::random_range` over `low..=high` for `u32`.
#[verifier::external_body]
pub(crate) fn random_range_u32_inclusive(rng: &mut StdRng, low: u32, high: u32) -> (r: u32)
    requires
        low <= high,
    ensures
        low <= r <= high,
{
    rng.random_range(low..=high)
}

} // verus!
