use vstd::prelude::*;

verus! {

/// Below this bound every integer is exact as an `f64`.
pub const EXACT_RANGE: u64 = 0x10_0000_0000_0000;

/// Relies on macroquad::rand::gen_range for `u64`: it draws `r` in `[0, 1)`
/// from the shared generator and returns `low + (high - low) * r` truncated.
/// While `high` is exact as an `f64` the result stays within `[low, high]`;
/// from zero it stays below `high`, since `high * r` rounds below `high`.
#[verifier::external_body]
pub(crate) fn random_range(low: u64, high: u64) -> (r: u64)
    requires
        low <= high,
    ensures
        high <= EXACT_RANGE ==> low <= r <= high,
        low == 0 && 0 < high <= EXACT_RANGE ==> r < high,
{
    macroquad::rand::gen_range(low, high)
}

} // verus!
