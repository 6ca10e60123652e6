//! Amounts of dust, and their reading in whole coins.

use vstd::prelude::*;

verus! {

/// The dust that makes one CEL: ten to the power of 31.
pub const DUST_PER_CEL: u128 = 10_000_000_000_000_000_000_000_000_000_000;

/// The whole CEL in an amount of dust, and the dust left over.
pub fn split(dust: u128) -> (r: (u128, u128))
    ensures
        r.0 * DUST_PER_CEL + r.1 == dust,
        r.1 < DUST_PER_CEL,
{
    (dust / DUST_PER_CEL, dust % DUST_PER_CEL)
}

} // verus!
