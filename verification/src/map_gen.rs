//! Where the noise field of a world is sampled.

use vstd::prelude::*;

verus! {

/// The noise field is sampled at an offset below this bound along each axis.
pub const OFFSET_RANGE: u32 = 10_000;

/// `rand::random::<u32>`: a number drawn from the generator of the calling
/// thread. Nothing is claimed of its value. The call panics where the system
/// gives the generator no seed; no argument decides that.
#[verifier::external_body]
fn random_u32() -> (raw: u32) {
    rand::random::<u32>()
}

/// Brings a drawn number into the range of offsets.
pub fn offset_from(raw: u32) -> (offset: u32)
    ensures
        offset == raw % OFFSET_RANGE,
        offset < OFFSET_RANGE,
{
    raw % OFFSET_RANGE
}

/// Draws the offset at which the noise field is sampled along one axis. It is
/// drawn anew on every call and does not depend on the seed of the noise, so
/// two worlds of one seed show different parts of the same field.
pub fn random_offset() -> (offset: u32)
    ensures
        offset < OFFSET_RANGE,
{
    offset_from(random_u32())
}

} // verus!
