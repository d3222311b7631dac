//! Fresh random identifiers for newly planned partitions.

use rand::Rng;
use vstd::prelude::*;

verus! {

/// Relies on `rand::thread_rng` and `Rng::gen`: a freshly drawn
/// 128-bit value. The result depends on the generator's state, so
/// nothing is promised of it.
#[verifier::external_body]
pub fn generate_random_uuid() -> [u8; 16] {
    rand::thread_rng().gen()
}

} // verus!
