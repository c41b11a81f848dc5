//! The ambient source of randomness.

use rand::Rng;
use vstd::prelude::*;

verus! {

/// Draws a `u32` with `Rng::gen` from the generator that `rand::thread_rng`
/// hands out. Trusted. Any value may come back, so nothing is claimed of it.
#[verifier::external_body]
pub(crate) fn random_draw() -> (draw: u32) {
    rand::thread_rng().gen()
}

} // verus!
