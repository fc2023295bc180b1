//! The random source that a tree owns. Nothing here is proved: these are the
//! statements about the `rand` crate that the rest of the library rests on.

use vstd::prelude::*;
use rand::rngs::ThreadRng;

verus! {

/// `rand::rngs::ThreadRng`, the handle to the calling thread's generator.
/// Its state is hidden: no contract speaks of what it holds or will yield.
#[verifier::external_type_specification]
#[verifier::external_body]
pub struct ExThreadRng(rand::rngs::ThreadRng);

/// `rand::thread_rng` hands out the calling thread's generator, seeding it
/// from the operating system on first use; it panics where the system has no
/// entropy to give. Nothing is claimed of the handle.
pub assume_specification[ rand::thread_rng ]() -> (rng: ThreadRng);

} // verus!
