//! Trusted boundary to the random number source. The engine draws two kinds
//! of values when it spawns a tile: an index into the empty cells, and a
//! tenth-scale draw that decides between a 2 and a 4. Nothing is assumed of
//! the draws beyond their range.

use vstd::prelude::*;
use rand::Rng;

verus! {

#[verifier::external_type_specification]
#[verifier::external_body]
pub struct ExThreadRng(rand::rngs::ThreadRng);

/// Relies on rand::thread_rng: a handle to the thread-local generator,
/// lazily initialized and seeded by the system.
#[verifier::external_body]
pub(crate) fn new_rng() -> rand::rngs::ThreadRng {
    rand::thread_rng()
}

/// Relies on rand::Rng::gen_range over `0..n`: it panics only on an empty
/// range, and otherwise returns a value drawn uniformly from the range,
/// hence below `n`.
#[verifier::external_body]
pub(crate) fn rand_below(rng: &mut rand::rngs::ThreadRng, n: usize) -> (r: usize)
    requires
        n >= 1,
    ensures
        r < n,
{
    rng.gen_range(0..n)
}

} // verus!
