//! Trusted access to the process's entropy sources. Deciders draw their
//! probabilistic decisions through these wrappers; everything a draw
//! steers is verified for every value the wrapper could return.

use vstd::prelude::*;

verus! {

/// Relies on rand's `Rng::gen_range` on the thread-local generator: the
/// sample lies in the half-open range given, so below `n`; an empty range
/// panics, which `n >= 1` rules out. Nothing more is promised of a random
/// value.
#[verifier::external_body]
pub(crate) fn rand_below(n: u64) -> (r: u64)
    requires
        n >= 1,
    ensures
        r < n,
{
    rand::Rng::gen_range(&mut rand::thread_rng(), 0..n)
}

/// Relies on uuid's `Uuid::new_v4` and `as_u128`: a freshly drawn random
/// version-4 identifier in its 128-bit form. Nothing is promised of the
/// value: collision-freedom is only probabilistic, and the agent registry
/// replaces rather than duplicates an equal identifier.
#[verifier::external_body]
pub(crate) fn fresh_agent_id() -> u128 {
    uuid::Uuid::new_v4().as_u128()
}

} // verus!
