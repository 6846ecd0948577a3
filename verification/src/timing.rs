//! Election timeouts.

use crate::node::{ELECTION_TIMEOUT_END_MS, ELECTION_TIMEOUT_MIN_MS};
use rand::Rng;
use vstd::prelude::*;

verus! {

/// `rand::Rng::gen_range` on the thread's generator: some number from `low` up to
/// and not including `end`. Which one is a matter of chance, so nothing more can
/// be said.
#[verifier::external_body]
fn random_between(low: u64, end: u64) -> (n: u64)
    requires
        low < end,
    ensures
        low <= n < end,
{
    rand::thread_rng().gen_range(low..end)
}

/// An election timeout, in milliseconds. Without the randomness, nodes that lost
/// their leader at the same moment would all time out together, split the vote,
/// and repeat that forever.
pub fn random_election_timeout() -> (millis: u64)
    ensures
        ELECTION_TIMEOUT_MIN_MS <= millis < ELECTION_TIMEOUT_END_MS,
        500 <= millis < 1000,
{
    random_between(ELECTION_TIMEOUT_MIN_MS, ELECTION_TIMEOUT_END_MS)
}

} // verus!
