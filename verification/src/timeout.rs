//! Randomised election timeouts.

use crate::model::{valid_timeout, ELECTION_TIMEOUT_MAX, ELECTION_TIMEOUT_MIN};
use rand::Rng;
use vstd::prelude::*;

verus! {

/// Calls `rand::Rng::gen_range` on the thread-local generator
/// (`rand::thread_rng`). Trusted: the value lies in the half-open range from
/// `low` up to, but not including, `high`. Which value of that range comes
/// back is left open, and differs from call to call. The outside function
/// panics on an empty range, so `low < high` is required.
#[verifier::external_body]
fn random_in_range(low: u64, high: u64) -> (r: u64)
    requires
        low < high,
    ensures
        low <= r < high,
{
    rand::thread_rng().gen_range(low, high)
}

/// Draws an election timeout, in ticks, from
/// `ELECTION_TIMEOUT_MIN .. ELECTION_TIMEOUT_MAX`.
pub fn election_timeout() -> (timeout: u64)
    ensures
        valid_timeout(timeout as nat),
{
    random_in_range(ELECTION_TIMEOUT_MIN, ELECTION_TIMEOUT_MAX)
}

} // verus!
