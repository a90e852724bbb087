//! Random delays.
use crate::config::RaftConfig;
use rand::RngExt;
use vstd::prelude::*;

verus! {

/// Draws from `low..=high` with `RngExt::random_range` of the `rand` crate, on
/// the thread's generator `rand::rng()`.
///
/// The number lies in the range; nothing more is known of it. The call panics
/// on an empty range, which the precondition rules out, and when the operating
/// system cannot seed the generator, which no argument decides.
#[verifier::external_body]
fn random_between(low: u64, high: u64) -> (drawn: u64)
    requires
        low <= high,
    ensures
        low <= drawn <= high,
{
    rand::rng().random_range(low..=high)
}

/// Whether `timeout` is a possible election timeout.
pub open spec fn timeout_allowed(config: RaftConfig, timeout: u64) -> bool {
    if config.election_timeout_max <= config.election_timeout_min {
        timeout == config.election_timeout_min
    } else {
        config.election_timeout_min <= timeout <= config.election_timeout_max
    }
}

/// Draws an election timeout.
pub fn sample_election_timeout(config: &RaftConfig) -> (timeout: u64)
    ensures
        timeout_allowed(*config, timeout),
        config.election_timeout_min <= timeout,
        timeout <= config.election_timeout_max || timeout == config.election_timeout_min,
{
    if config.election_timeout_max <= config.election_timeout_min {
        config.election_timeout_min
    } else {
        random_between(config.election_timeout_min, config.election_timeout_max)
    }
}

/// Draws the jitter for a delay: up to half of it.
pub fn sample_jitter(delay: u64) -> (jitter: u64)
    ensures
        jitter <= delay / 2,
{
    random_between(0, delay / 2)
}

} // verus!
