use vstd::prelude::*;

verus! {

/// How many times an operation that fails under resource pressure is tried.
pub const MAX_RETRIES: u64 = 10;

/// A pause before trying again.
#[derive(Clone, Copy, Debug, PartialEq, Eq, Structural)]
pub struct Backoff {
    pub secs: u64,
    pub nanos: u32,
}

/// The decision after attempt `attempt` (counted from 0) failed. A failure
/// that is not worth retrying, or the last allowed attempt, ends the retries.
/// Otherwise the pause grows quadratically, `attempt * attempt` seconds,
/// plus `jitter` nanoseconds.
pub open spec fn retry_after(attempt: u64, retryable: bool, jitter: u32) -> Option<Backoff> {
    if retryable && attempt + 1 < MAX_RETRIES {
        Some(Backoff { secs: (attempt * attempt) as u64, nanos: jitter })
    } else {
        None
    }
}

/// See `retry_after`.
pub fn retry_decision(attempt: u64, retryable: bool, jitter: u32) -> (r: Option<Backoff>)
    ensures
        r == retry_after(attempt, retryable, jitter),
{
    if retryable && attempt < MAX_RETRIES - 1 {
        assert(attempt * attempt <= 81) by (nonlinear_arith)
            requires
                attempt < 9,
        ;
        Some(Backoff { secs: attempt * attempt, nanos: jitter })
    } else {
        None
    }
}

/// Relies on rand's `Rng::gen_range(0, 1_000_000_000)` on the thread's
/// generator: a value in `[0, 1_000_000_000)`.
#[verifier::external_body]
fn random_nanos() -> (r: u32)
    ensures
        r < 1_000_000_000,
{
    rand::Rng::gen_range(&mut rand::thread_rng(), 0u32, 1_000_000_000u32)
}

/// The decision after a failed attempt, with a random jitter of less than a
/// second added to the pause so that retrying processes spread out.
pub fn next_retry(attempt: u64, retryable: bool) -> (r: Option<Backoff>)
    ensures
        exists|jitter: u32| jitter < 1_000_000_000 && r == retry_after(attempt, retryable, jitter),
{
    let jitter = random_nanos();
    retry_decision(attempt, retryable, jitter)
}

} // verus!
