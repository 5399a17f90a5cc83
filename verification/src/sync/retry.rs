//! The controller worker's retry policy, as a state machine: after each
//! attempt to apply a mutation, the outcome and the current state give
//! the next state and what to do. Transient failures are retried after
//! a backoff that starts at 100 ms and doubles, never sleeping longer
//! than the configured ceiling; when a retry budget is configured (non-zero), the mutation
//! is given up once that many transient failures have been seen.

use vstd::prelude::*;
use crate::config::EdgeConfig;

verus! {

/// The first backoff, in milliseconds.
pub const INITIAL_BACKOFF_MS: u64 = 100;

/// What an attempt to apply a mutation came to.
#[derive(Debug, Clone, Copy, PartialEq, Eq, Structural)]
pub enum ApplyOutcome {
    Applied,
    Transient,
    Permanent,
}

/// What the worker does next with the mutation.
#[derive(Debug, Clone, Copy, PartialEq, Eq, Structural)]
pub enum RetryAction {
    /// The controller took it.
    Done,
    /// The controller refused it for good.
    Drop,
    /// The retry budget is spent after this many failures.
    GiveUp { attempts: u32 },
    /// Sleep this long, then apply again.
    Retry { sleep_ms: u64 },
}

/// Failures seen so far and the next backoff.
#[derive(Debug, Clone, Copy, PartialEq, Eq, Structural)]
pub struct RetryState {
    pub attempt: u32,
    pub backoff_ms: u64,
}

/// The state before the first attempt.
pub open spec fn initial_retry() -> RetryState {
    RetryState { attempt: 0, backoff_ms: INITIAL_BACKOFF_MS }
}

pub open spec fn sat_inc(a: u32) -> u32 {
    if a == u32::MAX {
        a
    } else {
        (a + 1) as u32
    }
}

/// Twice `b`, saturating, capped at `cap`.
pub open spec fn next_backoff(b: u64, cap: u64) -> u64 {
    let doubled: u64 = if b > u64::MAX / 2 {
        u64::MAX
    } else {
        (b * 2) as u64
    };
    if doubled < cap {
        doubled
    } else {
        cap
    }
}

/// The smaller of `a` and `b`.
pub open spec fn min_u64(a: u64, b: u64) -> u64 {
    if a < b {
        a
    } else {
        b
    }
}

/// The policy: the next state and action after `outcome`. A retry sleeps
/// for the current backoff, held to the ceiling `cap`.
pub open spec fn retry_step(s: RetryState, outcome: ApplyOutcome, max_attempts: u32, cap: u64) -> (
    RetryState,
    RetryAction,
) {
    match outcome {
        ApplyOutcome::Applied => (s, RetryAction::Done),
        ApplyOutcome::Permanent => (s, RetryAction::Drop),
        ApplyOutcome::Transient => {
            let a = sat_inc(s.attempt);
            if max_attempts > 0 && a >= max_attempts {
                (RetryState { attempt: a, ..s }, RetryAction::GiveUp { attempts: a })
            } else {
                (
                    RetryState { attempt: a, backoff_ms: next_backoff(s.backoff_ms, cap) },
                    RetryAction::Retry { sleep_ms: min_u64(s.backoff_ms, cap) },
                )
            }
        },
    }
}

impl RetryState {
    pub fn new() -> (r: RetryState)
        ensures
            r == initial_retry(),
    {
        RetryState { attempt: 0, backoff_ms: INITIAL_BACKOFF_MS }
    }
}

/// One step of the policy, with the budget and ceiling of `edge`.
pub fn next_retry_step(s: RetryState, outcome: ApplyOutcome, edge: &EdgeConfig) -> (r: (
    RetryState,
    RetryAction,
))
    ensures
        r == retry_step(
            s,
            outcome,
            edge.controller_retry_max_attempts,
            edge.controller_retry_max_backoff_ms,
        ),
{
    match outcome {
        ApplyOutcome::Applied => (s, RetryAction::Done),
        ApplyOutcome::Permanent => (s, RetryAction::Drop),
        ApplyOutcome::Transient => {
            let a = s.attempt.saturating_add(1);
            let max = edge.controller_retry_max_attempts;
            if max > 0 && a >= max {
                (RetryState { attempt: a, backoff_ms: s.backoff_ms }, RetryAction::GiveUp { attempts: a })
            } else {
                let doubled: u64 = if s.backoff_ms > u64::MAX / 2 {
                    u64::MAX
                } else {
                    s.backoff_ms * 2
                };
                let cap = edge.controller_retry_max_backoff_ms;
                let next = if doubled < cap {
                    doubled
                } else {
                    cap
                };
                let sleep = if s.backoff_ms < cap {
                    s.backoff_ms
                } else {
                    cap
                };
                (RetryState { attempt: a, backoff_ms: next }, RetryAction::Retry { sleep_ms: sleep })
            }
        },
    }
}

/// The state and last action after `n` transient failures in a row,
/// starting from the initial state (`n >= 1`).
pub open spec fn after_transients(n: nat, max_attempts: u32, cap: u64) -> (RetryState, RetryAction)
    decreases n,
{
    if n <= 1 {
        retry_step(initial_retry(), ApplyOutcome::Transient, max_attempts, cap)
    } else {
        retry_step(after_transients((n - 1) as nat, max_attempts, cap).0, ApplyOutcome::Transient, max_attempts, cap)
    }
}

/// After `n` transient failures in a row the counter reads `n`, and the
/// budget, if set, is given up exactly at the `max_attempts`-th failure;
/// every sleep is at most the ceiling, and the backoff held in the state
/// at most the larger of the first backoff and the ceiling.
pub proof fn lemma_retry_budget(n: nat, max_attempts: u32, cap: u64)
    requires
        1 <= n <= u32::MAX,
        max_attempts == 0 || n <= max_attempts,
    ensures
        after_transients(n, max_attempts, cap).0.attempt == n,
        (max_attempts > 0 && n == max_attempts) <==> after_transients(n, max_attempts, cap).1 is GiveUp,
        after_transients(n, max_attempts, cap).0.backoff_ms <= if cap < INITIAL_BACKOFF_MS {
            INITIAL_BACKOFF_MS
        } else {
            cap
        },
        after_transients(n, max_attempts, cap).1 matches RetryAction::Retry { sleep_ms } ==> sleep_ms
            <= cap,
    decreases n,
{
    if n > 1 {
        lemma_retry_budget((n - 1) as nat, max_attempts, cap);
    }
}

} // verus!
