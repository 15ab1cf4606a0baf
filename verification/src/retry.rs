//! The retrying write policy: exponential backoff starting at one second,
//! doubling after each failed attempt, capped at 32 seconds, giving up
//! when the attempt counter reaches the configured ceiling.

use vstd::prelude::*;

verus! {

/// The delay, in seconds, slept after the `k`-th recorded failure
/// (counting from zero): 1, 2, 4, 8, 16, then 32 from there on.
pub open spec fn backoff_delay(k: int) -> int {
    if k <= 0 {
        1
    } else if k == 1 {
        2
    } else if k == 2 {
        4
    } else if k == 3 {
        8
    } else if k == 4 {
        16
    } else {
        32
    }
}

/// How many write attempts a full retry sequence makes against a writer
/// that never succeeds: none at all for a ceiling of zero; otherwise the
/// counter starts at one before the first failure is recorded and the
/// sequence ends when it reaches `max_retries`. Always at most
/// `max_retries`.
pub open spec fn attempt_cap(max_retries: int) -> int {
    if max_retries <= 0 {
        0
    } else if max_retries <= 2 {
        1
    } else {
        max_retries - 1
    }
}

/// Attempt `k` (counting from zero) succeeds in the recorded outcomes; a
/// record shorter than `k` stands for a writer that keeps failing.
pub open spec fn attempt_ok(outcomes: Seq<bool>, k: int) -> bool {
    0 <= k < outcomes.len() && outcomes[k]
}

/// What the policy directs after a failed write attempt.
#[derive(Clone, Copy, Debug, PartialEq, Eq, Structural)]
pub enum RetryAction {
    /// Sleep this many seconds, then try again.
    RetryAfter { delay_secs: u64 },
    /// The retry ceiling is reached: surface the last error.
    GiveUp,
}

/// The retry state: an attempt counter and the current backoff delay.
#[derive(Clone, Copy, Debug, PartialEq, Eq, Structural)]
pub struct RetryPolicy {
    pub max_retries: u8,
    pub retries: u8,
    pub delay_secs: u64,
}

impl RetryPolicy {
    pub fn new(max_retries: u8) -> (p: Self)
        ensures
            p.max_retries == max_retries,
            p.retries == 1,
            p.delay_secs == 1,
    {
        RetryPolicy { max_retries, retries: 1, delay_secs: 1 }
    }

    /// Record one failed write attempt: either give up, or direct the
    /// caller to sleep the current delay, which then doubles, capped at
    /// 32 seconds. Never retries past the ceiling.
    pub fn on_failure(&mut self) -> (a: RetryAction)
        requires
            old(self).retries >= 1,
            1 <= old(self).delay_secs <= 32,
        ensures
            final(self).max_retries == old(self).max_retries,
            if old(self).retries + 1 >= old(self).max_retries {
                a == RetryAction::GiveUp && *final(self) == *old(self)
            } else {
                a == (RetryAction::RetryAfter { delay_secs: old(self).delay_secs })
                    && final(self).retries == old(self).retries + 1 && final(self).delay_secs == (
                if old(self).delay_secs * 2 <= 32 {
                    old(self).delay_secs * 2
                } else {
                    32
                })
            },
    {
        if self.retries as u16 + 1 >= self.max_retries as u16 {
            RetryAction::GiveUp
        } else {
            self.retries = self.retries + 1;
            let d = self.delay_secs;
            self.delay_secs = if d * 2 <= 32 {
                d * 2
            } else {
                32
            };
            RetryAction::RetryAfter { delay_secs: d }
        }
    }
}

/// The result of driving a full retry sequence.
#[derive(Debug, Clone, PartialEq)]
pub struct RetryRun {
    pub succeeded: bool,
    pub attempts: usize,
    pub delays: Vec<u64>,
}

/// Drive a full retry sequence against a precomputed record of attempt
/// outcomes: attempt `k` succeeds iff `outcomes[k]` is true. The sequence
/// stops at the first success or when the attempt counter reaches the
/// ceiling; `delays` records the successive backoff sleeps, each the
/// doubled predecessor capped at 32 seconds, and the number of attempts
/// never exceeds `max_retries`.
pub fn run_retry(outcomes: &Vec<bool>, max_retries: u8) -> (r: RetryRun)
    ensures
        r.attempts <= attempt_cap(max_retries as int),
        r.attempts <= max_retries,
        r.succeeded <==> attempt_ok(outcomes@, r.attempts - 1),
        forall|j: int| 0 <= j < r.attempts - 1 ==> !attempt_ok(outcomes@, j),
        !r.succeeded ==> r.attempts == attempt_cap(max_retries as int) && !attempt_ok(
            outcomes@,
            r.attempts - 1,
        ),
        r.succeeded <==> (exists|k: int|
            0 <= k < attempt_cap(max_retries as int) && attempt_ok(outcomes@, k)),
        r.delays@.len() == (if r.attempts == 0 {
            0int
        } else {
            r.attempts - 1
        }),
        forall|j: int|
            #![trigger r.delays@[j]]
            0 <= j < r.delays@.len() ==> r.delays@[j] == backoff_delay(j) && r.delays@[j] <= 32,
{
    let mut policy = RetryPolicy::new(max_retries);
    let mut delays: Vec<u64> = Vec::new();
    let mut attempt: usize = 0;
    let cap: usize = if max_retries == 0 {
        0
    } else if max_retries <= 2 {
        1
    } else {
        (max_retries - 1) as usize
    };
    loop
        invariant
            policy.max_retries == max_retries,
            policy.retries >= 1,
            1 <= policy.delay_secs <= 32,
            policy.retries as int == 1 + attempt,
            cap as int == attempt_cap(max_retries as int),
            attempt == 0 || attempt < cap,
            delays@.len() == attempt,
            forall|j: int| 0 <= j < attempt ==> !attempt_ok(outcomes@, j),
            forall|j: int|
                #![trigger delays@[j]]
                0 <= j < delays@.len() ==> delays@[j] == backoff_delay(j) && delays@[j] <= 32,
            policy.delay_secs == backoff_delay(attempt as int),
        decreases attempt_cap(max_retries as int) - attempt,
    {
        if attempt >= cap {
            return RetryRun { succeeded: false, attempts: attempt, delays };
        }
        let ok = attempt < outcomes.len() && outcomes[attempt];
        if ok {
            proof {
                assert(attempt_ok(outcomes@, attempt as int));
            }
            return RetryRun { succeeded: true, attempts: attempt + 1, delays };
        }
        match policy.on_failure() {
            RetryAction::GiveUp => {
                proof {
                    assert(attempt + 2 >= max_retries as int);
                    assert(attempt + 1 == attempt_cap(max_retries as int));
                    assert forall|k: int|
                        0 <= k < attempt_cap(max_retries as int) implies !attempt_ok(
                        outcomes@,
                        k,
                    ) by {}
                }
                return RetryRun { succeeded: false, attempts: attempt + 1, delays };
            },
            RetryAction::RetryAfter { delay_secs } => {
                delays.push(delay_secs);
                attempt = attempt + 1;
            },
        }
    }
}

} // verus!
