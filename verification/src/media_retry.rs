//! Bounded retry policies for media-processing jobs.
use vstd::prelude::*;
use vstd::arithmetic::power2::pow2;
use crate::time::{millis_nanos, secs_nanos, Duration, NANOS_PER_MILLI};

verus! {

#[derive(Debug, Clone, Copy, PartialEq, Eq, Structural)]
pub enum MediaFailure {
    TransientProcess,
    StorageUnavailable,
    RateLimited,
    InvalidInput,
    Cancelled,
    Permanent,
}

pub open spec fn retryable_spec(f: MediaFailure) -> bool {
    f is TransientProcess || f is StorageUnavailable || f is RateLimited
}

impl MediaFailure {
    /// Transient process failures, unavailable storage and rate limits are worth retrying.
    pub fn retryable(self) -> (r: bool)
        ensures
            r == retryable_spec(self),
    {
        match self {
            MediaFailure::TransientProcess | MediaFailure::StorageUnavailable
            | MediaFailure::RateLimited => true,
            _ => false,
        }
    }
}

#[derive(Debug, Clone, Copy, PartialEq, Eq, Structural)]
pub enum RetryError {
    InvalidAttempts,
    InvalidDelay,
    Overflow,
}

#[derive(Debug, Clone, Copy, PartialEq, Eq, Structural)]
pub struct RetryDecision {
    pub retry: bool,
    pub attempt: u32,
    pub delay: Duration,
}

#[derive(Debug, Clone, Copy, PartialEq, Eq, Structural)]
pub struct MediaRetryPolicy {
    pub max_attempts: u32,
    pub base_delay: Duration,
    pub max_delay: Duration,
    pub jitter_percent: u8,
}

/// The pseudo-random value a seed gives: `seed * 6364136223846793005 + 1`, wrapping at 2^64.
pub open spec fn scramble(seed: u64) -> nat {
    ((seed as nat) * 6364136223846793005 + 1) % 0x1_0000_0000_0000_0000
}

/// Exponential backoff for `attempt`, capped at the maximum, before jitter.
pub open spec fn capped_ms(base_ms: nat, max_ms: nat, attempt: nat) -> nat {
    let exponent = if attempt - 1 < 31 {
        (attempt - 1) as nat
    } else {
        31
    };
    let raw = base_ms * pow2(exponent);
    if raw < max_ms {
        raw
    } else {
        max_ms
    }
}

/// The jitter window: `jitter_percent` percent of the capped delay.
pub open spec fn jitter_range(capped: nat, jitter_percent: nat) -> nat {
    capped * jitter_percent / 100
}

/// The delay in milliseconds: the capped delay, less half the jitter window, plus an offset
/// within the window picked by the seed, at most `u64::MAX`.
pub open spec fn delay_ms(base_ms: nat, max_ms: nat, jitter_percent: nat, attempt: nat, seed: u64) -> nat {
    let capped = capped_ms(base_ms, max_ms, attempt);
    let range = jitter_range(capped, jitter_percent);
    let offset = if range == 0 {
        0
    } else {
        scramble(seed) % (range + 1)
    };
    let adjusted = (if capped >= range / 2 {
        (capped - range / 2) as nat
    } else {
        0
    }) + offset;
    if adjusted < u64::MAX {
        adjusted as nat
    } else {
        u64::MAX as nat
    }
}

/// Whether `decide` answers with a retry.
pub open spec fn should_retry(max_attempts: u32, attempt: u32, failure: MediaFailure) -> bool {
    attempt < max_attempts && retryable_spec(failure)
}

/// The delay stays within the jitter window around the capped backoff.
pub proof fn lemma_delay_within_window(
    base_ms: nat,
    max_ms: nat,
    jitter_percent: nat,
    attempt: nat,
    seed: u64,
)
    requires
        jitter_percent <= 100,
        max_ms < u64::MAX,
    ensures
        ({
            let capped = capped_ms(base_ms, max_ms, attempt);
            let range = jitter_range(capped, jitter_percent);
            &&& range <= capped
            &&& capped - range / 2 <= delay_ms(base_ms, max_ms, jitter_percent, attempt, seed)
            &&& delay_ms(base_ms, max_ms, jitter_percent, attempt, seed) <= capped - range / 2
                + range
            &&& (jitter_percent == 0 ==> delay_ms(base_ms, max_ms, jitter_percent, attempt, seed)
                == capped)
        }),
{
    let capped = capped_ms(base_ms, max_ms, attempt);
    let range = jitter_range(capped, jitter_percent);
    assert(capped * jitter_percent <= capped * 100) by (nonlinear_arith)
        requires
            jitter_percent <= 100,
    ;
    assert(range <= capped);
    if range > 0 {
        assert(scramble(seed) % (range + 1) <= range);
    }
    assert(capped <= max_ms);
    if jitter_percent == 0 {
        assert(capped * 0 == 0);
    }
}

impl MediaRetryPolicy {
    pub fn new(
        max_attempts: u32,
        base_delay: Duration,
        max_delay: Duration,
        jitter_percent: u8,
    ) -> (r: Result<MediaRetryPolicy, RetryError>)
        ensures
            r == (if !(1 <= max_attempts <= 32) {
                Err(RetryError::InvalidAttempts)
            } else if base_delay@ == 0 || max_delay@ < base_delay@ || max_delay@ > secs_nanos(
                86_400,
            ) || jitter_percent > 100 {
                Err(RetryError::InvalidDelay)
            } else {
                Ok(MediaRetryPolicy { max_attempts, base_delay, max_delay, jitter_percent })
            }),
    {
        if !(1 <= max_attempts && max_attempts <= 32) {
            return Err(RetryError::InvalidAttempts);
        }
        let day = Duration::from_secs(86_400);
        if base_delay.is_zero() || max_delay.shorter_than(&base_delay) || day.shorter_than(
            &max_delay,
        ) {
            return Err(RetryError::InvalidDelay);
        }
        if jitter_percent > 100 {
            return Err(RetryError::InvalidDelay);
        }
        Ok(MediaRetryPolicy { max_attempts, base_delay, max_delay, jitter_percent })
    }

    /// Whether to retry after `attempt` failed with `failure`, and after how long.
    pub fn decide(&self, attempt: u32, failure: MediaFailure, jitter_seed: u64) -> (r: Result<
        RetryDecision,
        RetryError,
    >)
        ensures
            attempt == 0 <==> r == Err::<RetryDecision, _>(RetryError::InvalidAttempts),
            attempt != 0 ==> r is Ok,
            r matches Ok(d) ==> d.attempt == attempt && d.retry == should_retry(
                self.max_attempts,
                attempt,
                failure,
            ) && d.delay@ == if d.retry {
                millis_nanos(
                    delay_ms(
                        self.base_delay@ / (NANOS_PER_MILLI as nat),
                        self.max_delay@ / (NANOS_PER_MILLI as nat),
                        self.jitter_percent as nat,
                        attempt as nat,
                        jitter_seed,
                    ),
                )
            } else {
                0
            },
    {
        if attempt == 0 {
            return Err(RetryError::InvalidAttempts);
        }
        if attempt >= self.max_attempts || !failure.retryable() {
            return Ok(RetryDecision { retry: false, attempt, delay: Duration::zero() });
        }
        let exponent: u32 = if attempt - 1 < 31 {
            attempt - 1
        } else {
            31
        };
        let mut multiplier: u64 = 1;
        let mut e: u32 = 0;
        proof {
            vstd::arithmetic::power2::lemma2_to64();
        }
        while e < exponent
            invariant
                e <= exponent <= 31,
                multiplier == pow2(e as nat),
            decreases exponent - e,
        {
            proof {
                vstd::arithmetic::power2::lemma_pow2_adds(e as nat, 1);
                vstd::arithmetic::power2::lemma2_to64();
                vstd::arithmetic::power2::lemma_pow2_strictly_increases(e as nat, 31);
            }
            multiplier = multiplier * 2;
            e = e + 1;
        }
        let base_ms = self.base_delay.as_millis();
        let max_ms = self.max_delay.as_millis();
        proof {
            vstd::arithmetic::power2::lemma2_to64();
            if exponent < 31 {
                vstd::arithmetic::power2::lemma_pow2_strictly_increases(exponent as nat, 31);
            }
            assert(base_ms <= 18_446_744_073_709_551_615_999);
            assert(base_ms * multiplier <= 18_446_744_073_709_551_615_999 * 0x8000_0000)
                by (nonlinear_arith)
                requires
                    base_ms <= 18_446_744_073_709_551_615_999,
                    multiplier <= 0x8000_0000,
            ;
        }
        let raw_ms = base_ms * (multiplier as u128);
        let capped = if raw_ms < max_ms {
            raw_ms
        } else {
            max_ms
        };
        proof {
            assert(capped * self.jitter_percent <= 18_446_744_073_709_551_615_999 * 255)
                by (nonlinear_arith)
                requires
                    capped <= 18_446_744_073_709_551_615_999,
                    self.jitter_percent <= 255,
            ;
        }
        let range = capped * (self.jitter_percent as u128) / 100;
        let pseudo = ((jitter_seed as u128) * 6_364_136_223_846_793_005u128 + 1)
            % 0x1_0000_0000_0000_0000u128;
        let offset = if range == 0 {
            0
        } else {
            pseudo % (range + 1)
        };
        let low = if capped >= range / 2 {
            capped - range / 2
        } else {
            0
        };
        let adjusted = low + offset;
        let ms: u64 = if adjusted < u64::MAX as u128 {
            adjusted as u64
        } else {
            u64::MAX
        };
        Ok(RetryDecision { retry: true, attempt, delay: Duration::from_millis(ms) })
    }
}

} // verus!
