//! Presentation-timestamp validation and normalization for media previews.
use vstd::prelude::*;

verus! {

#[derive(Debug, Clone, Copy, PartialEq, Eq, Structural)]
pub enum TimestampError {
    Empty,
    NonMonotonic,
    GapTooLarge,
    FrameRateExceeded,
    DurationMismatch,
    Overflow,
}

#[derive(Debug, Clone, Copy, PartialEq, Eq, Structural)]
pub struct TimestampPolicy {
    pub max_gap_ms: u64,
    pub max_frame_rate_milli: u32,
    pub duration_tolerance_ms: u64,
}

#[derive(Debug, Clone, PartialEq, Eq)]
pub struct TimestampReport {
    pub normalized_ms: Vec<u64>,
    pub duration_ms: u64,
    pub frame_rate_milli: u32,
}

/// Each timestamp is later than the one before.
pub open spec fn strictly_increasing(t: Seq<u64>) -> bool {
    forall|i: int| 0 <= i < t.len() - 1 ==> #[trigger] t[i] < t[i + 1]
}

/// No two neighbouring timestamps are more than `max_gap` apart.
pub open spec fn gaps_within(t: Seq<u64>, max_gap: u64) -> bool {
    forall|i: int| 0 <= i < t.len() - 1 ==> #[trigger] t[i + 1] - t[i] <= max_gap
}

pub open spec fn abs_diff(a: nat, b: nat) -> nat {
    if a >= b {
        (a - b) as nat
    } else {
        (b - a) as nat
    }
}

/// Timestamps shifted so that the first is zero.
pub open spec fn normalized(t: Seq<u64>) -> Seq<u64> {
    t.map_values(|v: u64| if v >= t[0] { (v - t[0]) as u64 } else { 0u64 })
}

/// Frames per thousand seconds over `duration` milliseconds.
pub open spec fn frame_rate_milli(count: nat, duration: nat) -> nat {
    ((count - 1) * 1_000_000) as nat / duration
}

/// What `validate_and_normalize` answers: the error, or the duration and frame rate.
pub open spec fn timestamps_spec(t: Seq<u64>, declared: u64, policy: TimestampPolicy) -> Result<
    (u64, u32),
    TimestampError,
> {
    if t.len() == 0 || declared == 0 {
        Err(TimestampError::Empty)
    } else if !strictly_increasing(t) {
        Err(TimestampError::NonMonotonic)
    } else if !gaps_within(t, policy.max_gap_ms) {
        Err(TimestampError::GapTooLarge)
    } else {
        let duration = (t.last() - t[0]) as nat;
        if abs_diff(duration, declared as nat) > policy.duration_tolerance_ms {
            Err(TimestampError::DurationMismatch)
        } else if t.len() > 1 && duration > 0 {
            let rate = frame_rate_milli(t.len(), duration);
            if rate > policy.max_frame_rate_milli {
                Err(TimestampError::FrameRateExceeded)
            } else {
                Ok((duration as u64, rate as u32))
            }
        } else {
            Ok((duration as u64, 0u32))
        }
    }
}

proof fn lemma_increasing_bounds(t: Seq<u64>, i: int)
    requires
        strictly_increasing(t),
        0 <= i < t.len(),
    ensures
        t[0] <= t[i] <= t.last(),
    decreases t.len() - i,
{
    lemma_increasing_from_start(t, i);
    lemma_increasing_to_end(t, i);
}

proof fn lemma_increasing_from_start(t: Seq<u64>, i: int)
    requires
        strictly_increasing(t),
        0 <= i < t.len(),
    ensures
        t[0] <= t[i],
    decreases i,
{
    if i > 0 {
        lemma_increasing_from_start(t, i - 1);
        assert(t[i - 1] < t[i]);
    }
}

proof fn lemma_increasing_to_end(t: Seq<u64>, i: int)
    requires
        strictly_increasing(t),
        0 <= i < t.len(),
    ensures
        t[i] <= t.last(),
    decreases t.len() - i,
{
    if i < t.len() - 1 {
        lemma_increasing_to_end(t, i + 1);
        assert(t[i] < t[i + 1]);
    }
}

fn is_increasing(t: &[u64]) -> (r: bool)
    ensures
        r == strictly_increasing(t@),
{
    let n = t.len();
    if n == 0 {
        return true;
    }
    let mut i: usize = 0;
    while i < n - 1
        invariant
            n == t@.len(),
            n >= 1,
            i <= n - 1,
            forall|j: int| 0 <= j < i ==> #[trigger] t@[j] < t@[j + 1],
        decreases n - i,
    {
        if t[i + 1] <= t[i] {
            assert(!(t@[i as int] < t@[i + 1]));
            return false;
        }
        i = i + 1;
    }
    true
}

fn gaps_ok(t: &[u64], max_gap: u64) -> (r: bool)
    requires
        strictly_increasing(t@),
    ensures
        r == gaps_within(t@, max_gap),
{
    let n = t.len();
    if n == 0 {
        return true;
    }
    let mut i: usize = 0;
    while i < n - 1
        invariant
            n == t@.len(),
            n >= 1,
            i <= n - 1,
            strictly_increasing(t@),
            forall|j: int| 0 <= j < i ==> #[trigger] t@[j + 1] - t@[j] <= max_gap,
        decreases n - i,
    {
        assert(t@[i as int] < t@[i + 1]);
        if t[i + 1] - t[i] > max_gap {
            assert(!(t@[i + 1] - t@[i as int] <= max_gap));
            return false;
        }
        i = i + 1;
    }
    true
}

fn normalize(t: &[u64]) -> (r: Vec<u64>)
    requires
        t@.len() > 0,
        strictly_increasing(t@),
    ensures
        r@ == normalized(t@),
        r@[0] == 0,
        r@.last() == t@.last() - t@[0],
        strictly_increasing(r@),
{
    let n = t.len();
    let first = t[0];
    let mut normalized_ms: Vec<u64> = Vec::new();
    let mut k: usize = 0;
    while k < n
        invariant
            n == t@.len(),
            first == t@[0],
            k <= n,
            normalized_ms@ == normalized(t@).take(k as int),
        decreases n - k,
    {
        let v = t[k];
        normalized_ms.push(if v >= first {
            v - first
        } else {
            0
        });
        k = k + 1;
        assert(normalized_ms@ =~= normalized(t@).take(k as int));
    }
    assert(normalized(t@).take(n as int) =~= normalized(t@));
    proof {
        let nm = normalized(t@);
        lemma_increasing_bounds(t@, (n - 1) as int);
        assert forall|j: int| 0 <= j < nm.len() - 1 implies #[trigger] nm[j] < nm[j + 1] by {
            lemma_increasing_bounds(t@, j);
            lemma_increasing_bounds(t@, j + 1);
            assert(t@[j] < t@[j + 1]);
        }
    }
    normalized_ms
}

/// Checks timestamps for order, gaps, duration and frame rate, and shifts them to start at 0.
pub fn validate_and_normalize(
    timestamps_ms: &[u64],
    declared_duration_ms: u64,
    policy: TimestampPolicy,
) -> (r: Result<TimestampReport, TimestampError>)
    ensures
        match r {
            Ok(rep) => timestamps_spec(timestamps_ms@, declared_duration_ms, policy) == Ok::<
                _,
                TimestampError,
            >((rep.duration_ms, rep.frame_rate_milli)) && rep.normalized_ms@ == normalized(
                timestamps_ms@,
            ),
            Err(e) => timestamps_spec(timestamps_ms@, declared_duration_ms, policy) == Err::<
                (u64, u32),
                _,
            >(e),
        },
        r matches Ok(rep) ==> rep.normalized_ms@[0] == 0 && rep.normalized_ms@.last()
            == rep.duration_ms && strictly_increasing(rep.normalized_ms@),
{
    let t = timestamps_ms;
    let n = t.len();
    if n == 0 || declared_duration_ms == 0 {
        return Err(TimestampError::Empty);
    }
    if !is_increasing(t) {
        return Err(TimestampError::NonMonotonic);
    }
    if !gaps_ok(t, policy.max_gap_ms) {
        return Err(TimestampError::GapTooLarge);
    }
    proof {
        lemma_increasing_bounds(t@, (n - 1) as int);
    }
    let normalized_ms = normalize(t);
    let duration_ms = t[n - 1] - t[0];
    let tolerance = if duration_ms >= declared_duration_ms {
        duration_ms - declared_duration_ms
    } else {
        declared_duration_ms - duration_ms
    };
    if tolerance > policy.duration_tolerance_ms {
        return Err(TimestampError::DurationMismatch);
    }
    if n > 1 && duration_ms > 0 {
        proof {
            assert((n - 1) * 1_000_000 <= usize::MAX * 1_000_000) by (nonlinear_arith)
                requires
                    n - 1 <= usize::MAX,
            ;
        }
        let rate_milli = ((n - 1) as u128 * 1_000_000u128) / (duration_ms as u128);
        if rate_milli > policy.max_frame_rate_milli as u128 {
            return Err(TimestampError::FrameRateExceeded);
        }
        return Ok(
            TimestampReport { normalized_ms, duration_ms, frame_rate_milli: rate_milli as u32 },
        );
    }
    Ok(TimestampReport { normalized_ms, duration_ms, frame_rate_milli: 0 })
}

} // verus!
