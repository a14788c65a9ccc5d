//! A circuit breaker for outbound calls: it opens after a run of failures, refuses calls
//! while open, and after a cooldown lets a single probe through to decide whether to close.
//!
//! Time is read by the caller from a monotonic clock and handed in as the span since that
//! clock's start.
use vstd::prelude::*;
use crate::time::Duration;

verus! {

#[derive(Debug, Clone, Copy, PartialEq, Eq, Structural)]
pub enum ResilienceError {
    OpenCircuit,
    BulkheadFull,
}

#[derive(Debug, Clone, Copy, PartialEq, Eq, Structural)]
pub enum CircuitState {
    Closed,
    Open,
    HalfOpen,
}

/// The state of a breaker: its circuit, the failures counted, when it opened (nanoseconds on
/// the caller's clock) and whether a probe is out.
pub struct BreakerView {
    pub state: CircuitState,
    pub failures: u32,
    pub opened_at: Option<nat>,
    pub probe_in_flight: bool,
}

/// What `allow` does at `now`: the next state and the answer.
pub open spec fn allow_step(b: BreakerView, cooldown: nat, now: nat) -> (BreakerView, Result<(), ResilienceError>) {
    match b.state {
        CircuitState::Closed => (b, Ok(())),
        CircuitState::Open => {
            let cooled = match b.opened_at {
                Some(at) => (if now >= at { now - at } else { 0 }) >= cooldown,
                None => false,
            };
            if !cooled {
                (b, Err(ResilienceError::OpenCircuit))
            } else if b.probe_in_flight {
                (BreakerView { state: CircuitState::HalfOpen, ..b }, Err(ResilienceError::OpenCircuit))
            } else {
                (BreakerView { state: CircuitState::HalfOpen, probe_in_flight: true, ..b }, Ok(()))
            }
        },
        CircuitState::HalfOpen => if !b.probe_in_flight {
            (BreakerView { probe_in_flight: true, ..b }, Ok(()))
        } else {
            (b, Err(ResilienceError::OpenCircuit))
        },
    }
}

/// What a reported success does: the breaker closes and forgets its failures.
pub open spec fn success_step(b: BreakerView) -> BreakerView {
    BreakerView { state: CircuitState::Closed, failures: 0, opened_at: None, probe_in_flight: false }
}

/// What a reported failure at `now` does: one more failure (saturating), and the circuit
/// opens, from `now`, once the failures reach the threshold.
pub open spec fn failure_step(b: BreakerView, threshold: u32, now: nat) -> BreakerView {
    let failures = if b.failures == u32::MAX { u32::MAX } else { (b.failures + 1) as u32 };
    if failures >= threshold {
        BreakerView { state: CircuitState::Open, failures, opened_at: Some(now), probe_in_flight: false }
    } else {
        BreakerView { failures, probe_in_flight: false, ..b }
    }
}

#[derive(Debug)]
pub struct CircuitBreaker {
    state: CircuitState,
    failures: u32,
    opened_at: Option<Duration>,
    probe_in_flight: bool,
    failure_threshold: u32,
    cooldown: Duration,
}

impl CircuitBreaker {
    pub closed spec fn view_state(&self) -> BreakerView {
        BreakerView {
            state: self.state,
            failures: self.failures,
            opened_at: match self.opened_at {
                Some(d) => Some(d@),
                None => None,
            },
            probe_in_flight: self.probe_in_flight,
        }
    }

    pub closed spec fn threshold(&self) -> u32 {
        self.failure_threshold
    }

    pub closed spec fn cooldown_nanos(&self) -> nat {
        self.cooldown@
    }

    /// A closed breaker that opens after `failure_threshold` failures (at least one) and lets
    /// a probe through `cooldown` after opening (at least a millisecond).
    pub fn new(failure_threshold: u32, cooldown: Duration) -> (b: Self)
        ensures
            b.view_state() == (BreakerView {
                state: CircuitState::Closed,
                failures: 0,
                opened_at: None,
                probe_in_flight: false,
            }),
            b.threshold() == if failure_threshold >= 1 { failure_threshold } else { 1 },
            b.cooldown_nanos() == if cooldown@ == 0 { 1_000_000 } else { cooldown@ },
    {
        CircuitBreaker {
            state: CircuitState::Closed,
            failures: 0,
            opened_at: None,
            probe_in_flight: false,
            failure_threshold: if failure_threshold >= 1 { failure_threshold } else { 1 },
            cooldown: if cooldown.is_zero() { Duration::from_millis(1) } else { cooldown },
        }
    }

    pub fn state(&self) -> (s: CircuitState)
        ensures
            s == self.view_state().state,
    {
        self.state
    }

    /// Whether a call may go out at `now`.
    pub fn allow(&mut self, now: Duration) -> (r: Result<(), ResilienceError>)
        ensures
            (final(self).view_state(), r) == allow_step(old(self).view_state(), old(self).cooldown_nanos(), now@),
            final(self).threshold() == old(self).threshold(),
            final(self).cooldown_nanos() == old(self).cooldown_nanos(),
    {
        match self.state {
            CircuitState::Closed => Ok(()),
            CircuitState::Open => {
                let cooled = match self.opened_at {
                    Some(at) => !now.saturating_sub(at).shorter_than(&self.cooldown),
                    None => false,
                };
                if !cooled {
                    return Err(ResilienceError::OpenCircuit);
                }
                self.state = CircuitState::HalfOpen;
                if self.probe_in_flight {
                    return Err(ResilienceError::OpenCircuit);
                }
                self.probe_in_flight = true;
                Ok(())
            },
            CircuitState::HalfOpen => {
                if !self.probe_in_flight {
                    self.probe_in_flight = true;
                    Ok(())
                } else {
                    Err(ResilienceError::OpenCircuit)
                }
            },
        }
    }

    /// Reports a successful call.
    pub fn success(&mut self)
        ensures
            final(self).view_state() == success_step(old(self).view_state()),
            final(self).threshold() == old(self).threshold(),
            final(self).cooldown_nanos() == old(self).cooldown_nanos(),
    {
        self.state = CircuitState::Closed;
        self.failures = 0;
        self.opened_at = None;
        self.probe_in_flight = false;
    }

    /// Reports a failed call at `now`.
    pub fn failure(&mut self, now: Duration)
        ensures
            final(self).view_state() == failure_step(old(self).view_state(), old(self).threshold(), now@),
            final(self).threshold() == old(self).threshold(),
            final(self).cooldown_nanos() == old(self).cooldown_nanos(),
    {
        self.probe_in_flight = false;
        self.failures = self.failures.saturating_add(1);
        if self.failures >= self.failure_threshold {
            self.state = CircuitState::Open;
            self.opened_at = Some(now);
        }
    }
}

/// A failure that brings the count to the threshold opens the circuit, and an open circuit
/// refuses every call until the (positive) cooldown has passed since it opened.
pub proof fn lemma_opens_at_threshold(b: BreakerView, threshold: u32, cooldown: nat, at: nat, now: nat)
    requires
        b.failures + 1 >= threshold,
        cooldown > 0,
        now < at + cooldown,
    ensures
        failure_step(b, threshold, at).state == CircuitState::Open,
        allow_step(failure_step(b, threshold, at), cooldown, now).1 == Err::<(), ResilienceError>(
            ResilienceError::OpenCircuit,
        ),
        allow_step(failure_step(b, threshold, at), cooldown, now).0 == failure_step(b, threshold, at),
{
}

/// Once the cooldown has passed, exactly one probe goes through: the next call is refused
/// until the probe's outcome is reported.
pub proof fn lemma_single_probe(b: BreakerView, cooldown: nat, now: nat, later: nat)
    requires
        allow_step(b, cooldown, now).1 is Ok,
        allow_step(b, cooldown, now).0.state == CircuitState::HalfOpen,
    ensures
        allow_step(allow_step(b, cooldown, now).0, cooldown, later).1 == Err::<(), ResilienceError>(
            ResilienceError::OpenCircuit,
        ),
{
}

/// A success closes the circuit and clears the failures, after which calls go through.
pub proof fn lemma_success_closes(b: BreakerView, cooldown: nat, now: nat)
    ensures
        success_step(b).state == CircuitState::Closed,
        success_step(b).failures == 0,
        allow_step(success_step(b), cooldown, now).1 is Ok,
{
}

/// Failures below the threshold leave a closed circuit closed.
pub proof fn lemma_below_threshold_stays_closed(b: BreakerView, threshold: u32, now: nat)
    requires
        b.state == CircuitState::Closed,
        b.failures + 1 < threshold,
    ensures
        failure_step(b, threshold, now).state == CircuitState::Closed,
        failure_step(b, threshold, now).failures == b.failures + 1,
{
}

} // verus!
