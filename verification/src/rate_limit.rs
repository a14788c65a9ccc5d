//! The outcome of a rate-limit check and the response headers that report it.
use vstd::prelude::*;
use crate::text::{decimal, decimal_string, owned, pair_views};
use crate::time::{Duration, NANOS_PER_SEC};

verus! {

#[derive(Debug, Clone, Copy, PartialEq, Eq, Structural)]
pub struct RateLimitDecision {
    pub allowed: bool,
    pub limit: u32,
    pub remaining: u32,
    pub retry_after: Option<Duration>,
}

/// The headers of a decision, in name order: `Retry-After` in whole seconds (at least one)
/// when the caller must wait, then the limit and what remains of it.
pub open spec fn decision_headers(d: RateLimitDecision) -> Seq<(Seq<char>, Seq<char>)> {
    let counts = seq![
        ("X-RateLimit-Limit"@, decimal(d.limit as nat)),
        ("X-RateLimit-Remaining"@, decimal(d.remaining as nat)),
    ];
    match d.retry_after {
        Some(wait) => {
            let secs = wait@ / (NANOS_PER_SEC as nat);
            seq![("Retry-After"@, decimal(if secs >= 1 { secs } else { 1 }))] + counts
        },
        None => counts,
    }
}

impl RateLimitDecision {
    /// The response headers that report this decision.
    pub fn headers(&self) -> (r: Vec<(String, String)>)
        ensures
            pair_views(r@) == decision_headers(*self),
    {
        let mut headers: Vec<(String, String)> = Vec::new();
        if let Some(wait) = self.retry_after {
            let secs = wait.as_secs();
            let shown = if secs >= 1 { secs } else { 1 };
            headers.push((owned("Retry-After"), decimal_string(shown)));
        }
        headers.push((owned("X-RateLimit-Limit"), decimal_string(self.limit as u64)));
        headers.push((owned("X-RateLimit-Remaining"), decimal_string(self.remaining as u64)));
        assert(pair_views(headers@) =~= decision_headers(*self));
        headers
    }
}

} // verus!
