//! Provider-neutral notification envelopes, retry backoff and delivery outcomes.
use vstd::prelude::*;
use crate::json::{value_of, JsonValue};
use crate::text::opt_view;
use crate::time::{Duration, MAX_NANOS};

verus! {

#[verifier::external_type_specification]
#[verifier::external_body]
pub struct ExJsonValue(serde_json::Value);

#[derive(Debug, Clone, PartialEq, Eq)]
pub struct NotificationEnvelope {
    pub to: String,
    pub from: Option<String>,
    pub subject: String,
    pub text: String,
    pub html: Option<String>,
    pub idempotency_key: Option<String>,
}

#[derive(Debug, Clone, PartialEq, Eq)]
pub struct NotificationTemplate {
    pub subject: String,
    pub text: String,
    pub html: Option<String>,
}

#[derive(Debug, Clone, PartialEq, Eq)]
pub enum TemplateError {
    Serialization(String),
    Render(String),
}

/// What Handlebars renders from `template` against `data`: the text, or the renderer's
/// error message.
pub uninterp spec fn handlebars_render(template: Seq<char>, data: JsonValue) -> Result<Seq<char>, Seq<char>>;

/// `handlebars::Handlebars::new().render_template(template, data)`, with `data` taken over
/// into a `serde_json::Value`; an error is given as its message (`to_string`). A registry
/// fresh from `new` holds no templates or helpers of ours, so the outcome depends on the
/// template and the data alone.
#[verifier::external_body]
fn render_template(template: &str, data: &JsonValue) -> (r: Result<String, String>)
    ensures
        match handlebars_render(template@, *data) {
            Ok(t) => r matches Ok(s) && s@ == t,
            Err(m) => r matches Err(s) && s@ == m,
        },
{
    handlebars::Handlebars::new().render_template(template, &value_of(data)).map_err(|e| e.to_string())
}

/// What rendering `t` against `data` gives: the subject, the text and the HTML body (when
/// there is one), or the message of the first template that fails, in that order.
pub open spec fn rendered(t: NotificationTemplate, data: JsonValue) -> Result<
    (Seq<char>, Seq<char>, Option<Seq<char>>),
    Seq<char>,
> {
    match handlebars_render(t.subject@, data) {
        Err(m) => Err(m),
        Ok(subject) => match handlebars_render(t.text@, data) {
            Err(m) => Err(m),
            Ok(text) => match t.html {
                None => Ok((subject, text, None)),
                Some(h) => match handlebars_render(h@, data) {
                    Err(m) => Err(m),
                    Ok(html) => Ok((subject, text, Some(html))),
                },
            },
        },
    }
}

impl NotificationTemplate {
    /// The subject, text and (when there is one) HTML body rendered against `data`; the
    /// first template that fails to render gives the error.
    pub fn render(&self, data: &JsonValue) -> (r: Result<
        (String, String, Option<String>),
        TemplateError,
    >)
        ensures
            match rendered(*self, *data) {
                Ok((subject, text, html)) => r matches Ok((s, t, h)) && s@ == subject && t@ == text
                    && opt_view(h) == html,
                Err(m) => r matches Err(TemplateError::Render(e)) && e@ == m,
            },
    {
        let subject = match render_template(self.subject.as_str(), data) {
            Ok(s) => s,
            Err(m) => {
                return Err(TemplateError::Render(m));
            },
        };
        let text = match render_template(self.text.as_str(), data) {
            Ok(s) => s,
            Err(m) => {
                return Err(TemplateError::Render(m));
            },
        };
        let html = match &self.html {
            Some(t) => match render_template(t.as_str(), data) {
                Ok(s) => Some(s),
                Err(m) => {
                    return Err(TemplateError::Render(m));
                },
            },
            None => None,
        };
        Ok((subject, text, html))
    }

    /// An envelope to `to` carrying the rendered templates, with no sender or idempotency
    /// key.
    pub fn envelope(&self, to: &str, data: &JsonValue) -> (r: Result<
        NotificationEnvelope,
        TemplateError,
    >)
        ensures
            match rendered(*self, *data) {
                Ok((subject, text, html)) => r matches Ok(e) && e.to@ == to@ && e.from is None
                    && e.idempotency_key is None && e.subject@ == subject && e.text@ == text
                    && opt_view(e.html) == html,
                Err(m) => r matches Err(TemplateError::Render(e)) && e@ == m,
            },
    {
        match self.render(data) {
            Ok((subject, text, html)) => Ok(
                NotificationEnvelope {
                    to: to.to_string(),
                    from: None,
                    subject,
                    text,
                    html,
                    idempotency_key: None,
                },
            ),
            Err(e) => Err(e),
        }
    }
}

#[derive(Debug, Clone, Copy, PartialEq, Eq, Structural)]
pub struct RetryPolicy {
    pub max_attempts: u32,
    pub initial_delay: Duration,
    pub max_delay: Duration,
}

pub open spec fn two_pow(n: nat) -> nat
    decreases n,
{
    if n == 0 {
        1
    } else {
        2 * two_pow((n - 1) as nat)
    }
}

/// `2^attempt`, saturating at `u32::MAX`.
pub open spec fn multiplier(attempt: u32) -> nat {
    if attempt >= 32 {
        u32::MAX as nat
    } else {
        two_pow(attempt as nat)
    }
}

/// The delay before retry `attempt` (counted from 0): the initial delay doubled per
/// attempt, capped at the maximum; none once the attempts are used up.
pub open spec fn backoff(p: RetryPolicy, attempt: u32) -> Option<nat> {
    if attempt >= p.max_attempts {
        None
    } else {
        let raw = p.initial_delay@ * multiplier(attempt);
        let sat = if raw > MAX_NANOS {
            MAX_NANOS as nat
        } else {
            raw
        };
        Some(
            if sat <= p.max_delay@ {
                sat
            } else {
                p.max_delay@
            },
        )
    }
}

fn saturating_pow2(attempt: u32) -> (m: u32)
    ensures
        m == multiplier(attempt),
{
    if attempt >= 32 {
        return u32::MAX;
    }
    let mut m: u32 = 1;
    let mut i: u32 = 0;
    while i < attempt
        invariant
            i <= attempt < 32,
            m == two_pow(i as nat),
        decreases attempt - i,
    {
        proof {
            lemma_two_pow_bound((i + 1) as nat);
            assert(two_pow((i + 1) as nat) == 2 * two_pow(i as nat));
        }
        m = m * 2;
        i = i + 1;
    }
    m
}

proof fn lemma_two_pow_monotone(a: nat, b: nat)
    requires
        a <= b,
    ensures
        two_pow(a) <= two_pow(b),
    decreases b - a,
{
    if a < b {
        lemma_two_pow_monotone(a, (b - 1) as nat);
    }
}

proof fn lemma_two_pow_bound(n: nat)
    requires
        n < 32,
    ensures
        two_pow(n) <= 0x8000_0000,
{
    reveal_with_fuel(two_pow, 32);
    assert(two_pow(31) == 0x8000_0000);
    lemma_two_pow_monotone(n, 31);
}

impl RetryPolicy {
    /// The delay before retry `attempt`, or none once `max_attempts` are used.
    pub fn next_delay(&self, attempt: u32) -> (r: Option<Duration>)
        ensures
            match backoff(*self, attempt) {
                None => r is None,
                Some(d) => r matches Some(x) && x@ == d,
            },
    {
        if attempt >= self.max_attempts {
            return None;
        }
        let m = saturating_pow2(attempt);
        let d = self.initial_delay.saturating_mul(m);
        if self.max_delay.shorter_than(&d) {
            Some(self.max_delay)
        } else {
            Some(d)
        }
    }
}

impl Default for RetryPolicy {
    fn default() -> (p: Self)
        ensures
            p.max_attempts == 5,
            p.initial_delay@ == crate::time::secs_nanos(5),
            p.max_delay@ == crate::time::secs_nanos(300),
    {
        RetryPolicy {
            max_attempts: 5,
            initial_delay: Duration::from_secs(5),
            max_delay: Duration::from_secs(300),
        }
    }
}

#[derive(Debug, Clone, PartialEq, Eq)]
pub enum DeliveryResult {
    Delivered { provider_id: String },
    RetryableFailure { reason: String, retry_after: Duration },
    PermanentFailure { reason: String },
}

impl DeliveryResult {
    pub fn is_success(&self) -> (r: bool)
        ensures
            r == (self is Delivered),
    {
        match self {
            DeliveryResult::Delivered { .. } => true,
            _ => false,
        }
    }

    /// How long to wait before trying again, for a failure that may pass.
    pub fn retry_after(&self) -> (r: Option<Duration>)
        ensures
            match self {
                DeliveryResult::RetryableFailure { retry_after, .. } => r == Some(*retry_after),
                _ => r is None,
            },
    {
        match self {
            DeliveryResult::RetryableFailure { retry_after, .. } => Some(*retry_after),
            _ => None,
        }
    }
}

/// Backoff never waits longer than the policy's maximum delay and never shrinks from one
/// attempt to the next.
pub proof fn lemma_backoff_bounded_and_monotone(p: RetryPolicy, a: u32, b: u32)
    requires
        a <= b,
        b < p.max_attempts,
    ensures
        backoff(p, a).unwrap() <= p.max_delay@,
        backoff(p, a).unwrap() <= backoff(p, b).unwrap(),
{
    lemma_multiplier_monotone(a, b);
    let x = p.initial_delay@;
    assert(x * multiplier(a) <= x * multiplier(b)) by (nonlinear_arith)
        requires
            multiplier(a) <= multiplier(b),
    ;
}

proof fn lemma_multiplier_monotone(a: u32, b: u32)
    requires
        a <= b,
    ensures
        multiplier(a) <= multiplier(b),
    decreases b - a,
{
    if a < b {
        lemma_multiplier_monotone(a, (b - 1) as u32);
        if b < 32 {
            assert(two_pow(b as nat) == 2 * two_pow((b - 1) as nat));
        } else if b == 32 {
            lemma_two_pow_bound(31);
        } else {
            if a < 32 {
                lemma_two_pow_bound(a as nat);
            }
        }
    }
}

} // verus!
