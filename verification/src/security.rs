//! Security decisions for HTTP handling: the hardening headers every response carries, a
//! fixed-window request limiter per client, and double-submit-cookie CSRF checks.
use vstd::prelude::*;
use crate::text::{chars_of, first_index, find_char, owned, pair_views, push_str, split_on, split_str, str_eq, str_starts_with, starts_with, substring, trim, trimmed, views};
use crate::time::{Duration, secs_nanos};
use crate::oauth::lower_hex_char;

verus! {

/// The hardening headers added to every response, in the order they are set.
pub open spec fn security_headers() -> Seq<(Seq<char>, Seq<char>)> {
    seq![
        ("X-Content-Type-Options"@, "nosniff"@),
        ("X-Frame-Options"@, "DENY"@),
        ("X-XSS-Protection"@, "1; mode=block"@),
        ("Referrer-Policy"@, "strict-origin-when-cross-origin"@),
        ("Permissions-Policy"@, "geolocation=(), microphone=(), camera=()"@),
        (
            "Content-Security-Policy"@,
            "default-src 'self'; script-src 'self'; style-src 'self' 'unsafe-inline'; img-src 'self' data:; font-src 'self'"@,
        ),
        ("Strict-Transport-Security"@, "max-age=31536000; includeSubDomains"@),
    ]
}

/// Adds the hardening headers to responses.
#[derive(Debug, Clone, Copy, PartialEq, Eq)]
pub struct SecurityHeaders;

impl SecurityHeaders {
    pub fn new() -> (s: Self) {
        SecurityHeaders
    }

    /// The headers to add, in order.
    pub fn headers(&self) -> (r: Vec<(String, String)>)
        ensures
            pair_views(r@) == security_headers(),
    {
        let mut v: Vec<(String, String)> = Vec::new();
        v.push((owned("X-Content-Type-Options"), owned("nosniff")));
        v.push((owned("X-Frame-Options"), owned("DENY")));
        v.push((owned("X-XSS-Protection"), owned("1; mode=block")));
        v.push((owned("Referrer-Policy"), owned("strict-origin-when-cross-origin")));
        v.push((owned("Permissions-Policy"), owned("geolocation=(), microphone=(), camera=()")));
        v.push(
            (
                owned("Content-Security-Policy"),
                owned(
                    "default-src 'self'; script-src 'self'; style-src 'self' 'unsafe-inline'; img-src 'self' data:; font-src 'self'",
                ),
            ),
        );
        v.push((owned("Strict-Transport-Security"), owned("max-age=31536000; includeSubDomains")));
        assert(pair_views(v@) =~= security_headers());
        v
    }
}

impl Default for SecurityHeaders {
    fn default() -> (s: Self) {
        SecurityHeaders
    }
}

/// The client a request is counted against: with proxy headers trusted, the first entry of
/// `X-Forwarded-For` (trimmed) or else `X-Real-IP`, when non-empty; otherwise the peer
/// address, or `unknown`.
pub open spec fn client_key(
    trust_proxy: bool,
    forwarded_for: Option<Seq<char>>,
    real_ip: Option<Seq<char>>,
    remote_ip: Option<Seq<char>>,
) -> Seq<char> {
    let forwarded = match forwarded_for {
        Some(f) => trim(split_on(f, ',')[0]),
        None => Seq::empty(),
    };
    let real_text = match real_ip {
        Some(r) => r,
        None => Seq::empty(),
    };
    if trust_proxy && forwarded.len() > 0 {
        forwarded
    } else if trust_proxy && real_text.len() > 0 {
        real_text
    } else {
        match remote_ip {
            Some(ip) => ip,
            None => "unknown"@,
        }
    }
}

/// A client's window: the requests counted and when the window began (nanoseconds on the
/// caller's monotonic clock).
pub struct WindowView {
    pub client: Seq<char>,
    pub count: u32,
    pub started: nat,
}

pub open spec fn window_views(v: Seq<(String, u32, Duration)>) -> Seq<WindowView> {
    v.map_values(|w: (String, u32, Duration)| WindowView { client: w.0@, count: w.1, started: w.2@ })
}

pub open spec fn window_index(ws: Seq<WindowView>, client: Seq<char>) -> Option<int> {
    if exists|i: int| 0 <= i < ws.len() && (#[trigger] ws[i]).client == client {
        Some(choose|i: int| 0 <= i < ws.len() && (#[trigger] ws[i]).client == client)
    } else {
        None
    }
}

pub open spec fn distinct_clients(ws: Seq<WindowView>) -> bool {
    forall|i: int, j: int| 0 <= i < j < ws.len() ==> (#[trigger] ws[i]).client != (#[trigger] ws[j]).client
}

/// What counting one request at `now` does to a client's window (`None` for a new client):
/// a window older than `window` starts over; the request is let through while fewer than
/// `limit` have been counted.
pub open spec fn count_step(limit: u32, window: nat, w: Option<(u32, nat)>, now: nat) -> ((u32, nat), bool) {
    let (count, started) = match w {
        Some(x) => x,
        None => (0u32, now),
    };
    let (count, started) = if (if now >= started { now - started } else { 0 }) > window {
        (0u32, now)
    } else {
        (count, started)
    };
    if count < limit {
        (((count + 1) as u32, started), true)
    } else {
        ((count, started), false)
    }
}

/// Limits each client to `requests_per_window` requests in a fixed window.
#[derive(Debug)]
pub struct RateLimiter {
    requests_per_window: u32,
    window: Duration,
    windows: Vec<(String, u32, Duration)>,
    trust_proxy_headers: bool,
}

impl RateLimiter {
    pub closed spec fn limit(&self) -> u32 {
        self.requests_per_window
    }

    pub closed spec fn window_nanos(&self) -> nat {
        self.window@
    }

    pub closed spec fn trusts_proxy(&self) -> bool {
        self.trust_proxy_headers
    }

    /// The clients' windows.
    pub closed spec fn windows_view(&self) -> Seq<WindowView> {
        window_views(self.windows@)
    }

    /// One window per client, none of which has counted more than the limit.
    pub closed spec fn wf(&self) -> bool {
        &&& distinct_clients(self.windows_view())
        &&& forall|i: int| 0 <= i < self.windows_view().len() ==> (#[trigger] self.windows_view()[i]).count
            <= self.requests_per_window
    }

    /// At most `requests_per_window` requests per client in each window of `window_secs`
    /// seconds; proxy headers are not trusted.
    pub fn new(requests_per_window: u32, window_secs: u64) -> (r: Self)
        ensures
            r.wf(),
            r.limit() == requests_per_window,
            r.window_nanos() == secs_nanos(window_secs as nat),
            !r.trusts_proxy(),
            r.windows_view().len() == 0,
    {
        RateLimiter {
            requests_per_window,
            window: Duration::from_secs(window_secs),
            windows: Vec::new(),
            trust_proxy_headers: false,
        }
    }

    /// Whether the client's address is taken from proxy headers.
    pub fn trust_proxy_headers(self, trust: bool) -> (r: Self)
        requires
            self.wf(),
        ensures
            r.wf(),
            r.trusts_proxy() == trust,
            r.limit() == self.limit(),
            r.window_nanos() == self.window_nanos(),
            r.windows_view() == self.windows_view(),
    {
        RateLimiter { trust_proxy_headers: trust, ..self }
    }

    /// The client a request is counted against, from its `X-Forwarded-For` and `X-Real-IP`
    /// headers (as text, when they are) and its peer address.
    pub fn client_key(&self, forwarded_for: Option<&str>, real_ip: Option<&str>, remote_ip: Option<&str>) -> (r:
        String)
        ensures
            r@ == client_key(
                self.trusts_proxy(),
                match forwarded_for {
                    Some(f) => Some(f@),
                    None => None,
                },
                match real_ip {
                    Some(x) => Some(x@),
                    None => None,
                },
                match remote_ip {
                    Some(x) => Some(x@),
                    None => None,
                },
            ),
    {
        if self.trust_proxy_headers {
            if let Some(f) = forwarded_for {
                let parts = split_str(f, ',');
                assert(split_on(f@, ',').len() >= 1);
                assert(views(parts@).len() == parts@.len());
                assert(views(parts@)[0] == split_on(f@, ',')[0]);
                let first = trimmed(parts[0].as_str());
                if chars_of(first.as_str()).len() > 0 {
                    return first;
                }
            }
            if let Some(x) = real_ip {
                if chars_of(x).len() > 0 {
                    return owned(x);
                }
            }
        }
        match remote_ip {
            Some(ip) => owned(ip),
            None => owned("unknown"),
        }
    }

    /// Counts a request of `client` at `now`, and says whether it is let through.
    pub fn count_request(&mut self, client: &str, now: Duration) -> (allowed: bool)
        requires
            old(self).wf(),
        ensures
            final(self).wf(),
            final(self).limit() == old(self).limit(),
            final(self).window_nanos() == old(self).window_nanos(),
            final(self).trusts_proxy() == old(self).trusts_proxy(),
            ({
                let before = match window_index(old(self).windows_view(), client@) {
                    Some(i) => Some((old(self).windows_view()[i].count, old(self).windows_view()[i].started)),
                    None => None,
                };
                let (after, ok) = count_step(old(self).limit(), old(self).window_nanos(), before, now@);
                &&& allowed == ok
                &&& match window_index(old(self).windows_view(), client@) {
                    Some(i) => final(self).windows_view() == old(self).windows_view().update(
                        i,
                        WindowView { client: client@, count: after.0, started: after.1 },
                    ),
                    None => final(self).windows_view() == old(self).windows_view().push(
                        WindowView { client: client@, count: after.0, started: after.1 },
                    ),
                }
            }),
    {
        let ghost ws = self.windows_view();
        let mut i: usize = 0;
        while i < self.windows.len() && !str_eq(self.windows[i].0.as_str(), client)
            invariant
                ws == self.windows_view(),
                i <= self.windows.len(),
                forall|j: int| 0 <= j < i ==> (#[trigger] ws[j]).client != client@,
            decreases self.windows.len() - i,
        {
            i = i + 1;
        }
        let found = i < self.windows.len();
        proof {
            if found {
                assert(ws[i as int].client == client@);
                let k = choose|k: int| 0 <= k < ws.len() && (#[trigger] ws[k]).client == client@;
                if k != i {
                    assert(ws[k].client == ws[i as int].client);
                }
            }
        }
        let (mut count, mut started) = if found {
            (self.windows[i].1, self.windows[i].2)
        } else {
            (0u32, now)
        };
        if self.window.shorter_than(&now.saturating_sub(started)) {
            count = 0;
            started = now;
        }
        let allowed = count < self.requests_per_window;
        if allowed {
            count = count + 1;
        }
        let ghost new_view = WindowView { client: client@, count, started: started@ };
        if found {
            let name = self.windows[i].0.clone();
            self.windows.set(i, (name, count, started));
            assert(self.windows_view() =~= ws.update(i as int, new_view));
        } else {
            self.windows.push((owned(client), count, started));
            assert(self.windows_view() =~= ws.push(new_view));
        }
        proof {
            let v = self.windows_view();
            assert forall|a: int, b: int| 0 <= a < b < v.len() implies (#[trigger] v[a]).client != (
            #[trigger] v[b]).client by {
                if found {
                    if a == i {
                        assert(v[a].client == ws[a].client);
                    }
                    if b == i {
                        assert(v[b].client == ws[b].client);
                    }
                } else if b == ws.len() {
                    assert(v[a] == ws[a]);
                }
            }
        }
        allowed
    }

    /// Forgets the windows that began more than a window before `now`.
    pub fn cleanup(&mut self, now: Duration)
        requires
            old(self).wf(),
        ensures
            final(self).wf(),
            final(self).limit() == old(self).limit(),
            final(self).window_nanos() == old(self).window_nanos(),
            final(self).trusts_proxy() == old(self).trusts_proxy(),
            final(self).windows_view() == old(self).windows_view().filter(
                |w: WindowView| (if now@ >= w.started { now@ - w.started } else { 0 }) <= old(self).window_nanos(),
            ),
    {
        let ghost ws = self.windows_view();
        let ghost keep = |w: WindowView| (if now@ >= w.started { now@ - w.started } else { 0 }) <= self.window@;
        let mut kept: Vec<(String, u32, Duration)> = Vec::new();
        let mut i: usize = 0;
        assert(ws.take(0).filter(keep) =~= Seq::<WindowView>::empty()) by {
            reveal_with_fuel(Seq::<WindowView>::filter, 1);
        }
        while i < self.windows.len()
            invariant
                ws == self.windows_view(),
                i <= self.windows.len(),
                window_views(kept@) == ws.take(i as int).filter(keep),
                keep == (|w: WindowView| (if now@ >= w.started { now@ - w.started } else { 0 }) <= self.window@),
            decreases self.windows.len() - i,
        {
            let w = &self.windows[i];
            assert(ws.take(i + 1) =~= ws.take(i as int).push(ws[i as int]));
            proof {
                ws.take(i as int).lemma_filter_push(ws[i as int], keep);
            }
            if !self.window.shorter_than(&now.saturating_sub(w.2)) {
                let ghost before = kept@;
                kept.push((w.0.clone(), w.1, w.2));
                assert(window_views(kept@) =~= window_views(before).push(ws[i as int]));
            }
            i = i + 1;
        }
        assert(ws.take(i as int) =~= ws);
        proof {
            let v = window_views(kept@);
            broadcast use vstd::seq_lib::group_filter_ensures;
            assert forall|a: int, b: int| 0 <= a < b < v.len() implies (#[trigger] v[a]).client != (
            #[trigger] v[b]).client by {
                lemma_filter_order(ws, keep, a, b);
            }
            assert forall|a: int| 0 <= a < v.len() implies (#[trigger] v[a]).count <= self.requests_per_window by {
                lemma_filter_member(ws, keep, a);
            }
        }
        self.windows = kept;
    }

    /// The `Retry-After` value of a refused request: the window in whole seconds.
    pub fn retry_after(&self) -> (r: String)
        ensures
            r@ == crate::text::decimal(self.window_nanos() / 1_000_000_000),
    {
        crate::text::decimal_string(self.window.as_secs())
    }
}

/// Every element of a filtered sequence comes from the original.
proof fn lemma_filter_member(ws: Seq<WindowView>, keep: spec_fn(WindowView) -> bool, a: int)
    requires
        0 <= a < ws.filter(keep).len(),
    ensures
        exists|k: int| 0 <= k < ws.len() && ws[k] == ws.filter(keep)[a],
    decreases ws.len(),
{
    reveal_with_fuel(Seq::<WindowView>::filter, 1);
    if ws.len() > 0 {
        let rest = ws.drop_last();
        let f = rest.filter(keep);
        if keep(ws.last()) && a == f.len() {
            assert(ws.filter(keep)[a] == ws.last());
            assert(ws[ws.len() - 1] == ws.last());
        } else {
            if keep(ws.last()) {
                assert(ws.filter(keep)[a] == f[a]);
            }
            lemma_filter_member(rest, keep, a);
            let k = choose|k: int| 0 <= k < rest.len() && rest[k] == f[a];
            assert(ws[k] == rest[k]);
        }
    }
}

/// Two different places of a filtered sequence hold elements from two different places of the
/// original, in the same order.
proof fn lemma_filter_order(ws: Seq<WindowView>, keep: spec_fn(WindowView) -> bool, a: int, b: int)
    requires
        distinct_clients(ws),
        0 <= a < b < ws.filter(keep).len(),
    ensures
        ws.filter(keep)[a].client != ws.filter(keep)[b].client,
    decreases ws.len(),
{
    reveal_with_fuel(Seq::<WindowView>::filter, 1);
    broadcast use vstd::seq_lib::group_filter_ensures;

    if ws.len() > 0 {
        let rest = ws.drop_last();
        assert forall|i: int, j: int| 0 <= i < j < rest.len() implies (#[trigger] rest[i]).client != (
        #[trigger] rest[j]).client by {
            assert(rest[i] == ws[i] && rest[j] == ws[j]);
        }
        let f = rest.filter(keep);
        if keep(ws.last()) {
            assert(ws.filter(keep) == f.push(ws.last()));
            if b < f.len() {
                lemma_filter_order(rest, keep, a, b);
            } else {
                lemma_filter_member(rest, keep, a);
                let k = choose|k: int| 0 <= k < rest.len() && rest[k] == f[a];
                assert(ws[k] == rest[k]);
                assert(ws[ws.len() - 1] == ws.last());
            }
        } else {
            assert(ws.filter(keep) == f);
            lemma_filter_order(rest, keep, a, b);
        }
    }
}

/// The value of the cookie `name` among the `;`-separated pieces of a `Cookie` header: the
/// first trimmed piece `name=value`.
pub open spec fn cookie_in(pieces: Seq<Seq<char>>, name: Seq<char>) -> Option<Seq<char>>
    decreases pieces.len(),
{
    if pieces.len() == 0 {
        None
    } else {
        let t = trim(pieces[0]);
        match first_index(t, '=') {
            Some(k) => if t.take(k) == name {
                Some(t.skip(k + 1))
            } else {
                cookie_in(pieces.drop_first(), name)
            },
            None => cookie_in(pieces.drop_first(), name),
        }
    }
}

pub open spec fn cookie_value(header: Option<Seq<char>>, name: Seq<char>) -> Option<Seq<char>> {
    match header {
        Some(h) => cookie_in(split_on(h, ';'), name),
        None => None,
    }
}

pub open spec fn safe_method(method: Seq<char>) -> bool {
    method == "GET"@ || method == "HEAD"@ || method == "OPTIONS"@
}

/// Checks unsafe requests against the double-submit cookie: the token in the header (or, for
/// form posts, the form field) must equal the cookie's.
#[derive(Debug, Clone, PartialEq, Eq)]
pub struct CsrfProtection {
    cookie_name: String,
    header_name: String,
    form_field_name: String,
}

/// The hyphenated form of a version-4 UUID: 36 characters, hyphens at positions 8, 13, 18
/// and 23, lower-case hex digits elsewhere, the version digit `4` at position 14 and one of
/// `8`, `9`, `a`, `b` (the RFC 4122 variant) at position 19.
pub open spec fn hyphenated_v4_uuid(s: Seq<char>) -> bool {
    &&& s.len() == 36
    &&& forall|i: int|
        0 <= i < 36 ==> if i == 8 || i == 13 || i == 18 || i == 23 {
            #[trigger] s[i] == '-'
        } else {
            lower_hex_char(s[i])
        }
    &&& s[14] == '4'
    &&& (s[19] == '8' || s[19] == '9' || s[19] == 'a' || s[19] == 'b')
}

/// A fresh random UUID, `uuid::Uuid::new_v4().to_string()`: the hyphenated lower-case form
/// of a version-4, RFC 4122 variant UUID. Which digits come out is chance.
#[verifier::external_body]
fn random_uuid_text() -> (s: String)
    ensures
        hyphenated_v4_uuid(s@),
{
    uuid::Uuid::new_v4().to_string()
}

impl CsrfProtection {
    pub closed spec fn cookie(&self) -> Seq<char> {
        self.cookie_name@
    }

    pub closed spec fn header(&self) -> Seq<char> {
        self.header_name@
    }

    pub closed spec fn form_field(&self) -> Seq<char> {
        self.form_field_name@
    }

    /// The cookie `csrf_token`, the header `X-CSRF-Token` and the form field `_csrf`.
    pub fn new() -> (c: Self)
        ensures
            c.cookie() == "csrf_token"@,
            c.header() == "X-CSRF-Token"@,
            c.form_field() == "_csrf"@,
    {
        CsrfProtection {
            cookie_name: owned("csrf_token"),
            header_name: owned("X-CSRF-Token"),
            form_field_name: owned("_csrf"),
        }
    }

    pub fn header_name(&self) -> (r: &str)
        ensures
            r@ == self.header(),
    {
        self.header_name.as_str()
    }

    pub fn form_field_name(&self) -> (r: &str)
        ensures
            r@ == self.form_field(),
    {
        self.form_field_name.as_str()
    }

    /// Whether requests with this method pass without a check (they get the cookie instead).
    pub fn is_safe_method(method: &str) -> (r: bool)
        ensures
            r == safe_method(method@),
    {
        str_eq(method, "GET") || str_eq(method, "HEAD") || str_eq(method, "OPTIONS")
    }

    /// Whether the token is looked for in a URL-encoded form body.
    pub fn reads_form(content_type: Option<&str>) -> (r: bool)
        ensures
            r == (content_type matches Some(ct) && starts_with(ct@, "application/x-www-form-urlencoded"@)),
    {
        match content_type {
            Some(ct) => str_starts_with(ct, "application/x-www-form-urlencoded"),
            None => false,
        }
    }

    /// The CSRF token carried by a `Cookie` header.
    pub fn cookie_token(&self, cookie_header: Option<&str>) -> (r: Option<String>)
        ensures
            match cookie_value(
                match cookie_header {
                    Some(h) => Some(h@),
                    None => None,
                },
                self.cookie(),
            ) {
                Some(v) => r matches Some(s) && s@ == v,
                None => r is None,
            },
    {
        match cookie_header {
            Some(h) => extract_cookie_value(h, self.cookie_name.as_str()),
            None => None,
        }
    }

    /// The token a safe request's response sets: the one the client already has, or a fresh
    /// random one.
    pub fn response_token(&self, existing: Option<String>) -> (r: String)
        ensures
            existing matches Some(t) ==> r@ == t@,
            existing is None ==> hyphenated_v4_uuid(r@),
    {
        match existing {
            Some(t) => t,
            None => random_uuid_text(),
        }
    }

    /// The `Set-Cookie` value that hands out `token`: readable by scripts, same-site only.
    pub fn set_cookie(&self, token: &str) -> (r: String)
        ensures
            r@ == self.cookie() + "="@ + token@ + "; Path=/; SameSite=Strict"@,
    {
        let mut s = self.cookie_name.clone();
        push_str(&mut s, "=");
        push_str(&mut s, token);
        push_str(&mut s, "; Path=/; SameSite=Strict");
        s
    }

    /// Whether an unsafe request passes: the header token, or else the form token, equals the
    /// cookie token.
    pub fn verify(cookie_token: Option<&str>, header_token: Option<&str>, form_token: Option<&str>) -> (r: bool)
        ensures
            r == (cookie_token matches Some(c) && match header_token {
                Some(h) => c@ == h@,
                None => form_token matches Some(f) && c@ == f@,
            }),
    {
        let request_token = match header_token {
            Some(h) => Some(h),
            None => form_token,
        };
        match (cookie_token, request_token) {
            (Some(c), Some(t)) => str_eq(c, t),
            _ => false,
        }
    }
}

impl Default for CsrfProtection {
    fn default() -> (c: Self)
        ensures
            c.cookie() == "csrf_token"@,
            c.header() == "X-CSRF-Token"@,
            c.form_field() == "_csrf"@,
    {
        CsrfProtection::new()
    }
}

proof fn lemma_cookie_in_skip(pieces: Seq<Seq<char>>, name: Seq<char>, i: int)
    requires
        0 <= i <= pieces.len(),
        forall|j: int| 0 <= j < i ==> cookie_in(seq![#[trigger] pieces[j]], name) is None,
    ensures
        cookie_in(pieces, name) == cookie_in(pieces.skip(i), name),
    decreases i,
{
    if i > 0 {
        assert(cookie_in(seq![pieces[0]], name) is None);
        assert(seq![pieces[0]].drop_first() =~= Seq::<Seq<char>>::empty());
        assert forall|j: int| 0 <= j < i - 1 implies cookie_in(seq![#[trigger] pieces.drop_first()[j]], name) is None by {
            assert(pieces.drop_first()[j] == pieces[j + 1]);
        }
        lemma_cookie_in_skip(pieces.drop_first(), name, i - 1);
        assert(pieces.drop_first().skip(i - 1) =~= pieces.skip(i));
    } else {
        assert(pieces.skip(0) =~= pieces);
    }
}

/// The value of the cookie `name` in the `Cookie` header `header`.
fn extract_cookie_value(header: &str, name: &str) -> (r: Option<String>)
    ensures
        match cookie_in(split_on(header@, ';'), name@) {
            Some(v) => r matches Some(s) && s@ == v,
            None => r is None,
        },
{
    let pieces = split_str(header, ';');
    let ghost ps = split_on(header@, ';');
    let mut i: usize = 0;
    while i < pieces.len()
        invariant
            views(pieces@) == ps,
            ps == split_on(header@, ';'),
            i <= pieces.len(),
            forall|j: int| 0 <= j < i ==> cookie_in(seq![#[trigger] ps[j]], name@) is None,
        decreases pieces.len() - i,
    {
        let t = trimmed(pieces[i].as_str());
        let v = chars_of(t.as_str());
        let ghost one = seq![ps[i as int]];
        assert(ps[i as int] == pieces@[i as int]@);
        assert(one[0] == pieces@[i as int]@);
        assert(one.drop_first() =~= Seq::<Seq<char>>::empty());
        assert(cookie_in(one.drop_first(), name@) is None);
        match find_char(&v, '=') {
            Some(k) => {
                assert(k < v.len());
                assert(first_index(t@, '=') == Some(k as int));
                let key = substring(&v, 0, k);
                assert(key@ =~= t@.take(k as int));
                if str_eq(key.as_str(), name) {
                    let value = substring(&v, k + 1, v.len());
                    assert(value@ =~= t@.skip(k + 1));
                    proof {
                        lemma_cookie_in_skip(ps, name@, i as int);
                        let rest = ps.skip(i as int);
                        assert(rest[0] == ps[i as int]);
                        assert(trim(rest[0]) == t@);
                        assert(t@.take(k as int) == name@);
                        assert(cookie_in(rest, name@) == Some(t@.skip(k + 1)));
                    }
                    return Some(value);
                }
            },
            None => {},
        }
        i = i + 1;
    }
    proof {
        lemma_cookie_in_skip(ps, name@, i as int);
        assert(ps.skip(i as int) =~= Seq::<Seq<char>>::empty());
    }
    None
}

/// Unless proxy headers are trusted, what a client writes in `X-Forwarded-For` or
/// `X-Real-IP` does not change whom its requests are counted against.
pub proof fn lemma_untrusted_headers_ignored(
    f1: Option<Seq<char>>,
    f2: Option<Seq<char>>,
    r1: Option<Seq<char>>,
    r2: Option<Seq<char>>,
    remote: Option<Seq<char>>,
)
    ensures
        client_key(false, f1, r1, remote) == client_key(false, f2, r2, remote),
{
}

} // verus!
