//! The decisions of the HTTP middleware: CORS headers, body-size limits, request timeouts
//! and entity tags for cache validation.
use vstd::prelude::*;
use crate::text::{decimal, decimal_string, owned, pair_views, parse_u64, parse_u64_spec, push_char, push_str};
use crate::time::Duration;

verus! {

/// Logs each request with its outcome and timing.
#[derive(Debug, Clone, Copy, PartialEq, Eq)]
pub struct Logger;

/// Tags each response with the request's id.
#[derive(Debug, Clone, Copy, PartialEq, Eq)]
pub struct RequestId;

/// Adds entity tags to successful responses and answers matching revalidations.
#[derive(Debug, Clone, Copy, PartialEq, Eq)]
pub struct ETag;

/// Cross-origin resource sharing: what preflight requests are answered and what every
/// response allows.
#[derive(Debug, Clone, PartialEq, Eq)]
pub struct Cors {
    allow_origin: String,
    allow_methods: String,
    allow_headers: String,
    max_age: Option<u32>,
}

pub struct CorsView {
    pub allow_origin: Seq<char>,
    pub allow_methods: Seq<char>,
    pub allow_headers: Seq<char>,
    pub max_age: Option<u32>,
}

impl View for Cors {
    type V = CorsView;

    closed spec fn view(&self) -> CorsView {
        CorsView {
            allow_origin: self.allow_origin@,
            allow_methods: self.allow_methods@,
            allow_headers: self.allow_headers@,
            max_age: self.max_age,
        }
    }
}

/// The headers that answer a preflight request, in order.
pub open spec fn preflight_headers(c: CorsView) -> Seq<(Seq<char>, Seq<char>)> {
    let base = seq![
        ("Access-Control-Allow-Origin"@, c.allow_origin),
        ("Access-Control-Allow-Methods"@, c.allow_methods),
        ("Access-Control-Allow-Headers"@, c.allow_headers),
    ];
    match c.max_age {
        Some(age) => base.push(("Access-Control-Max-Age"@, decimal(age as nat))),
        None => base,
    }
}

impl Cors {
    /// Any origin; the usual methods; `Content-Type` and `Authorization` headers; no max age.
    pub fn new() -> (c: Self)
        ensures
            c@ == (CorsView {
                allow_origin: "*"@,
                allow_methods: "GET, POST, PUT, DELETE, OPTIONS"@,
                allow_headers: "Content-Type, Authorization"@,
                max_age: None,
            }),
    {
        Cors {
            allow_origin: owned("*"),
            allow_methods: owned("GET, POST, PUT, DELETE, OPTIONS"),
            allow_headers: owned("Content-Type, Authorization"),
            max_age: None,
        }
    }

    pub fn allow_origin(self, origin: &str) -> (c: Self)
        ensures
            c@ == (CorsView { allow_origin: origin@, ..self@ }),
    {
        Cors { allow_origin: owned(origin), ..self }
    }

    pub fn allow_methods(self, methods: &str) -> (c: Self)
        ensures
            c@ == (CorsView { allow_methods: methods@, ..self@ }),
    {
        Cors { allow_methods: owned(methods), ..self }
    }

    pub fn allow_headers(self, headers: &str) -> (c: Self)
        ensures
            c@ == (CorsView { allow_headers: headers@, ..self@ }),
    {
        Cors { allow_headers: owned(headers), ..self }
    }

    pub fn max_age(self, age: u32) -> (c: Self)
        ensures
            c@ == (CorsView { max_age: Some(age), ..self@ }),
    {
        Cors { max_age: Some(age), ..self }
    }

    /// The headers of the answer to a preflight (`OPTIONS`) request.
    pub fn preflight_headers(&self) -> (r: Vec<(String, String)>)
        ensures
            pair_views(r@) == preflight_headers(self@),
    {
        let mut v: Vec<(String, String)> = Vec::new();
        v.push((owned("Access-Control-Allow-Origin"), self.allow_origin.clone()));
        v.push((owned("Access-Control-Allow-Methods"), self.allow_methods.clone()));
        v.push((owned("Access-Control-Allow-Headers"), self.allow_headers.clone()));
        if let Some(age) = self.max_age {
            v.push((owned("Access-Control-Max-Age"), decimal_string(age as u64)));
        }
        assert(pair_views(v@) =~= preflight_headers(self@));
        v
    }

    /// The header every other response gets.
    pub fn origin_header(&self) -> (r: (String, String))
        ensures
            r.0@ == "Access-Control-Allow-Origin"@,
            r.1@ == self@.allow_origin,
    {
        (owned("Access-Control-Allow-Origin"), self.allow_origin.clone())
    }
}

impl Default for Cors {
    fn default() -> (c: Self)
        ensures
            c@ == (CorsView {
                allow_origin: "*"@,
                allow_methods: "GET, POST, PUT, DELETE, OPTIONS"@,
                allow_headers: "Content-Type, Authorization"@,
                max_age: None,
            }),
    {
        Cors::new()
    }
}

/// Refuses requests that declare a body larger than a limit.
#[derive(Debug, Clone, Copy, PartialEq, Eq)]
pub struct BodySizeLimit {
    max_bytes: u64,
}

impl BodySizeLimit {
    pub closed spec fn limit(&self) -> u64 {
        self.max_bytes
    }

    pub fn new(max_bytes: u64) -> (b: Self)
        ensures
            b.limit() == max_bytes,
    {
        BodySizeLimit { max_bytes }
    }

    /// Whether a request with this `Content-Length` text is refused as too large: only a
    /// length that reads as a number above the limit is.
    pub fn exceeds(&self, content_length: Option<&str>) -> (r: bool)
        ensures
            r == (content_length matches Some(t) && parse_u64_spec(t@) matches Some(n) && n > self.limit()),
    {
        match content_length {
            Some(t) => match parse_u64(t) {
                Some(n) => n > self.max_bytes,
                None => false,
            },
            None => false,
        }
    }
}

/// Answers with a gateway timeout when a handler takes too long.
#[derive(Debug, Clone, Copy, PartialEq, Eq)]
pub struct Timeout {
    duration: Duration,
}

impl Timeout {
    pub closed spec fn limit(&self) -> nat {
        self.duration@
    }

    pub fn new(duration: Duration) -> (t: Self)
        ensures
            t.limit() == duration@,
    {
        Timeout { duration }
    }

    pub fn duration(&self) -> (d: Duration)
        ensures
            d@ == self.limit(),
    {
        self.duration
    }
}

/// The lower-case hex SHA-1 digest of `data`, as `sha1_smol` writes a digest.
pub uninterp spec fn sha1_hex_text(data: Seq<u8>) -> Seq<char>;

/// `sha1_smol::Sha1::from(data).digest().to_string()`: the digest's five words, each as eight
/// lower-case hex digits.
#[verifier::external_body]
fn sha1_hex(data: &[u8]) -> (r: String)
    ensures
        r@ == sha1_hex_text(data@),
        r@.len() == 40,
{
    sha1_smol::Sha1::from(data).digest().to_string()
}

/// What the entity-tag middleware does with a successful response.
#[derive(Debug, Clone, PartialEq, Eq)]
pub enum ETagOutcome {
    /// The body is empty: the response goes out as it is.
    Untagged,
    /// The client holds this version: answer `304 Not Modified` with the tag.
    NotModified(String),
    /// Send the body with the tag.
    Tagged(String),
}

/// The entity tag of a body: its SHA-1 digest in double quotes.
pub open spec fn etag_of(body: Seq<u8>) -> Seq<char> {
    seq!['"'] + sha1_hex_text(body) + seq!['"']
}

impl ETag {
    /// Decides what happens to a successful response with `body`, given the request's
    /// `If-None-Match` value.
    pub fn decide(if_none_match: Option<&str>, body: &[u8]) -> (r: ETagOutcome)
        ensures
            body@.len() == 0 ==> r == ETagOutcome::Untagged,
            body@.len() > 0 ==> match r {
                ETagOutcome::NotModified(tag) => tag@ == etag_of(body@) && (if_none_match matches Some(h) && h@
                    == etag_of(body@)),
                ETagOutcome::Tagged(tag) => tag@ == etag_of(body@) && !(if_none_match matches Some(h) && h@
                    == etag_of(body@)),
                ETagOutcome::Untagged => false,
            },
    {
        if body.len() == 0 {
            return ETagOutcome::Untagged;
        }
        let mut tag = String::new();
        push_char(&mut tag, '"');
        let hex = sha1_hex(body);
        push_str(&mut tag, hex.as_str());
        push_char(&mut tag, '"');
        assert(tag@ =~= etag_of(body@));
        match if_none_match {
            Some(h) => {
                if crate::text::str_eq(h, tag.as_str()) {
                    ETagOutcome::NotModified(tag)
                } else {
                    ETagOutcome::Tagged(tag)
                }
            },
            None => ETagOutcome::Tagged(tag),
        }
    }
}

} // verus!
