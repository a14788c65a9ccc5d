//! Reverse-proxy request policy: which upstream, methods, paths, headers and body sizes
//! are forwarded.
use vstd::prelude::*;
use crate::text::{contains_sub, contains_text, 
    chars_of, decimal, has_no_control, has_no_control_or_space, no_control, no_control_or_space,
    push_decimal, push_str, starts_with, str_eq, str_starts_with, string_from_chars,
};

verus! {

#[derive(Debug, Clone, Copy, PartialEq, Eq, Structural)]
pub enum ProxyMethod {
    Get,
    Post,
    Put,
    Patch,
    Delete,
}

#[derive(Debug, Clone, Copy, PartialEq, Eq, Structural)]
pub enum ProxyError {
    InvalidUpstream,
    MethodNotAllowed,
    BodyTooLarge,
    InvalidHeader,
}

#[derive(Debug, Clone, PartialEq, Eq)]
pub struct ProxyRequest {
    pub method: ProxyMethod,
    pub upstream: String,
    pub path: String,
    pub headers: Vec<(String, String)>,
    pub body: Vec<u8>,
}

#[derive(Debug, Clone)]
pub struct ProxyPolicy {
    pub upstream: String,
    pub max_body: usize,
    allowed: Vec<ProxyMethod>,
}

pub open spec fn https_prefix() -> Seq<char> {
    seq!['h', 't', 't', 'p', 's', ':', '/', '/']
}

pub open spec fn valid_upstream(u: Seq<char>) -> bool {
    starts_with(u, https_prefix()) && no_control_or_space(u)
}

/// A forwarded path: starts with `/`, never `..`, no control or whitespace characters.
pub open spec fn valid_forward_path(p: Seq<char>) -> bool {
    p.len() > 0 && p[0] == '/' && !contains_sub(p, seq!['.', '.']) && no_control_or_space(p)
}

pub open spec fn ascii_lower(s: Seq<char>) -> Seq<char> {
    s.map_values(|c: char| if 'A' <= c && c <= 'Z' {
        ((c as u32) + 32) as char
    } else {
        c
    })
}

/// Headers the proxy sets itself, by lower-case name.
pub open spec fn hop_header(lower: Seq<char>) -> bool {
    lower == "host"@ || lower == "connection"@ || lower == "content-length"@ || lower
        == "x-forwarded-for"@
}

/// Whether a header is forwarded.
pub open spec fn forwarded(k: Seq<char>, v: Seq<char>) -> bool {
    !hop_header(ascii_lower(k)) && k.len() > 0 && no_control_or_space(k) && no_control(v)
}

pub open spec fn pair_views(v: Seq<(String, String)>) -> Seq<(Seq<char>, Seq<char>)> {
    v.map_values(|p: (String, String)| (p.0@, p.1@))
}

/// The headers that are forwarded, in order.
pub open spec fn forwarded_headers(hs: Seq<(Seq<char>, Seq<char>)>) -> Seq<(Seq<char>, Seq<char>)>
    decreases hs.len(),
{
    if hs.len() == 0 {
        hs
    } else if forwarded(hs.last().0, hs.last().1) {
        forwarded_headers(hs.drop_last()).push(hs.last())
    } else {
        forwarded_headers(hs.drop_last())
    }
}

fn lowercase(s: &str) -> (r: Vec<char>)
    ensures
        r@ == ascii_lower(s@),
{
    let v = chars_of(s);
    let mut r: Vec<char> = Vec::new();
    let mut i: usize = 0;
    while i < v.len()
        invariant
            v@ == s@,
            i <= v@.len(),
            r@ == ascii_lower(s@.take(i as int)),
        decreases v@.len() - i,
    {
        let c = v[i];
        let d = if 'A' <= c && c <= 'Z' {
            ((c as u32) + 32) as u8 as char
        } else {
            c
        };
        proof {
            if 'A' <= c && c <= 'Z' {
                assert((((c as u32) + 32) as u8 as char) == (((c as u32) + 32) as char));
            }
        }
        r.push(d);
        i = i + 1;
        assert(r@ =~= ascii_lower(s@.take(i as int)));
    }
    assert(s@.take(v@.len() as int) =~= s@);
    r
}

fn is_forwarded(k: &str, v: &str) -> (r: bool)
    ensures
        r == forwarded(k@, v@),
{
    let lower = string_from_chars(&lowercase(k));
    let hop = str_eq(lower.as_str(), "host") || str_eq(lower.as_str(), "connection") || str_eq(
        lower.as_str(),
        "content-length",
    ) || str_eq(lower.as_str(), "x-forwarded-for");
    !hop && !k.is_empty() && has_no_control_or_space(k) && has_no_control(v)
}

fn contains_method(v: &Vec<ProxyMethod>, m: ProxyMethod) -> (r: bool)
    ensures
        r == v@.contains(m),
{
    let mut i: usize = 0;
    while i < v.len() && v[i] != m
        invariant
            i <= v@.len(),
            forall|j: int| 0 <= j < i ==> v@[j] != m,
        decreases v@.len() - i,
    {
        i = i + 1;
    }
    i < v.len()
}

impl ProxyPolicy {
    pub closed spec fn allowed(&self) -> Seq<ProxyMethod> {
        self.allowed@
    }

    pub closed spec fn upstream_text(&self) -> Seq<char> {
        self.upstream@
    }

    pub closed spec fn body_limit(&self) -> nat {
        self.max_body as nat
    }

    /// A policy for `upstream`, an `https://` URL, forwarding bodies of up to `max_body` bytes;
    /// only `GET` is allowed at first.
    pub fn new(upstream: &str, max_body: usize) -> (r: Result<ProxyPolicy, ProxyError>)
        ensures
            !valid_upstream(upstream@) ==> r == Err::<ProxyPolicy, _>(ProxyError::InvalidUpstream),
            valid_upstream(upstream@) ==> (r matches Ok(p) && p.upstream_text() == upstream@ && p.body_limit()
                == max_body && p.allowed() == seq![ProxyMethod::Get]),
    {
        proof {
            reveal_strlit("https://");
            assert("https://"@ =~= https_prefix());
        }
        if !str_starts_with(upstream, "https://") || !has_no_control_or_space(upstream) {
            return Err(ProxyError::InvalidUpstream);
        }
        let mut allowed = Vec::new();
        allowed.push(ProxyMethod::Get);
        assert(allowed@ =~= seq![ProxyMethod::Get]);
        Ok(ProxyPolicy { upstream: upstream.to_string(), max_body, allowed })
    }

    /// Also allows `method`.
    pub fn allow(self, method: ProxyMethod) -> (p: ProxyPolicy)
        ensures
            p.upstream_text() == self.upstream_text(),
            p.body_limit() == self.body_limit(),
            p.allowed() == if self.allowed().contains(method) {
                self.allowed()
            } else {
                self.allowed().push(method)
            },
    {
        let mut p = self;
        if !contains_method(&p.allowed, method) {
            p.allowed.push(method);
        }
        p
    }

    /// The request to forward: an allowed method, a safe path, a body within the limit, and
    /// the headers the proxy does not set itself, in order.
    pub fn build(&self, method: ProxyMethod, path: &str, headers: Vec<(String, String)>, body: Vec<u8>) -> (r:
        Result<ProxyRequest, ProxyError>)
        ensures
            !self.allowed().contains(method) ==> r == Err::<ProxyRequest, _>(
                ProxyError::MethodNotAllowed,
            ),
            self.allowed().contains(method) && !valid_forward_path(path@) ==> r == Err::<
                ProxyRequest,
                _,
            >(ProxyError::InvalidUpstream),
            self.allowed().contains(method) && valid_forward_path(path@) && body@.len() > self.body_limit()
                ==> r == Err::<ProxyRequest, _>(ProxyError::BodyTooLarge),
            self.allowed().contains(method) && valid_forward_path(path@) && body@.len() <= self.body_limit()
                ==> (r matches Ok(q) && q.method == method && q.upstream@ == self.upstream_text() && q.path@
                == path@ && pair_views(q.headers@) == forwarded_headers(pair_views(headers@))
                && q.body@ == body@),
    {
        if !contains_method(&self.allowed, method) {
            return Err(ProxyError::MethodNotAllowed);
        }
        proof {
            reveal_strlit("/");
            reveal_strlit("..");
            assert("/"@ =~= seq!['/']);
            assert(".."@ =~= seq!['.', '.']);
            if path@.len() > 0 {
                assert(path@.take(1)[0] == path@[0]);
                if path@[0] == '/' {
                    assert(path@.take(1) =~= seq!['/']);
                }
            }
        }
        if !str_starts_with(path, "/") || contains_text(path, "..") || !has_no_control_or_space(path) {
            return Err(ProxyError::InvalidUpstream);
        }
        if body.len() > self.max_body {
            return Err(ProxyError::BodyTooLarge);
        }
        let ghost hs = pair_views(headers@);
        let mut kept: Vec<(String, String)> = Vec::new();
        let mut k: usize = 0;
        while k < headers.len()
            invariant
                hs == pair_views(headers@),
                k <= hs.len(),
                pair_views(kept@) == forwarded_headers(hs.take(k as int)),
            decreases hs.len() - k,
        {
            proof {
                assert(hs.take(k + 1).drop_last() =~= hs.take(k as int));
                assert(hs.take(k + 1).last() == hs[k as int]);
            }
            let (name, value) = (&headers[k].0, &headers[k].1);
            if is_forwarded(name.as_str(), value.as_str()) {
                let ghost before = kept@;
                kept.push((name.clone(), value.clone()));
                assert(pair_views(kept@) =~= pair_views(before).push(hs[k as int]));
            }
            k = k + 1;
        }
        assert(hs.take(hs.len() as int) =~= hs);
        Ok(
            ProxyRequest {
                method,
                upstream: self.upstream.clone(),
                path: path.to_string(),
                headers: kept,
                body,
            },
        )
    }

    /// `<upstream> (max_body=<n>)`.
    pub fn describe(&self) -> (s: String)
        ensures
            s@ == self.upstream_text() + " (max_body="@ + decimal(self.body_limit()) + ")"@,
    {
        let mut s = self.upstream.clone();
        push_str(&mut s, " (max_body=");
        push_decimal(&mut s, self.max_body as u64);
        push_str(&mut s, ")");
        s
    }
}

} // verus!
