//! Cross-origin and header policy helpers for media delivery.
use vstd::prelude::*;
use crate::text::{after_last_separator, after_last_separator_of, byte_len, chars_of, has_no_control_or_space, is_control, no_control_or_space, owned, push_str, sanitize_filename, sanitized_filename, starts_with, str_contains_char, str_eq, str_starts_with, string_from_chars, substring, views};

verus! {

#[derive(Debug, Clone, Copy, PartialEq, Eq, Structural)]
pub enum DeliveryPolicyError {
    InvalidOrigin,
    InvalidFilename,
    WildcardWithCredentials,
    OriginDenied,
    RangeDenied,
}

/// The origins allowed to fetch media, and what they may do.
#[derive(Debug, Clone, PartialEq, Eq)]
pub struct MediaDeliveryPolicy {
    origins: Vec<String>,
    allow_credentials: bool,
    allow_ranges: bool,
    expose_etag: bool,
}

#[derive(Debug, Clone, PartialEq, Eq)]
pub struct DeliveryHeaders {
    pub allow_origin: Option<String>,
    pub allow_credentials: bool,
    pub expose_headers: Vec<String>,
    pub content_disposition: Option<String>,
    pub accept_ranges: bool,
}

/// `*`, or an `http://` or `https://` origin of at most 512 bytes, without control or
/// whitespace characters and without a path after its host.
pub open spec fn valid_origin(o: Seq<char>) -> bool {
    o == "*"@ || (byte_len(o) <= 512 && no_control_or_space(o) && ((starts_with(o, "https://"@)
        && !o.skip(8).contains('/')) || (!starts_with(o, "https://"@) && starts_with(
        o,
        "http://"@,
    ) && !o.skip(7).contains('/'))))
}

/// The first invalid origin of a list, if any.
pub open spec fn first_invalid(origins: Seq<Seq<char>>) -> bool {
    exists|i: int| 0 <= i < origins.len() && !valid_origin(#[trigger] origins[i])
}

/// The file name a download is offered under, refused when empty, longer than 255 bytes, or
/// holding control characters or quotes.
pub open spec fn disposition_check(name: Seq<char>) -> Result<Seq<char>, DeliveryPolicyError> {
    let f = after_last_separator(name);
    if f.len() == 0 || byte_len(f) > 255 || exists|i: int|
        0 <= i < f.len() && (is_control(#[trigger] f[i]) || f[i] == '"') {
        Err(DeliveryPolicyError::InvalidFilename)
    } else {
        Ok("attachment; filename=\""@ + sanitize_filename(f) + "\""@)
    }
}

fn validate_origin(origin: &str) -> (r: bool)
    ensures
        r == valid_origin(origin@),
{
    proof {
        reveal_strlit("*");
        reveal_strlit("https://");
        reveal_strlit("http://");
    }
    if str_eq(origin, "*") {
        return true;
    }
    if origin.len() > 512 || !has_no_control_or_space(origin) {
        return false;
    }
    let v = chars_of(origin);
    if str_starts_with(origin, "https://") {
        let rest = substring(&v, 8, v.len());
        assert(rest@ =~= origin@.skip(8));
        !str_contains_char(rest.as_str(), '/')
    } else if str_starts_with(origin, "http://") {
        let rest = substring(&v, 7, v.len());
        assert(rest@ =~= origin@.skip(7));
        !str_contains_char(rest.as_str(), '/')
    } else {
        false
    }
}

fn safe_disposition(name: &str) -> (r: Result<String, DeliveryPolicyError>)
    ensures
        match r {
            Ok(s) => disposition_check(name@) == Ok::<_, DeliveryPolicyError>(s@),
            Err(e) => disposition_check(name@) == Err::<Seq<char>, _>(e),
        },
{
    let v = chars_of(name);
    let f = after_last_separator_of(&v);
    let fs = string_from_chars(&f);
    if f.len() == 0 || fs.as_str().len() > 255 {
        return Err(DeliveryPolicyError::InvalidFilename);
    }
    let mut i: usize = 0;
    while i < f.len()
        invariant
            f@ == after_last_separator(name@),
            i <= f@.len(),
            forall|j: int| 0 <= j < i ==> !(is_control(#[trigger] f@[j]) || f@[j] == '"'),
        decreases f@.len() - i,
    {
        if crate::text::char_is_control(f[i]) || f[i] == '"' {
            assert(is_control(f@[i as int]) || f@[i as int] == '"');
            return Err(DeliveryPolicyError::InvalidFilename);
        }
        i = i + 1;
    }
    let clean = sanitized_filename(&f);
    let mut s = owned("attachment; filename=\"");
    let cs = string_from_chars(&clean);
    push_str(&mut s, cs.as_str());
    push_str(&mut s, "\"");
    Ok(s)
}

fn contains_origin(v: &Vec<String>, x: &str) -> (r: bool)
    ensures
        r == views(v@).contains(x@),
{
    crate::text::contains_str(v, x)
}

impl MediaDeliveryPolicy {
    pub closed spec fn origins(&self) -> Seq<Seq<char>> {
        views(self.origins@)
    }

    pub closed spec fn allows_credentials(&self) -> bool {
        self.allow_credentials
    }

    pub closed spec fn allows_ranges(&self) -> bool {
        self.allow_ranges
    }

    pub closed spec fn exposes_etag(&self) -> bool {
        self.expose_etag
    }

    /// A policy for `origins`; a wildcard origin cannot be combined with credentials.
    pub fn new(
        origins: Vec<String>,
        allow_credentials: bool,
        allow_ranges: bool,
        expose_etag: bool,
    ) -> (r: Result<MediaDeliveryPolicy, DeliveryPolicyError>)
        ensures
            first_invalid(views(origins@)) ==> r == Err::<MediaDeliveryPolicy, _>(
                DeliveryPolicyError::InvalidOrigin,
            ),
            !first_invalid(views(origins@)) && allow_credentials && views(origins@).contains("*"@)
                ==> r == Err::<MediaDeliveryPolicy, _>(
                DeliveryPolicyError::WildcardWithCredentials,
            ),
            !first_invalid(views(origins@)) && !(allow_credentials && views(origins@).contains(
                "*"@,
            )) ==> (r matches Ok(p) && p.origins() == views(origins@) && p.allows_credentials()
                == allow_credentials && p.allows_ranges() == allow_ranges && p.exposes_etag()
                == expose_etag),
    {
        let mut i: usize = 0;
        while i < origins.len()
            invariant
                i <= origins@.len(),
                forall|j: int| 0 <= j < i ==> valid_origin(#[trigger] origins@[j]@),
            decreases origins@.len() - i,
        {
            if !validate_origin(origins[i].as_str()) {
                proof {
                    assert(!valid_origin(views(origins@)[i as int]));
                }
                return Err(DeliveryPolicyError::InvalidOrigin);
            }
            i = i + 1;
        }
        proof {
            assert forall|j: int| 0 <= j < views(origins@).len() implies valid_origin(
                #[trigger] views(origins@)[j],
            ) by {
                assert(views(origins@)[j] == origins@[j]@);
            }
        }
        if allow_credentials && contains_origin(&origins, "*") {
            return Err(DeliveryPolicyError::WildcardWithCredentials);
        }
        Ok(MediaDeliveryPolicy { origins, allow_credentials, allow_ranges, expose_etag })
    }

    /// The headers for a request from `origin`: refused for an invalid or unlisted origin, for
    /// a range request when ranges are off, and for an unsafe download name.
    pub fn evaluate(
        &self,
        origin: Option<&str>,
        range_requested: bool,
        download_name: Option<&str>,
    ) -> (r: Result<DeliveryHeaders, DeliveryPolicyError>)
        ensures
            (origin matches Some(o) && !valid_origin(o@)) ==> r == Err::<DeliveryHeaders, _>(
                DeliveryPolicyError::InvalidOrigin,
            ),
            (origin matches Some(o) && valid_origin(o@) && !self.origins().contains("*"@)
                && !self.origins().contains(o@)) ==> r == Err::<DeliveryHeaders, _>(
                DeliveryPolicyError::OriginDenied,
            ),
            r matches Ok(h) ==> (match origin {
                Some(o) => h.allow_origin matches Some(a) && a@ == o@ && valid_origin(o@) && (
                self.origins().contains("*"@) || self.origins().contains(o@)),
                None => h.allow_origin is None,
            }) && !(range_requested && !self.allows_ranges()) && h.allow_credentials
                == self.allows_credentials() && h.accept_ranges == self.allows_ranges() && views(
                h.expose_headers@,
            ) == (if self.exposes_etag() {
                seq!["ETag"@, "Content-Range"@]
            } else {
                seq!["Content-Range"@]
            }) && match download_name {
                Some(n) => h.content_disposition matches Some(d) && disposition_check(n@) == Ok::<
                    _,
                    DeliveryPolicyError,
                >(d@),
                None => h.content_disposition is None,
            },
            (origin matches Some(o) && valid_origin(o@) && (self.origins().contains("*"@)
                || self.origins().contains(o@))) || origin is None ==> (range_requested
                && !self.allows_ranges() ==> r == Err::<DeliveryHeaders, _>(
                DeliveryPolicyError::RangeDenied,
            )),
            (origin matches Some(o) && valid_origin(o@) && (self.origins().contains("*"@)
                || self.origins().contains(o@))) || origin is None ==> (!(range_requested
                && !self.allows_ranges()) ==> match download_name {
                Some(n) => match disposition_check(n@) {
                    Err(e) => r == Err::<DeliveryHeaders, _>(e),
                    Ok(_) => r is Ok,
                },
                None => r is Ok,
            }),
    {
        let allow_origin = match origin {
            None => None,
            Some(value) => {
                if !validate_origin(value) {
                    return Err(DeliveryPolicyError::InvalidOrigin);
                }
                if contains_origin(&self.origins, "*") || contains_origin(&self.origins, value) {
                    Some(owned(value))
                } else {
                    return Err(DeliveryPolicyError::OriginDenied);
                }
            },
        };
        if range_requested && !self.allow_ranges {
            return Err(DeliveryPolicyError::RangeDenied);
        }
        let content_disposition = match download_name {
            Some(n) => match safe_disposition(n) {
                Ok(d) => Some(d),
                Err(e) => {
                    return Err(e);
                },
            },
            None => None,
        };
        let mut expose_headers: Vec<String> = Vec::new();
        if self.expose_etag {
            expose_headers.push(owned("ETag"));
        }
        expose_headers.push(owned("Content-Range"));
        proof {
            if self.expose_etag {
                assert(views(expose_headers@) =~= seq!["ETag"@, "Content-Range"@]);
            } else {
                assert(views(expose_headers@) =~= seq!["Content-Range"@]);
            }
        }
        Ok(
            DeliveryHeaders {
                allow_origin,
                allow_credentials: self.allow_credentials,
                expose_headers,
                content_disposition,
                accept_ranges: self.allow_ranges,
            },
        )
    }
}

} // verus!
