//! Page requests and opaque, signed pagination cursors.
//!
//! A cursor is the URL-safe base64 of a payload, a dot, and the base64 of the HMAC-SHA-256
//! of that text under the codec's secret. What the payload holds (a value and when it
//! expires) is written and read by the caller.
use vstd::prelude::*;
use crate::crypto::{
    base64url_char, base64url_decode, base64url_encode, base64url_text, hmac_sha256,
    hmac_sha256_tag, hmac_sha256_verify, lemma_base64url_text,
};
use crate::text::{chars_of, find_char, first_index, push_str, substring};

verus! {

#[derive(Debug, Clone, Copy, PartialEq, Eq, Structural)]
pub enum PaginationError {
    InvalidLimit,
    InvalidCursor,
    ExpiredCursor,
    InvalidSecret,
    Serialization,
}

#[derive(Debug, Clone, PartialEq, Eq)]
pub struct PageRequest {
    pub limit: usize,
    pub cursor: Option<String>,
}

pub const DEFAULT_MIN_LIMIT: usize = 1;

pub const DEFAULT_MAX_LIMIT: usize = 100;

impl PageRequest {
    /// A first page of `limit` items, 1 to 100.
    pub fn new(limit: usize) -> (r: Result<PageRequest, PaginationError>)
        ensures
            !(1 <= limit <= 100) ==> r == Err::<PageRequest, _>(PaginationError::InvalidLimit),
            1 <= limit <= 100 ==> (r matches Ok(p) && p.limit == limit && p.cursor is None),
    {
        PageRequest::with_bounds(limit, DEFAULT_MIN_LIMIT, DEFAULT_MAX_LIMIT)
    }

    /// A first page of `limit` items, between `minimum` (positive) and `maximum`.
    pub fn with_bounds(limit: usize, minimum: usize, maximum: usize) -> (r: Result<
        PageRequest,
        PaginationError,
    >)
        ensures
            (minimum == 0 || minimum > maximum || limit < minimum || limit > maximum) ==> r == Err::<
                PageRequest,
                _,
            >(PaginationError::InvalidLimit),
            !(minimum == 0 || minimum > maximum || limit < minimum || limit > maximum) ==> (r matches Ok(
                p,
            ) && p.limit == limit && p.cursor is None),
    {
        if minimum == 0 || minimum > maximum || limit < minimum || limit > maximum {
            return Err(PaginationError::InvalidLimit);
        }
        Ok(PageRequest { limit, cursor: None })
    }

    /// The same request, continuing after `cursor`.
    pub fn cursor(self, cursor: &str) -> (r: PageRequest)
        ensures
            r.limit == self.limit,
            r.cursor matches Some(c) && c@ == cursor@,
    {
        PageRequest { cursor: Some(cursor.to_string()), ..self }
    }
}

#[derive(Debug, Clone, PartialEq, Eq)]
pub struct Page<T> {
    pub items: Vec<T>,
    pub next_cursor: Option<String>,
    pub has_more: bool,
    pub limit: usize,
}

impl<T> Page<T> {
    /// A page that has more exactly when it names a next cursor.
    pub fn new(items: Vec<T>, limit: usize, next_cursor: Option<String>) -> (p: Page<T>)
        ensures
            p.items@ == items@,
            p.limit == limit,
            p.next_cursor == next_cursor,
            p.has_more == (next_cursor is Some),
    {
        Page { has_more: next_cursor.is_some(), items, next_cursor, limit }
    }
}

/// The cursor for `payload` under `secret`.
pub open spec fn cursor_text(secret: Seq<u8>, payload: Seq<u8>) -> Seq<char> {
    let encoded = base64url_text(payload);
    encoded + seq!['.'] + base64url_text(hmac_sha256_tag(secret, vstd::utf8::encode_utf8(encoded)))
}

/// What `decode` answers for `cursor`: the payload whose cursor it is, if it is one.
pub open spec fn decode_spec(secret: Seq<u8>, cursor: Seq<char>) -> Result<Seq<u8>, PaginationError> {
    match first_index(cursor, '.') {
        None => Err(PaginationError::InvalidCursor),
        Some(k) => {
            let encoded = cursor.take(k);
            let sig = cursor.skip(k + 1);
            if sig != base64url_text(hmac_sha256_tag(secret, vstd::utf8::encode_utf8(encoded))) {
                Err(PaginationError::InvalidCursor)
            } else if exists|b: Seq<u8>| base64url_text(b) == encoded {
                Ok(choose|b: Seq<u8>| base64url_text(b) == encoded)
            } else {
                Err(PaginationError::InvalidCursor)
            }
        },
    }
}

/// When a payload made at `now` expires.
pub open spec fn expiry(now: u64, ttl: u64) -> u64 {
    if now + ttl > u64::MAX {
        u64::MAX
    } else {
        (now + ttl) as u64
    }
}

/// Signs and checks cursors with a secret.
#[derive(Debug, Clone)]
pub struct CursorCodec {
    secret: Vec<u8>,
    ttl_secs: u64,
}

proof fn lemma_first_dot(p: Seq<char>, q: Seq<char>)
    requires
        forall|i: int| 0 <= i < p.len() ==> p[i] != '.',
    ensures
        first_index(p + seq!['.'] + q, '.') == Some(p.len() as int),
    decreases p.len(),
{
    let t = p + seq!['.'] + q;
    if p.len() == 0 {
        assert(t[0] == '.');
    } else {
        assert(t.drop_first() =~= p.drop_first() + seq!['.'] + q);
        assert forall|i: int| 0 <= i < p.drop_first().len() implies p.drop_first()[i] != '.' by {
            assert(p.drop_first()[i] == p[i + 1]);
        }
        lemma_first_dot(p.drop_first(), q);
        assert(t[0] == p[0]);
    }
}

impl CursorCodec {
    pub closed spec fn secret(&self) -> Seq<u8> {
        self.secret@
    }

    pub closed spec fn ttl(&self) -> u64 {
        self.ttl_secs
    }

    /// A codec signing with `secret`, whose cursors live `ttl_secs` seconds.
    pub fn new(secret: Vec<u8>, ttl_secs: u64) -> (c: CursorCodec)
        ensures
            c.secret() == secret@,
            c.ttl() == ttl_secs,
    {
        CursorCodec { secret, ttl_secs }
    }

    /// When a cursor made at `now` (seconds since the epoch) expires.
    pub fn expires_at(&self, now: u64) -> (t: u64)
        ensures
            t == expiry(now, self.ttl()),
    {
        now.saturating_add(self.ttl_secs)
    }

    /// The signed cursor carrying `payload`.
    pub fn encode(&self, payload: &[u8]) -> (r: Result<String, PaginationError>)
        ensures
            r matches Ok(c) && c@ == cursor_text(self.secret(), payload@),
            r matches Ok(c) ==> decode_spec(self.secret(), c@) == Ok::<Seq<u8>, PaginationError>(
                payload@,
            ),
    {
        let encoded = base64url_encode(payload);
        let tag = match hmac_sha256(self.secret.as_slice(), encoded.as_str().as_bytes()) {
            Some(t) => t,
            None => {
                return Err(PaginationError::InvalidSecret);
            },
        };
        let sig = base64url_encode(tag.as_slice());
        let mut out = encoded.clone();
        push_str(&mut out, ".");
        push_str(&mut out, sig.as_str());
        proof {
            reveal_strlit(".");
            assert(out@ =~= cursor_text(self.secret(), payload@));
            lemma_cursor_roundtrip(self.secret(), payload@);
        }
        Ok(out)
    }

    /// The payload of a cursor this codec signed; any other text is refused.
    pub fn decode(&self, cursor: &str) -> (r: Result<Vec<u8>, PaginationError>)
        ensures
            match decode_spec(self.secret(), cursor@) {
                Ok(p) => r matches Ok(v) && v@ == p,
                Err(e) => r == Err::<Vec<u8>, _>(e),
            },
    {
        let v = chars_of(cursor);
        let k = match find_char(&v, '.') {
            None => {
                return Err(PaginationError::InvalidCursor);
            },
            Some(k) => k,
        };
        let encoded = substring(&v, 0, k);
        let sig = substring(&v, k + 1, v.len());
        assert(encoded@ =~= cursor@.take(k as int));
        assert(sig@ =~= cursor@.skip(k + 1));
        let ghost tag = hmac_sha256_tag(self.secret(), vstd::utf8::encode_utf8(encoded@));
        let provided = match base64url_decode(sig.as_str()) {
            None => {
                return Err(PaginationError::InvalidCursor);
            },
            Some(p) => p,
        };
        let ok = match hmac_sha256_verify(
            self.secret.as_slice(),
            encoded.as_str().as_bytes(),
            provided.as_slice(),
        ) {
            None => {
                return Err(PaginationError::InvalidSecret);
            },
            Some(b) => b,
        };
        if !ok {
            return Err(PaginationError::InvalidCursor);
        }
        let payload = match base64url_decode(encoded.as_str()) {
            None => {
                return Err(PaginationError::InvalidCursor);
            },
            Some(p) => p,
        };
        proof {
            let b = choose|b: Seq<u8>| base64url_text(b) == encoded@;
            assert(base64url_text(payload@) == encoded@);
        }
        Ok(payload)
    }

    /// Refuses a cursor whose expiry time has come.
    pub fn check_expiry(expires_at: u64, now: u64) -> (r: Result<(), PaginationError>)
        ensures
            now >= expires_at ==> r == Err::<(), _>(PaginationError::ExpiredCursor),
            now < expires_at ==> r is Ok,
    {
        if now >= expires_at {
            return Err(PaginationError::ExpiredCursor);
        }
        Ok(())
    }
}

/// A cursor gives back the payload it was made from, and only a cursor made with the
/// codec's secret for some payload decodes.
pub proof fn lemma_cursor_roundtrip(secret: Seq<u8>, payload: Seq<u8>)
    ensures
        decode_spec(secret, cursor_text(secret, payload)) == Ok::<Seq<u8>, PaginationError>(payload),
{
    lemma_base64url_text(payload, payload);
    assert forall|b: Seq<u8>| #[trigger] base64url_text(b) == base64url_text(payload) implies b == payload by {
        lemma_base64url_text(b, payload);
    }
    let encoded = base64url_text(payload);
    let sig = base64url_text(hmac_sha256_tag(secret, vstd::utf8::encode_utf8(encoded)));
    let c = cursor_text(secret, payload);
    assert forall|i: int| 0 <= i < encoded.len() implies encoded[i] != '.' by {
        assert(base64url_char(encoded[i]));
    }
    lemma_first_dot(encoded, sig);
    assert(c.take(encoded.len() as int) =~= encoded);
    assert(c.skip(encoded.len() as int + 1) =~= sig);
    assert(base64url_text(payload) == encoded);
}

} // verus!
