//! OAuth 2.0 / OpenID Connect authorization requests: PKCE, state and the authorization URL.
use vstd::prelude::*;
use crate::crypto::{base64url_encode, base64url_text, sha256, sha256_digest};
use crate::text::{join, push_char, push_str, str_contains_char, str_eq, views};

verus! {

#[derive(Debug, Clone, PartialEq, Eq)]
pub struct PkceChallenge {
    pub verifier: String,
    pub challenge: String,
    pub method: String,
}

#[derive(Debug, Clone, PartialEq, Eq)]
pub struct OAuthState {
    pub value: String,
    pub created_at: u64,
}

#[derive(Debug, Clone, PartialEq, Eq)]
pub struct OAuthProvider {
    pub authorization_endpoint: String,
    pub client_id: String,
    pub redirect_uri: String,
    pub scopes: Vec<String>,
}

#[derive(Debug, Clone, PartialEq, Eq)]
pub struct OAuthCallback {
    pub code: String,
    pub state: String,
}

#[derive(Debug, Clone, PartialEq)]
pub struct OAuthTokenResponse {
    pub access_token: String,
    pub token_type: String,
    pub expires_in: Option<u64>,
    pub refresh_token: Option<String>,
    pub scope: Option<String>,
    pub id_token: Option<String>,
}

#[derive(Debug, Clone, PartialEq)]
pub struct OidcUserInfo {
    pub sub: String,
    pub name: Option<String>,
    pub email: Option<String>,
    pub picture: Option<String>,
}

pub open spec fn lower_hex_char(c: char) -> bool {
    ('0' <= c && c <= '9') || ('a' <= c && c <= 'f')
}

/// A fresh random (version 4) UUID in its simple form, `Uuid::new_v4().simple()`: 32
/// lower-case hex digits. Which digits come out is chance.
#[verifier::external_body]
fn random_uuid_hex() -> (s: String)
    ensures
        s@.len() == 32,
        forall|i: int| 0 <= i < 32 ==> lower_hex_char(#[trigger] s@[i]),
{
    uuid::Uuid::new_v4().simple().to_string()
}

/// The current time in whole seconds since the Unix epoch (0 before it), from the system
/// clock; nothing is known of the value.
#[verifier::external_body]
fn now_unix() -> (t: u64) {
    std::time::SystemTime::now().duration_since(std::time::UNIX_EPOCH).unwrap_or_default().as_secs()
}

pub open spec fn upper_hex(d: nat) -> char {
    if d < 10 {
        (('0' as nat) + d) as char
    } else {
        (('A' as nat) + d - 10) as char
    }
}

pub open spec fn ascii_alphanumeric_byte(b: u8) -> bool {
    (0x30 <= b <= 0x39) || (0x41 <= b <= 0x5a) || (0x61 <= b <= 0x7a)
}

/// Every byte but the ASCII letters and digits written as `%` and two upper-case hex
/// digits: `utf8_percent_encode` with `NON_ALPHANUMERIC`.
pub open spec fn percent_text(bytes: Seq<u8>) -> Seq<char>
    decreases bytes.len(),
{
    if bytes.len() == 0 {
        Seq::empty()
    } else {
        let b = bytes.last();
        percent_text(bytes.drop_last()) + if ascii_alphanumeric_byte(b) {
            seq![b as char]
        } else {
            seq!['%', upper_hex((b / 16) as nat), upper_hex((b % 16) as nat)]
        }
    }
}

pub open spec fn encoded(s: Seq<char>) -> Seq<char> {
    percent_text(vstd::utf8::encode_utf8(s))
}

/// `percent_encoding::utf8_percent_encode(value, NON_ALPHANUMERIC)`, collected: the UTF-8
/// bytes of `value`, each one outside the ASCII letters and digits written as `%XX` with
/// upper-case hex digits.
#[verifier::external_body]
fn percent_encode(value: &str) -> (s: String)
    ensures
        s@ == encoded(value@),
{
    percent_encoding::utf8_percent_encode(value, percent_encoding::NON_ALPHANUMERIC).to_string()
}

impl PkceChallenge {
    /// A random verifier of 64 lower-case hex digits, and its `S256` challenge: the URL-safe
    /// base64 of the SHA-256 of the verifier.
    pub fn generate() -> (p: PkceChallenge)
        ensures
            p.verifier@.len() == 64,
            forall|i: int| 0 <= i < 64 ==> lower_hex_char(#[trigger] p.verifier@[i]),
            p.challenge@ == base64url_text(sha256_digest(vstd::utf8::encode_utf8(p.verifier@))),
            p.method@ == "S256"@,
    {
        let a = random_uuid_hex();
        let b = random_uuid_hex();
        let mut verifier = a.clone();
        push_str(&mut verifier, b.as_str());
        let digest = sha256(verifier.as_str().as_bytes());
        let challenge = base64url_encode(digest.as_slice());
        let method = "S256".to_string();
        proof {
            assert forall|i: int| 0 <= i < 64 implies lower_hex_char(#[trigger] verifier@[i]) by {
                if i < 32 {
                    assert(verifier@[i] == a@[i]);
                } else {
                    assert(verifier@[i] == b@[i - 32]);
                }
            }
        }
        PkceChallenge { verifier, challenge, method }
    }
}

impl OAuthState {
    /// A random state of 32 lower-case hex digits, created now.
    pub fn generate() -> (s: OAuthState)
        ensures
            s.value@.len() == 32,
            forall|i: int| 0 <= i < 32 ==> lower_hex_char(#[trigger] s.value@[i]),
    {
        OAuthState { value: random_uuid_hex(), created_at: now_unix() }
    }

    /// Whether, at `now`, the state was created at most `max_age_seconds` ago (and not in
    /// the future).
    pub fn is_fresh(&self, now: u64, max_age_seconds: u64) -> (r: bool)
        ensures
            r == (now >= self.created_at && now - self.created_at <= max_age_seconds),
    {
        now >= self.created_at && now - self.created_at <= max_age_seconds
    }
}

/// `key=value` with the value percent-encoded.
pub open spec fn param(key: Seq<char>, value: Seq<char>) -> Seq<char> {
    key + seq!['='] + encoded(value)
}

/// The authorization URL: the endpoint, `?` (or `&` when it has a query already), and the
/// code-flow parameters.
pub open spec fn authorization_url_text(
    endpoint: Seq<char>,
    client_id: Seq<char>,
    redirect_uri: Seq<char>,
    scopes: Seq<Seq<char>>,
    state: Seq<char>,
    challenge: Seq<char>,
    method: Seq<char>,
) -> Seq<char> {
    endpoint + seq![if endpoint.contains('?') { '&' } else { '?' }] + param("response_type"@, "code"@)
        + seq!['&'] + param("client_id"@, client_id) + seq!['&'] + param("redirect_uri"@, redirect_uri)
        + seq!['&'] + param("scope"@, join(scopes, seq![' '])) + seq!['&'] + param("state"@, state)
        + seq!['&'] + param("code_challenge"@, challenge) + seq!['&'] + param(
        "code_challenge_method"@,
        method,
    )
}

fn push_param(out: &mut String, first: bool, key: &str, value: &str)
    ensures
        final(out)@ == old(out)@ + (if first { Seq::empty() } else { seq!['&'] }) + param(key@, value@),
{
    if !first {
        push_char(out, '&');
    }
    push_str(out, key);
    push_char(out, '=');
    let v = percent_encode(value);
    push_str(out, v.as_str());
    proof {
        assert(out@ =~= old(out)@ + (if first { Seq::empty() } else { seq!['&'] }) + param(key@, value@));
    }
}

impl OAuthProvider {
    /// The URL that starts an authorization-code flow with PKCE for `state` and `pkce`.
    pub fn authorization_url(&self, state: &OAuthState, pkce: &PkceChallenge) -> (u: String)
        ensures
            u@ == authorization_url_text(
                self.authorization_endpoint@,
                self.client_id@,
                self.redirect_uri@,
                views(self.scopes@),
                state.value@,
                pkce.challenge@,
                pkce.method@,
            ),
    {
        let mut out = self.authorization_endpoint.clone();
        if str_contains_char(self.authorization_endpoint.as_str(), '?') {
            push_char(&mut out, '&');
        } else {
            push_char(&mut out, '?');
        }
        let scope = crate::text::join_strings(&self.scopes, " ");
        push_param(&mut out, true, "response_type", "code");
        push_param(&mut out, false, "client_id", self.client_id.as_str());
        push_param(&mut out, false, "redirect_uri", self.redirect_uri.as_str());
        push_param(&mut out, false, "scope", scope.as_str());
        push_param(&mut out, false, "state", state.value.as_str());
        push_param(&mut out, false, "code_challenge", pkce.challenge.as_str());
        push_param(&mut out, false, "code_challenge_method", pkce.method.as_str());
        proof {
            reveal_strlit(" ");
            assert(" "@ =~= seq![' ']);
            assert(out@ =~= authorization_url_text(
                self.authorization_endpoint@,
                self.client_id@,
                self.redirect_uri@,
                views(self.scopes@),
                state.value@,
                pkce.challenge@,
                pkce.method@,
            ));
        }
        out
    }
}

impl OAuthCallback {
    /// Whether the callback carries exactly the expected state.
    pub fn validate_state(&self, expected: &OAuthState) -> (r: bool)
        ensures
            r == (self.state@ == expected.value@),
    {
        str_eq(self.state.as_str(), expected.value.as_str())
    }
}

} // verus!
