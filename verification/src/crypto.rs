//! Digests, message authentication and URL-safe base64, through the `sha2`, `hmac` and
//! `base64` crates.
use vstd::prelude::*;
use base64::engine::general_purpose::URL_SAFE_NO_PAD;
use base64::Engine;
use hmac::Mac;
use sha2::Digest;
use crate::text::{hex_lower, push_hex};

verus! {

/// The SHA-256 digest of `data`.
pub uninterp spec fn sha256_digest(data: Seq<u8>) -> Seq<u8>;

/// The HMAC key block (RFC 2104, block size 64 bytes for SHA-256): a key longer than the
/// block is replaced by its digest, and the key is then filled up to the block with zeros.
pub open spec fn hmac_key_block(key: Seq<u8>) -> Seq<u8> {
    let k = if key.len() > 64 {
        sha256_digest(key)
    } else {
        key
    };
    k + Seq::new((64 - k.len()) as nat, |i: int| 0u8)
}

/// Each byte of `k` XOR `pad`.
pub open spec fn xor_bytes(k: Seq<u8>, pad: u8) -> Seq<u8> {
    k.map_values(|b: u8| b ^ pad)
}

/// The HMAC-SHA-256 tag of `message` under `key` (RFC 2104):
/// `H((K ^ opad) || H((K ^ ipad) || message))` over the key block `K`.
#[verifier::opaque]
pub open spec fn hmac_sha256_tag(key: Seq<u8>, message: Seq<u8>) -> Seq<u8> {
    let k = hmac_key_block(key);
    sha256_digest(xor_bytes(k, 0x5c) + sha256_digest(xor_bytes(k, 0x36) + message))
}

/// The digit of the URL-safe base64 alphabet with value `v` (below 64).
pub open spec fn base64url_digit(v: nat) -> char {
    if v < 26 {
        (65 + v) as char
    } else if v < 52 {
        (97 + v - 26) as char
    } else if v < 62 {
        (48 + v - 52) as char
    } else if v == 62 {
        '-'
    } else {
        '_'
    }
}

/// The URL-safe, unpadded base64 text of `data` (RFC 4648, section 5): each three bytes give
/// four digits of six bits each, a final two bytes give three digits and a final byte two,
/// the unused low bits being zero.
#[verifier::opaque]
pub open spec fn base64url_text(data: Seq<u8>) -> Seq<char>
    decreases data.len(),
{
    if data.len() == 0 {
        seq![]
    } else if data.len() == 1 {
        seq![base64url_digit(data[0] as nat / 4), base64url_digit((data[0] as nat % 4) * 16)]
    } else if data.len() == 2 {
        seq![
            base64url_digit(data[0] as nat / 4),
            base64url_digit((data[0] as nat % 4) * 16 + data[1] as nat / 16),
            base64url_digit((data[1] as nat % 16) * 4),
        ]
    } else {
        seq![
            base64url_digit(data[0] as nat / 4),
            base64url_digit((data[0] as nat % 4) * 16 + data[1] as nat / 16),
            base64url_digit((data[1] as nat % 16) * 4 + data[2] as nat / 64),
            base64url_digit(data[2] as nat % 64),
        ] + base64url_text(data.skip(3))
    }
}

/// A character of the URL-safe base64 alphabet.
pub open spec fn base64url_char(c: char) -> bool {
    ('A' <= c && c <= 'Z') || ('a' <= c && c <= 'z') || ('0' <= c && c <= '9') || c == '-' || c
        == '_'
}

proof fn lemma_base64url_digit(u: nat, v: nat)
    requires
        u < 64,
        v < 64,
    ensures
        base64url_char(base64url_digit(u)),
        base64url_digit(u) == base64url_digit(v) ==> u == v,
{
}

/// The text of `data` has `4 * (n / 3)` digits for its whole groups of three bytes, and two
/// or three more for a last group of one or two.
pub proof fn lemma_base64url_len(data: Seq<u8>)
    ensures
        base64url_text(data).len() == 4 * (data.len() / 3) + if data.len() % 3 == 0 {
            0
        } else {
            data.len() % 3 + 1
        },
    decreases data.len(),
{
    reveal(base64url_text);
    if data.len() >= 3 {
        lemma_base64url_len(data.skip(3));
    }
}

/// Every character of the text is of the URL-safe alphabet, and no two byte strings have the
/// same text.
pub proof fn lemma_base64url_text(a: Seq<u8>, b: Seq<u8>)
    ensures
        forall|i: int| 0 <= i < base64url_text(a).len() ==> base64url_char(#[trigger] base64url_text(a)[i]),
        base64url_text(a) == base64url_text(b) ==> a == b,
    decreases a.len(),
{
    reveal(base64url_text);
    let ta = base64url_text(a);
    let tb = base64url_text(b);
    lemma_base64url_len(a);
    lemma_base64url_len(b);
    if a.len() >= 3 {
        lemma_base64url_text(a.skip(3), b.skip(3));
        lemma_base64url_digit(a[0] as nat / 4, 0);
        lemma_base64url_digit((a[0] as nat % 4) * 16 + a[1] as nat / 16, 0);
        lemma_base64url_digit((a[1] as nat % 16) * 4 + a[2] as nat / 64, 0);
        lemma_base64url_digit(a[2] as nat % 64, 0);
        let rest = base64url_text(a.skip(3));
        assert forall|i: int| 0 <= i < ta.len() implies base64url_char(#[trigger] ta[i]) by {
            if i >= 4 {
                assert(ta[i] == rest[i - 4]);
            }
        }
    } else if a.len() == 2 {
        lemma_base64url_digit(a[0] as nat / 4, 0);
        lemma_base64url_digit((a[0] as nat % 4) * 16 + a[1] as nat / 16, 0);
        lemma_base64url_digit((a[1] as nat % 16) * 4, 0);
    } else if a.len() == 1 {
        lemma_base64url_digit(a[0] as nat / 4, 0);
        lemma_base64url_digit((a[0] as nat % 4) * 16, 0);
    }
    if ta == tb {
        assert(a.len() == b.len()) by {
            if a.len() / 3 < b.len() / 3 {
                assert(4 * (a.len() / 3) + 4 <= 4 * (b.len() / 3));
            } else if a.len() / 3 > b.len() / 3 {
                assert(4 * (b.len() / 3) + 4 <= 4 * (a.len() / 3));
            }
        }
        if a.len() >= 3 {
            lemma_base64url_digit(a[0] as nat / 4, b[0] as nat / 4);
            lemma_base64url_digit((a[0] as nat % 4) * 16 + a[1] as nat / 16, (b[0] as nat % 4) * 16 + b[1] as nat / 16);
            lemma_base64url_digit((a[1] as nat % 16) * 4 + a[2] as nat / 64, (b[1] as nat % 16) * 4 + b[2] as nat / 64);
            lemma_base64url_digit(a[2] as nat % 64, b[2] as nat % 64);
            assert(ta[0] == tb[0] && ta[1] == tb[1] && ta[2] == tb[2] && ta[3] == tb[3]);
            assert(base64url_text(a.skip(3)) =~= ta.skip(4));
            assert(base64url_text(b.skip(3)) =~= tb.skip(4));
            assert(a[0] == b[0] && a[1] == b[1] && a[2] == b[2]);
            assert(a =~= b) by {
                assert forall|i: int| 0 <= i < a.len() implies a[i] == b[i] by {
                    if i >= 3 {
                        assert(a.skip(3)[i - 3] == b.skip(3)[i - 3]);
                    }
                }
            }
        } else if a.len() == 2 {
            lemma_base64url_digit(a[0] as nat / 4, b[0] as nat / 4);
            lemma_base64url_digit((a[0] as nat % 4) * 16 + a[1] as nat / 16, (b[0] as nat % 4) * 16 + b[1] as nat / 16);
            lemma_base64url_digit((a[1] as nat % 16) * 4, (b[1] as nat % 16) * 4);
            assert(ta[0] == tb[0] && ta[1] == tb[1] && ta[2] == tb[2]);
            assert(a =~= b);
        } else if a.len() == 1 {
            lemma_base64url_digit(a[0] as nat / 4, b[0] as nat / 4);
            lemma_base64url_digit((a[0] as nat % 4) * 16, (b[0] as nat % 4) * 16);
            assert(ta[0] == tb[0] && ta[1] == tb[1]);
            assert(a =~= b);
        } else {
            assert(a =~= b);
        }
    }
}

/// `sha2::Sha256::digest`: the 32-byte SHA-256 digest of `data`.
#[verifier::external_body]
pub(crate) fn sha256(data: &[u8]) -> (d: Vec<u8>)
    ensures
        d@ == sha256_digest(data@),
        d@.len() == 32,
{
    sha2::Sha256::digest(data).to_vec()
}

/// `hmac::Hmac::<Sha256>::new_from_slice`, `update` and `finalize`: the 32-byte tag of
/// `message` under `key`. `new_from_slice` accepts keys of every length for HMAC, so the
/// result is always `Some`.
#[verifier::external_body]
pub(crate) fn hmac_sha256(key: &[u8], message: &[u8]) -> (t: Option<Vec<u8>>)
    ensures
        t is Some,
        t matches Some(v) ==> v@ == hmac_sha256_tag(key@, message@) && v@.len() == 32,
{
    match hmac::Hmac::<sha2::Sha256>::new_from_slice(key) {
        Ok(mut mac) => {
            mac.update(message);
            Some(mac.finalize().into_bytes().to_vec())
        },
        Err(_) => None,
    }
}

/// `Mac::verify_slice` on the HMAC-SHA-256 of `message` under `key`: succeeds exactly when
/// `tag` has the tag's length (32) and equals it.
#[verifier::external_body]
pub(crate) fn hmac_sha256_verify(key: &[u8], message: &[u8], tag: &[u8]) -> (ok: Option<bool>)
    ensures
        ok is Some,
        ok matches Some(b) ==> b == (tag@ == hmac_sha256_tag(key@, message@)),
{
    match hmac::Hmac::<sha2::Sha256>::new_from_slice(key) {
        Ok(mut mac) => {
            mac.update(message);
            Some(mac.verify_slice(tag).is_ok())
        },
        Err(_) => None,
    }
}

/// `URL_SAFE_NO_PAD.encode`: the URL-safe base64 text of `data`, without padding.
#[verifier::external_body]
fn base64url_encode_raw(data: &[u8]) -> (s: String)
    ensures
        s@ == base64url_text(data@),
{
    URL_SAFE_NO_PAD.encode(data)
}

/// The URL-safe base64 text of `data`: it uses only the URL-safe alphabet, and no other byte
/// string has the same text.
pub(crate) fn base64url_encode(data: &[u8]) -> (s: String)
    ensures
        s@ == base64url_text(data@),
        forall|i: int| 0 <= i < s@.len() ==> base64url_char(#[trigger] s@[i]),
        forall|b: Seq<u8>| #[trigger] base64url_text(b) == s@ ==> b == data@,
{
    let s = base64url_encode_raw(data);
    proof {
        lemma_base64url_text(data@, data@);
        assert forall|b: Seq<u8>| #[trigger] base64url_text(b) == s@ implies b == data@ by {
            lemma_base64url_text(b, data@);
        }
    }
    s
}

/// `URL_SAFE_NO_PAD.decode`: it accepts exactly the canonical encodings, and gives back the
/// bytes they encode, the only bytes with that encoding.
#[verifier::external_body]
pub(crate) fn base64url_decode(text: &str) -> (r: Option<Vec<u8>>)
    ensures
        r matches Some(v) ==> base64url_text(v@) == text@,
        r matches Some(v) ==> forall|b: Seq<u8>| #[trigger] base64url_text(b) == text@ ==> b
            == v@,
        r is None ==> forall|b: Seq<u8>| base64url_text(b) != text@,
{
    match URL_SAFE_NO_PAD.decode(text) {
        Ok(v) => Some(v),
        Err(_) => None,
    }
}

/// `sha256:` followed by the lower-case hex of the SHA-256 digest of `data`.
pub open spec fn checksum_text(data: Seq<u8>) -> Seq<char> {
    seq!['s', 'h', 'a', '2', '5', '6', ':'] + hex_lower(sha256_digest(data))
}

/// `sha256:` and the lower-case hex SHA-256 digest of `data`.
pub fn sha256_checksum(data: &[u8]) -> (s: String)
    ensures
        s@ == checksum_text(data@),
{
    let d = sha256(data);
    let mut s = String::new();
    crate::text::push_char(&mut s, 's');
    crate::text::push_char(&mut s, 'h');
    crate::text::push_char(&mut s, 'a');
    crate::text::push_char(&mut s, '2');
    crate::text::push_char(&mut s, '5');
    crate::text::push_char(&mut s, '6');
    crate::text::push_char(&mut s, ':');
    push_hex(&mut s, d.as_slice());
    assert(s@ =~= checksum_text(data@));
    s
}

} // verus!
