//! Safe byte-range and conditional media delivery primitives.
use vstd::prelude::*;
use crate::crypto::{checksum_text, sha256_checksum};
use crate::media_project_templates::strictly_ordered;
use crate::text::{
    after_last_separator, after_last_separator_of, chars_of, decimal, find_char, first_index,
    is_ascii_digit, lemma_first_index_after, lemma_parse_decimal, lemma_seq_lt_order, lookup, lookup_value, lt_from, opt_view, owned, pair_views, parse_u64, parse_u64_spec, push_char, push_decimal,
    push_str, sanitize_filename, sanitized_filename, seq_lt, starts_with, str_contains_char, str_eq,
    str_starts_with, string_from_chars, substring, trim, trimmed,
};

verus! {

/// An inclusive span of byte offsets.
#[derive(Debug, Clone, Copy, PartialEq, Eq, Structural)]
pub struct ByteRange {
    pub start: u64,
    pub end: u64,
}

#[derive(Debug, Clone, Copy, PartialEq, Eq, Structural)]
pub enum RangeError {
    Invalid,
    Unsatisfiable,
}

pub open spec fn bytes_unit() -> Seq<char> {
    seq!['b', 'y', 't', 'e', 's', '=']
}

/// The first and last offset a `Range` header names, before they are checked against the body.
pub open spec fn range_bounds(h: Seq<char>, length: u64) -> Result<(u64, u64), RangeError> {
    if length == 0 || !starts_with(h, bytes_unit()) || h.contains(',') {
        Err(RangeError::Invalid)
    } else {
        let v = h.skip(6);
        match first_index(v, '-') {
            None => Err(RangeError::Invalid),
            Some(k) => {
                let a = v.take(k);
                let b = v.skip(k + 1);
                if a.len() == 0 {
                    match parse_u64_spec(b) {
                        None => Err(RangeError::Invalid),
                        Some(suffix) => if suffix == 0 {
                            Err(RangeError::Unsatisfiable)
                        } else {
                            Ok(
                                (
                                    if length >= suffix {
                                        (length - suffix) as u64
                                    } else {
                                        0u64
                                    },
                                    (length - 1) as u64,
                                ),
                            )
                        },
                    }
                } else {
                    match parse_u64_spec(a) {
                        None => Err(RangeError::Invalid),
                        Some(start) => if b.len() == 0 {
                            Ok((start, (length - 1) as u64))
                        } else {
                            match parse_u64_spec(b) {
                                None => Err(RangeError::Invalid),
                                Some(end) => Ok(
                                    (
                                        start,
                                        if end < length - 1 {
                                            end
                                        } else {
                                            (length - 1) as u64
                                        },
                                    ),
                                ),
                            }
                        },
                    }
                }
            },
        }
    }
}

/// The range a `Range` header selects from a body of `length` bytes.
pub open spec fn parse_range(h: Seq<char>, length: u64) -> Result<ByteRange, RangeError> {
    match range_bounds(h, length) {
        Err(e) => Err(e),
        Ok((start, end)) => if start >= length || start > end {
            Err(RangeError::Unsatisfiable)
        } else {
            Ok(ByteRange { start, end })
        },
    }
}

/// A closed range `bytes=start-end` with `start <= end` inside a body of `length` bytes
/// selects exactly the offsets `start` through `end`; a single byte (`start == end`) is a
/// satisfiable range.
pub proof fn lemma_closed_range_selects(start: u64, end: u64, length: u64)
    requires
        start <= end < length,
    ensures
        parse_range(bytes_unit() + decimal(start as nat) + seq!['-'] + decimal(end as nat), length) == Ok::<
            ByteRange,
            RangeError,
        >(ByteRange { start, end }),
{
    let ds = decimal(start as nat);
    let de = decimal(end as nat);
    lemma_parse_decimal(start as nat);
    lemma_parse_decimal(end as nat);
    let h = bytes_unit() + ds + seq!['-'] + de;
    assert(h.take(6) =~= bytes_unit());
    assert(starts_with(h, bytes_unit()));
    assert(!h.contains(',')) by {
        if h.contains(',') {
            let i = choose|i: int| 0 <= i < h.len() && h[i] == ',';
            if i >= 6 && i < 6 + ds.len() {
                assert(h[i] == ds[i - 6]);
                assert(is_ascii_digit(ds[i - 6]));
            } else if i >= 7 + ds.len() {
                assert(h[i] == de[i - 7 - ds.len()]);
                assert(is_ascii_digit(de[i - 7 - ds.len()]));
            }
        }
    }
    let v = h.skip(6);
    assert(v =~= ds + (seq!['-'] + de));
    assert(!ds.contains('-')) by {
        if ds.contains('-') {
            let i = choose|i: int| 0 <= i < ds.len() && ds[i] == '-';
            assert(is_ascii_digit(ds[i]));
        }
    }
    lemma_first_index_after(ds, seq!['-'] + de, '-');
    assert(v.take(ds.len() as int) =~= ds);
    assert(v.skip(ds.len() as int + 1) =~= de);
}

/// An open range `bytes=start-` selects from `start` to the last byte when `start` lies in
/// the body, and is unsatisfiable when it does not.
pub proof fn lemma_open_range_selects(start: u64, length: u64)
    requires
        length > 0,
    ensures
        parse_range(bytes_unit() + decimal(start as nat) + seq!['-'], length) == if start < length {
            Ok::<ByteRange, RangeError>(ByteRange { start, end: (length - 1) as u64 })
        } else {
            Err(RangeError::Unsatisfiable)
        },
{
    let ds = decimal(start as nat);
    lemma_parse_decimal(start as nat);
    let h = bytes_unit() + ds + seq!['-'];
    assert(h.take(6) =~= bytes_unit());
    assert(!h.contains(',')) by {
        if h.contains(',') {
            let i = choose|i: int| 0 <= i < h.len() && h[i] == ',';
            if i >= 6 && i < 6 + ds.len() {
                assert(h[i] == ds[i - 6]);
                assert(is_ascii_digit(ds[i - 6]));
            }
        }
    }
    let v = h.skip(6);
    assert(v =~= ds + seq!['-']);
    assert(!ds.contains('-')) by {
        if ds.contains('-') {
            let i = choose|i: int| 0 <= i < ds.len() && ds[i] == '-';
            assert(is_ascii_digit(ds[i]));
        }
    }
    lemma_first_index_after(ds, seq!['-'], '-');
    assert(v.take(ds.len() as int) =~= ds);
    assert(v.skip(ds.len() as int + 1) =~= Seq::<char>::empty());
}

/// A closed range that starts past the body is unsatisfiable, whatever its end.
pub proof fn lemma_range_past_end_unsatisfiable(start: u64, end: u64, length: u64)
    requires
        length > 0,
        start >= length,
    ensures
        parse_range(bytes_unit() + decimal(start as nat) + seq!['-'] + decimal(end as nat), length) == Err::<
            ByteRange,
            RangeError,
        >(RangeError::Unsatisfiable),
{
    let ds = decimal(start as nat);
    let de = decimal(end as nat);
    lemma_parse_decimal(start as nat);
    lemma_parse_decimal(end as nat);
    let h = bytes_unit() + ds + seq!['-'] + de;
    assert(h.take(6) =~= bytes_unit());
    assert(!h.contains(',')) by {
        if h.contains(',') {
            let i = choose|i: int| 0 <= i < h.len() && h[i] == ',';
            if i >= 6 && i < 6 + ds.len() {
                assert(h[i] == ds[i - 6]);
                assert(is_ascii_digit(ds[i - 6]));
            } else if i >= 7 + ds.len() {
                assert(h[i] == de[i - 7 - ds.len()]);
                assert(is_ascii_digit(de[i - 7 - ds.len()]));
            }
        }
    }
    let v = h.skip(6);
    assert(v =~= ds + (seq!['-'] + de));
    assert(!ds.contains('-')) by {
        if ds.contains('-') {
            let i = choose|i: int| 0 <= i < ds.len() && ds[i] == '-';
            assert(is_ascii_digit(ds[i]));
        }
    }
    lemma_first_index_after(ds, seq!['-'] + de, '-');
    assert(v.take(ds.len() as int) =~= ds);
    assert(v.skip(ds.len() as int + 1) =~= de);
}

impl ByteRange {
    /// Parses a single `bytes=start-end`, `bytes=start-` or `bytes=-suffix` range.
    pub fn parse(header: &str, length: u64) -> (r: Result<ByteRange, RangeError>)
        ensures
            r == parse_range(header@, length),
    {
        proof {
            reveal_strlit("bytes=");
            assert("bytes="@ =~= bytes_unit());
        }
        if length == 0 || !str_starts_with(header, "bytes=") || str_contains_char(header, ',') {
            return Err(RangeError::Invalid);
        }
        let v = chars_of(header);
        let value = substring(&v, 6, v.len());
        let w = chars_of(value.as_str());
        assert(w@ =~= header@.skip(6));
        let k = match find_char(&w, '-') {
            None => {
                return Err(RangeError::Invalid);
            },
            Some(k) => k,
        };
        let a = substring(&w, 0, k);
        let b = substring(&w, k + 1, w.len());
        assert(a@ =~= w@.take(k as int));
        assert(b@ =~= w@.skip(k + 1));
        let (start, end) = if a.as_str().is_empty() {
            let suffix = match parse_u64(b.as_str()) {
                None => {
                    return Err(RangeError::Invalid);
                },
                Some(x) => x,
            };
            if suffix == 0 {
                return Err(RangeError::Unsatisfiable);
            }
            (if length >= suffix {
                length - suffix
            } else {
                0
            }, length - 1)
        } else {
            let start = match parse_u64(a.as_str()) {
                None => {
                    return Err(RangeError::Invalid);
                },
                Some(x) => x,
            };
            let end = if b.as_str().is_empty() {
                length - 1
            } else {
                match parse_u64(b.as_str()) {
                    None => {
                        return Err(RangeError::Invalid);
                    },
                    Some(e) => if e < length - 1 {
                        e
                    } else {
                        length - 1
                    },
                }
            };
            (start, end)
        };
        if start >= length || start > end {
            return Err(RangeError::Unsatisfiable);
        }
        Ok(ByteRange { start, end })
    }

    /// Number of bytes in the range.
    pub fn length(&self) -> (n: u64)
        requires
            self.start <= self.end < u64::MAX,
        ensures
            n == self.end - self.start + 1,
    {
        self.end - self.start + 1
    }
}

#[derive(Debug, Clone, PartialEq, Eq)]
pub struct MediaAsset {
    pub bytes: Vec<u8>,
    pub content_type: String,
    pub etag: String,
}

/// The entity tag of a body: its checksum in double quotes.
pub open spec fn etag_text(bytes: Seq<u8>) -> Seq<char> {
    seq!['"'] + checksum_text(bytes) + seq!['"']
}

impl MediaAsset {
    pub fn new(bytes: Vec<u8>, content_type: String) -> (a: MediaAsset)
        ensures
            a.bytes@ == bytes@,
            a.content_type@ == content_type@,
            a.etag@ == etag_text(bytes@),
    {
        let mut etag = String::new();
        push_char(&mut etag, '"');
        let sum = sha256_checksum(bytes.as_slice());
        push_str(&mut etag, sum.as_str());
        push_char(&mut etag, '"');
        assert(etag@ =~= etag_text(bytes@));
        MediaAsset { bytes, content_type, etag }
    }

    /// `sha256:` and the hex digest of the body.
    pub fn checksum_sha256(&self) -> (s: String)
        ensures
            s@ == checksum_text(self.bytes@),
    {
        sha256_checksum(self.bytes.as_slice())
    }
}

#[derive(Debug, Clone, PartialEq, Eq)]
pub struct MediaResponse {
    pub status: u16,
    pub headers: Vec<(String, String)>,
    pub body: Vec<u8>,
}

impl MediaResponse {
    /// The value of the header `name`.
    pub fn header(&self, name: &str) -> (r: Option<String>)
        ensures
            r matches Some(x) ==> lookup(pair_views(self.headers@), name@) == Some(x@),
            r is None ==> lookup(pair_views(self.headers@), name@) is None,
    {
        lookup_value(&self.headers, name)
    }
}

pub struct MediaDelivery;

/// The file name a download is offered under: the last path segment, with every character
/// outside `[A-Za-z0-9._-]` replaced by `_`, or `download.bin` when nothing is left.
pub open spec fn safe_filename(name: Seq<char>) -> Seq<char> {
    let f = sanitize_filename(after_last_separator(name));
    if f.len() == 0 {
        "download.bin"@
    } else {
        f
    }
}

pub open spec fn disposition(name: Seq<char>) -> Seq<char> {
    "attachment; filename=\""@ + safe_filename(name) + "\""@
}

/// One header, or none.
pub open spec fn optional_header(name: Seq<char>, value: Option<Seq<char>>) -> Seq<(Seq<char>, Seq<char>)> {
    match value {
        Some(v) => seq![(name, v)],
        None => seq![],
    }
}

/// The headers of an answer, in the order of their names, each name once: the byte-range
/// support, the download disposition (for a download name), the body length and the content
/// range (when the answer has them), the content type and the entity tag.
pub open spec fn header_list(
    content_type: Seq<char>,
    etag: Seq<char>,
    download_name: Option<Seq<char>>,
    length: Option<Seq<char>>,
    content_range: Option<Seq<char>>,
) -> Seq<(Seq<char>, Seq<char>)> {
    seq![("Accept-Ranges"@, "bytes"@)] + optional_header(
        "Content-Disposition"@,
        match download_name {
            Some(n) => Some(disposition(n)),
            None => None,
        },
    ) + optional_header("Content-Length"@, length) + optional_header("Content-Range"@, content_range)
        + seq![("Content-Type"@, content_type), ("ETag"@, etag)]
}

/// Status, headers and body answered for an asset.
pub open spec fn respond_spec(
    bytes: Seq<u8>,
    content_type: Seq<char>,
    etag: Seq<char>,
    range: Option<Seq<char>>,
    if_none_match: Option<Seq<char>>,
    download_name: Option<Seq<char>>,
) -> (u16, Seq<(Seq<char>, Seq<char>)>, Seq<u8>) {
    let full = (
        200u16,
        header_list(content_type, etag, download_name, Some(decimal(bytes.len())), None),
        bytes,
    );
    if if_none_match matches Some(v) && trim(v) == etag {
        (304u16, header_list(content_type, etag, download_name, None, None), seq![])
    } else {
        match range {
            None => full,
            Some(h) => match parse_range(h, bytes.len() as u64) {
                Ok(r) => (
                    206u16,
                    header_list(
                        content_type,
                        etag,
                        download_name,
                        Some(decimal((r.end - r.start + 1) as nat)),
                        Some(
                            "bytes "@ + decimal(r.start as nat) + "-"@ + decimal(r.end as nat) + "/"@
                                + decimal(bytes.len()),
                        ),
                    ),
                    bytes.subrange(r.start as int, r.end + 1),
                ),
                Err(RangeError::Unsatisfiable) => (
                    416u16,
                    header_list(content_type, etag, download_name, None, Some("bytes */"@ + decimal(bytes.len()))),
                    seq![],
                ),
                Err(RangeError::Invalid) => full,
            },
        }
    }
}

fn safe_filename_of(name: &str) -> (r: String)
    ensures
        r@ == safe_filename(name@),
{
    let v = chars_of(name);
    let last = after_last_separator_of(&v);
    let clean = sanitized_filename(&last);
    if clean.len() == 0 {
        owned("download.bin")
    } else {
        string_from_chars(&clean)
    }
}

fn pair(a: &str, b: String) -> (p: (String, String))
    ensures
        p.0@ == a@,
        p.1@ == b@,
{
    (owned(a), b)
}

/// The names of a header list.
pub open spec fn header_names(s: Seq<(Seq<char>, Seq<char>)>) -> Seq<Seq<char>> {
    s.map_values(|p: (Seq<char>, Seq<char>)| p.0)
}

proof fn lemma_push_name(s: Seq<(Seq<char>, Seq<char>)>, p: (Seq<char>, Seq<char>))
    requires
        strictly_ordered(header_names(s)),
        s.len() > 0,
        seq_lt(s.last().0, p.0),
    ensures
        strictly_ordered(header_names(s.push(p))),
{
    let n = header_names(s);
    let m = header_names(s.push(p));
    assert(m =~= n.push(p.0));
    assert(n[n.len() - 1] == s.last().0);
    assert forall|i: int, j: int| 0 <= i < j < m.len() implies seq_lt(#[trigger] m[i], #[trigger] m[j]) by {
        if j == n.len() && i < n.len() - 1 {
            lemma_seq_lt_order(n[i], n[n.len() - 1], p.0);
        }
    }
}

proof fn lemma_header_name_order()
    ensures
        seq_lt("Accept-Ranges"@, "Content-Disposition"@),
        seq_lt("Accept-Ranges"@, "Content-Length"@),
        seq_lt("Accept-Ranges"@, "Content-Range"@),
        seq_lt("Accept-Ranges"@, "Content-Type"@),
        seq_lt("Content-Disposition"@, "Content-Length"@),
        seq_lt("Content-Disposition"@, "Content-Range"@),
        seq_lt("Content-Disposition"@, "Content-Type"@),
        seq_lt("Content-Length"@, "Content-Range"@),
        seq_lt("Content-Length"@, "Content-Type"@),
        seq_lt("Content-Range"@, "Content-Type"@),
        seq_lt("Content-Type"@, "ETag"@),
{
    reveal_strlit("Accept-Ranges");
    reveal_strlit("Content-Disposition");
    reveal_strlit("Content-Length");
    reveal_strlit("Content-Range");
    reveal_strlit("Content-Type");
    reveal_strlit("ETag");
    reveal_with_fuel(lt_from, 10);
    let a = "Accept-Ranges"@;
    let d = "Content-Disposition"@;
    let l = "Content-Length"@;
    let r = "Content-Range"@;
    let t = "Content-Type"@;
    assert(seq_lt(a, d));
    assert(seq_lt(d, l));
    assert(seq_lt(l, r));
    assert(seq_lt(r, t));
    assert(seq_lt(t, "ETag"@));
    lemma_seq_lt_order(a, d, l);
    lemma_seq_lt_order(a, l, r);
    lemma_seq_lt_order(a, r, t);
    lemma_seq_lt_order(d, l, r);
    lemma_seq_lt_order(d, r, t);
    lemma_seq_lt_order(l, r, t);
}

/// Every header list of an answer names its headers in ascending order, each name once.
proof fn lemma_header_list_ordered(
    content_type: Seq<char>,
    etag: Seq<char>,
    download_name: Option<Seq<char>>,
    length: Option<Seq<char>>,
    content_range: Option<Seq<char>>,
)
    ensures
        strictly_ordered(header_names(header_list(content_type, etag, download_name, length, content_range))),
{
    lemma_header_name_order();
    let d = match download_name {
        Some(n) => Some(disposition(n)),
        None => None,
    };
    let s0 = seq![("Accept-Ranges"@, "bytes"@)];
    assert(header_names(s0) =~= seq!["Accept-Ranges"@]);
    let s1 = s0 + optional_header("Content-Disposition"@, d);
    if d is Some {
        assert(s1 =~= s0.push(("Content-Disposition"@, d->0)));
        lemma_push_name(s0, ("Content-Disposition"@, d->0));
    } else {
        assert(s1 =~= s0);
    }
    assert(s1.len() > 0 && (s1.last().0 == "Accept-Ranges"@ || s1.last().0 == "Content-Disposition"@));
    let s2 = s1 + optional_header("Content-Length"@, length);
    if length is Some {
        assert(s2 =~= s1.push(("Content-Length"@, length->0)));
        lemma_push_name(s1, ("Content-Length"@, length->0));
    } else {
        assert(s2 =~= s1);
    }
    assert(s2.len() > 0 && (s2.last().0 == "Accept-Ranges"@ || s2.last().0 == "Content-Disposition"@
        || s2.last().0 == "Content-Length"@));
    let s3 = s2 + optional_header("Content-Range"@, content_range);
    if content_range is Some {
        assert(s3 =~= s2.push(("Content-Range"@, content_range->0)));
        lemma_push_name(s2, ("Content-Range"@, content_range->0));
    } else {
        assert(s3 =~= s2);
    }
    assert(s3.len() > 0 && (s3.last().0 == "Accept-Ranges"@ || s3.last().0 == "Content-Disposition"@
        || s3.last().0 == "Content-Length"@ || s3.last().0 == "Content-Range"@));
    let s4 = s3.push(("Content-Type"@, content_type));
    lemma_push_name(s3, ("Content-Type"@, content_type));
    let s5 = s4.push(("ETag"@, etag));
    lemma_push_name(s4, ("ETag"@, etag));
    assert(s5 =~= header_list(content_type, etag, download_name, length, content_range));
}

fn disposition_of(download_name: Option<&str>) -> (r: Option<String>)
    ensures
        opt_view(r) == match download_name {
            Some(n) => Some(disposition(n@)),
            None => None,
        },
{
    match download_name {
        Some(name) => {
            let mut value = owned("attachment; filename=\"");
            let f = safe_filename_of(name);
            push_str(&mut value, f.as_str());
            push_str(&mut value, "\"");
            Some(value)
        },
        None => None,
    }
}

fn push_optional(headers: &mut Vec<(String, String)>, name: &str, value: Option<String>)
    ensures
        pair_views(final(headers)@) == pair_views(old(headers)@) + optional_header(name@, opt_view(value)),
{
    let ghost h0 = pair_views(headers@);
    match value {
        Some(v) => {
            headers.push(pair(name, v));
            assert(pair_views(headers@) =~= h0 + optional_header(name@, opt_view(value)));
        },
        None => {
            assert(pair_views(headers@) =~= h0 + optional_header(name@, opt_view(value)));
        },
    }
}

fn headers_of(asset: &MediaAsset, disposition: Option<String>, length: Option<String>, content_range: Option<
    String,
>) -> (h: Vec<(String, String)>)
    ensures
        pair_views(h@) == seq![("Accept-Ranges"@, "bytes"@)] + optional_header(
            "Content-Disposition"@,
            opt_view(disposition),
        ) + optional_header("Content-Length"@, opt_view(length)) + optional_header(
            "Content-Range"@,
            opt_view(content_range),
        ) + seq![("Content-Type"@, asset.content_type@), ("ETag"@, asset.etag@)],
{
    let mut headers: Vec<(String, String)> = Vec::new();
    headers.push(pair("Accept-Ranges", owned("bytes")));
    push_optional(&mut headers, "Content-Disposition", disposition);
    push_optional(&mut headers, "Content-Length", length);
    push_optional(&mut headers, "Content-Range", content_range);
    let ghost h0 = pair_views(headers@);
    headers.push(pair("Content-Type", asset.content_type.clone()));
    headers.push(pair("ETag", asset.etag.clone()));
    assert(pair_views(headers@) =~= h0 + seq![("Content-Type"@, asset.content_type@), ("ETag"@, asset.etag@)]);
    headers
}

fn partial_response(asset: &MediaAsset, disposition: Option<String>, rg: ByteRange) -> (r: MediaResponse)
    requires
        rg.start <= rg.end < asset.bytes@.len(),
        asset.bytes@.len() < u64::MAX,
    ensures
        r.status == 206,
        pair_views(r.headers@) == seq![("Accept-Ranges"@, "bytes"@)] + optional_header(
            "Content-Disposition"@,
            opt_view(disposition),
        ) + optional_header("Content-Length"@, Some(decimal((rg.end - rg.start + 1) as nat)))
            + optional_header(
            "Content-Range"@,
            Some(
                "bytes "@ + decimal(rg.start as nat) + "-"@ + decimal(rg.end as nat) + "/"@ + decimal(
                    asset.bytes@.len(),
                ),
            ),
        ) + seq![("Content-Type"@, asset.content_type@), ("ETag"@, asset.etag@)],
        r.body@ == asset.bytes@.subrange(rg.start as int, rg.end + 1),
{
    let len = asset.bytes.len() as u64;
    let mut count = String::new();
    push_decimal(&mut count, rg.length());
    let mut cr = owned("bytes ");
    push_decimal(&mut cr, rg.start);
    push_str(&mut cr, "-");
    push_decimal(&mut cr, rg.end);
    push_str(&mut cr, "/");
    push_decimal(&mut cr, len);
    let headers = headers_of(asset, disposition, Some(count), Some(cr));
    let mut body: Vec<u8> = Vec::new();
    let first = rg.start as usize;
    let stop = (rg.end as usize) + 1;
    let mut i: usize = first;
    while i < stop
        invariant
            stop <= asset.bytes@.len(),
            first <= i <= stop,
            body@ == asset.bytes@.subrange(first as int, i as int),
        decreases stop - i,
    {
        body.push(asset.bytes[i]);
        i = i + 1;
        assert(body@ =~= asset.bytes@.subrange(first as int, i as int));
    }
    MediaResponse { status: 206, headers, body }
}

fn unsatisfiable_response(asset: &MediaAsset, disposition: Option<String>) -> (r: MediaResponse)
    requires
        asset.bytes@.len() < u64::MAX,
    ensures
        r.status == 416,
        pair_views(r.headers@) == seq![("Accept-Ranges"@, "bytes"@)] + optional_header(
            "Content-Disposition"@,
            opt_view(disposition),
        ) + optional_header("Content-Length"@, None) + optional_header(
            "Content-Range"@,
            Some("bytes */"@ + decimal(asset.bytes@.len())),
        ) + seq![("Content-Type"@, asset.content_type@), ("ETag"@, asset.etag@)],
        r.body@ == Seq::<u8>::empty(),
{
    let mut cr = owned("bytes */");
    push_decimal(&mut cr, asset.bytes.len() as u64);
    let headers = headers_of(asset, disposition, None, Some(cr));
    MediaResponse { status: 416, headers, body: Vec::new() }
}

fn full_response(asset: &MediaAsset, disposition: Option<String>) -> (r: MediaResponse)
    requires
        asset.bytes@.len() < u64::MAX,
    ensures
        r.status == 200,
        pair_views(r.headers@) == seq![("Accept-Ranges"@, "bytes"@)] + optional_header(
            "Content-Disposition"@,
            opt_view(disposition),
        ) + optional_header("Content-Length"@, Some(decimal(asset.bytes@.len()))) + optional_header(
            "Content-Range"@,
            None,
        ) + seq![("Content-Type"@, asset.content_type@), ("ETag"@, asset.etag@)],
        r.body@ == asset.bytes@,
{
    let mut count = String::new();
    push_decimal(&mut count, asset.bytes.len() as u64);
    let headers = headers_of(asset, disposition, Some(count), None);
    MediaResponse { status: 200, headers, body: asset.bytes.clone() }
}

impl MediaDelivery {
    /// Answers a request for `asset`: 304 when `if_none_match` names its entity tag, 206 with
    /// the selected bytes for a satisfiable range, 416 for an unsatisfiable one, 200 otherwise.
    pub fn respond(
        asset: &MediaAsset,
        range: Option<&str>,
        if_none_match: Option<&str>,
        download_name: Option<&str>,
    ) -> (r: MediaResponse)
        requires
            asset.bytes@.len() < u64::MAX,
        ensures
            (r.status, pair_views(r.headers@), r.body@) == respond_spec(
                asset.bytes@,
                asset.content_type@,
                asset.etag@,
                match range {
                    Some(h) => Some(h@),
                    None => None,
                },
                match if_none_match {
                    Some(v) => Some(v@),
                    None => None,
                },
                match download_name {
                    Some(n) => Some(n@),
                    None => None,
                },
            ),
            strictly_ordered(header_names(pair_views(r.headers@))),
    {
        proof {
            let dn = match download_name {
                Some(n) => Some(n@),
                None => None,
            };
            assert forall|l: Option<Seq<char>>, c: Option<Seq<char>>|
                strictly_ordered(
                    header_names(#[trigger] header_list(asset.content_type@, asset.etag@, dn, l, c)),
                ) by {
                lemma_header_list_ordered(asset.content_type@, asset.etag@, dn, l, c);
            }
        }
        let disposition = disposition_of(download_name);
        let not_modified = match if_none_match {
            Some(v) => {
                let t = trimmed(v);
                str_eq(t.as_str(), asset.etag.as_str())
            },
            None => false,
        };
        if not_modified {
            let headers = headers_of(asset, disposition, None, None);
            return MediaResponse { status: 304, headers, body: Vec::new() };
        }
        if let Some(range_header) = range {
            match ByteRange::parse(range_header, asset.bytes.len() as u64) {
                Ok(rg) => {
                    return partial_response(asset, disposition, rg);
                },
                Err(RangeError::Unsatisfiable) => {
                    return unsatisfiable_response(asset, disposition);
                },
                Err(RangeError::Invalid) => {},
            }
        }
        full_response(asset, disposition)
    }
}

} // verus!
