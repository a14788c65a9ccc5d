//! Reading requests: the pairs of a query string or a URL-encoded form, and what the
//! content-type and `X-Requested-With` headers say.
use vstd::prelude::*;
use crate::privacy::{ascii_lower, to_ascii_lower};
use crate::text::{chars_of, contains_sub, contains_text, find_char, first_index, pair_views, split_on, split_str, str_eq, string_from_chars, substring, views};

verus! {

/// The text that `percent_encoding::percent_decode_str(s).decode_utf8_lossy()` gives.
pub uninterp spec fn percent_decoded(s: Seq<char>) -> Seq<char>;

/// `percent_decode_str(s).decode_utf8_lossy()`: every `%` followed by two hex digits
/// becomes that byte, and the bytes are read as UTF-8 with invalid sequences replaced. Text
/// without `%` comes back unchanged.
#[verifier::external_body]
fn percent_decode(s: &str) -> (r: String)
    ensures
        r@ == percent_decoded(s@),
        !s@.contains('%') ==> r@ == s@,
{
    percent_encoding::percent_decode_str(s).decode_utf8_lossy().into_owned()
}

/// The text that `String::from_utf8_lossy(bytes)` gives.
pub uninterp spec fn utf8_lossy(bytes: Seq<u8>) -> Seq<char>;

/// `String::from_utf8_lossy`: the bytes read as UTF-8, invalid sequences replaced by U+FFFD.
#[verifier::external_body]
fn lossy_text(bytes: &[u8]) -> (r: String)
    ensures
        r@ == utf8_lossy(bytes@),
{
    String::from_utf8_lossy(bytes).into_owned()
}

/// `s` with every `+` read as a space.
pub open spec fn plus_as_space(s: Seq<char>) -> Seq<char> {
    s.map_values(|c: char| if c == '+' { ' ' } else { c })
}

/// A form component decoded: `+` as space, then percent-decoding.
pub open spec fn form_decoded(s: Seq<char>) -> Seq<char> {
    percent_decoded(plus_as_space(s))
}

/// The pairs of the `&`-separated pieces of a query string: each piece with a `=` gives its
/// percent-decoded name and value; other pieces give nothing.
pub open spec fn query_pairs_of(pieces: Seq<Seq<char>>) -> Seq<(Seq<char>, Seq<char>)>
    decreases pieces.len(),
{
    if pieces.len() == 0 {
        Seq::empty()
    } else {
        let p = pieces.last();
        let before = query_pairs_of(pieces.drop_last());
        match first_index(p, '=') {
            Some(k) => before.push((percent_decoded(p.take(k)), percent_decoded(p.skip(k + 1)))),
            None => before,
        }
    }
}

/// The pairs of the `&`-separated pieces of a form body: empty pieces give nothing; the
/// rest give their form-decoded name and the value after the first `=` (empty without one).
pub open spec fn form_pairs_of(pieces: Seq<Seq<char>>) -> Seq<(Seq<char>, Seq<char>)>
    decreases pieces.len(),
{
    if pieces.len() == 0 {
        Seq::empty()
    } else {
        let p = pieces.last();
        let before = form_pairs_of(pieces.drop_last());
        if p.len() == 0 {
            before
        } else {
            match first_index(p, '=') {
                Some(k) => before.push((form_decoded(p.take(k)), form_decoded(p.skip(k + 1)))),
                None => before.push((form_decoded(p), form_decoded(Seq::empty()))),
            }
        }
    }
}

fn plus_to_space(s: &str) -> (r: String)
    ensures
        r@ == plus_as_space(s@),
{
    let v = chars_of(s);
    let mut out: Vec<char> = Vec::new();
    let mut i: usize = 0;
    while i < v.len()
        invariant
            v@ == s@,
            i <= v.len(),
            out@ == plus_as_space(s@.take(i as int)),
        decreases v.len() - i,
    {
        out.push(if v[i] == '+' { ' ' } else { v[i] });
        i = i + 1;
        assert(out@ =~= plus_as_space(s@.take(i as int)));
    }
    assert(s@.take(i as int) =~= s@);
    string_from_chars(&out)
}

fn form_decode(s: &str) -> (r: String)
    ensures
        r@ == form_decoded(s@),
{
    let spaced = plus_to_space(s);
    percent_decode(spaced.as_str())
}

/// The name/value pairs of a query string, in order; a map of them keeps the last value of
/// each name.
pub fn query_pairs(query: &str) -> (r: Vec<(String, String)>)
    ensures
        pair_views(r@) == query_pairs_of(split_on(query@, '&')),
{
    let pieces = split_str(query, '&');
    let ghost ps = split_on(query@, '&');
    let mut out: Vec<(String, String)> = Vec::new();
    let mut i: usize = 0;
    assert(ps.take(0) =~= Seq::<Seq<char>>::empty());
    assert(pair_views(out@) =~= Seq::<(Seq<char>, Seq<char>)>::empty());
    while i < pieces.len()
        invariant
            views(pieces@) == ps,
            i <= pieces.len(),
            pair_views(out@) == query_pairs_of(ps.take(i as int)),
        decreases pieces.len() - i,
    {
        let v = chars_of(pieces[i].as_str());
        assert(ps.take(i + 1).drop_last() =~= ps.take(i as int));
        assert(ps.take(i + 1).last() == pieces@[i as int]@);
        match find_char(&v, '=') {
            Some(k) => {
                let name = substring(&v, 0, k);
                let value = substring(&v, k + 1, v.len());
                assert(name@ =~= v@.take(k as int));
                assert(value@ =~= v@.skip(k + 1));
                let ghost before = out@;
                out.push((percent_decode(name.as_str()), percent_decode(value.as_str())));
                assert(pair_views(out@) =~= pair_views(before).push(
                    (percent_decoded(v@.take(k as int)), percent_decoded(v@.skip(k + 1))),
                ));
            },
            None => {},
        }
        i = i + 1;
    }
    assert(ps.take(i as int) =~= ps);
    out
}

/// The text of a request body as a form reads it.
pub open spec fn form_text(body: Seq<u8>) -> Seq<char> {
    utf8_lossy(body)
}

/// The name/value pairs of a URL-encoded form body, in order; a map of them keeps the last
/// value of each name.
pub fn form_pairs(body: &[u8]) -> (r: Vec<(String, String)>)
    ensures
        pair_views(r@) == form_pairs_of(split_on(form_text(body@), '&')),
{
    let raw = lossy_text(body);
    let pieces = split_str(raw.as_str(), '&');
    let ghost ps = split_on(raw@, '&');
    let mut out: Vec<(String, String)> = Vec::new();
    let mut i: usize = 0;
    assert(ps.take(0) =~= Seq::<Seq<char>>::empty());
    assert(pair_views(out@) =~= Seq::<(Seq<char>, Seq<char>)>::empty());
    while i < pieces.len()
        invariant
            views(pieces@) == ps,
            i <= pieces.len(),
            pair_views(out@) == form_pairs_of(ps.take(i as int)),
        decreases pieces.len() - i,
    {
        let v = chars_of(pieces[i].as_str());
        assert(ps.take(i + 1).drop_last() =~= ps.take(i as int));
        assert(ps.take(i + 1).last() == pieces@[i as int]@);
        if v.len() > 0 {
            let ghost before = out@;
            match find_char(&v, '=') {
                Some(k) => {
                    let name = substring(&v, 0, k);
                    let value = substring(&v, k + 1, v.len());
                    assert(name@ =~= v@.take(k as int));
                    assert(value@ =~= v@.skip(k + 1));
                    out.push((form_decode(name.as_str()), form_decode(value.as_str())));
                    assert(pair_views(out@) =~= pair_views(before).push(
                        (form_decoded(v@.take(k as int)), form_decoded(v@.skip(k + 1))),
                    ));
                },
                None => {
                    let empty = String::new();
                    out.push((form_decode(pieces[i].as_str()), form_decode(empty.as_str())));
                    assert(pair_views(out@) =~= pair_views(before).push(
                        (form_decoded(v@), form_decoded(Seq::empty())),
                    ));
                },
            }
        }
        i = i + 1;
    }
    assert(ps.take(i as int) =~= ps);
    out
}

/// Whether a request with this `Content-Type` carries JSON.
pub fn is_json(content_type: Option<&str>) -> (r: bool)
    ensures
        r == (content_type matches Some(ct) && contains_sub(ct@, "application/json"@)),
{
    match content_type {
        Some(ct) => contains_text(ct, "application/json"),
        None => false,
    }
}

/// Whether a request with this `X-Requested-With` value was made by a script, whatever the
/// case of `XMLHttpRequest`.
pub fn is_ajax(requested_with: Option<&str>) -> (r: bool)
    ensures
        r == (requested_with matches Some(v) && ascii_lower(v@) == "xmlhttprequest"@),
{
    match requested_with {
        Some(v) => {
            let lower = to_ascii_lower(v);
            str_eq(lower.as_str(), "xmlhttprequest")
        },
        None => false,
    }
}

} // verus!
