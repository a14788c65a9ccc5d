//! Validated page metadata (search and social tags, structured data) rendered as HTML.
use vstd::prelude::*;
use crate::text::{
    opt_view,
    char_is_whitespace, chars_of, has_no_control_or_space, is_safe_text, is_whitespace,
    lemma_trim_start_skip, no_control_or_space, push_char, push_str, safe_text, starts_with,
    str_starts_with, trim_start,
};

verus! {

#[derive(Debug, Clone, Copy, PartialEq, Eq, Structural)]
pub enum MetadataError {
    InvalidValue,
}

#[derive(Debug, Clone, Default, PartialEq, Eq)]
pub struct Metadata {
    pub title: Option<String>,
    pub description: Option<String>,
    pub canonical: Option<String>,
    pub image: Option<String>,
    pub json_ld: Option<String>,
}

pub const MAX_VALUE_BYTES: usize = 4096;

/// Text: 1 to 4096 bytes without control characters.
pub open spec fn valid_text(v: Seq<char>) -> bool {
    safe_text(v, MAX_VALUE_BYTES as nat)
}

/// An `https://` URL without control or whitespace characters.
pub open spec fn valid_url(v: Seq<char>) -> bool {
    starts_with(v, seq!['h', 't', 't', 'p', 's', ':', '/', '/']) && no_control_or_space(v)
}

/// Text whose first character after leading whitespace is `{`.
pub open spec fn valid_json_object(v: Seq<char>) -> bool {
    valid_text(v) && trim_start(v).len() > 0 && trim_start(v)[0] == '{'
}

/// `&`, `<`, `>` and `"` written as entities.
pub open spec fn escape_html(s: Seq<char>) -> Seq<char>
    decreases s.len(),
{
    if s.len() == 0 {
        s
    } else {
        escape_html(s.drop_last()) + if s.last() == '&' {
            "&amp;"@
        } else if s.last() == '<' {
            "&lt;"@
        } else if s.last() == '>' {
            "&gt;"@
        } else if s.last() == '"' {
            "&quot;"@
        } else {
            seq![s.last()]
        }
    }
}


pub open spec fn title_tags(v: Seq<char>) -> Seq<char> {
    "<title>"@ + escape_html(v) + "</title><meta property=\"og:title\" content=\""@ + escape_html(v)
        + "\">"@
}

pub open spec fn description_tags(v: Seq<char>) -> Seq<char> {
    "<meta name=\"description\" content=\""@ + escape_html(v)
        + "\"><meta property=\"og:description\" content=\""@ + escape_html(v) + "\">"@
}

pub open spec fn canonical_tag(v: Seq<char>) -> Seq<char> {
    "<link rel=\"canonical\" href=\""@ + escape_html(v) + "\">"@
}

pub open spec fn image_tags(v: Seq<char>) -> Seq<char> {
    "<meta property=\"og:image\" content=\""@ + escape_html(v)
        + "\"><meta name=\"twitter:card\" content=\"summary_large_image\">"@
}

pub open spec fn json_ld_tag(v: Seq<char>) -> Seq<char> {
    "<script type=\"application/ld+json\">"@ + v + "</script>"@
}

pub open spec fn part(o: Option<Seq<char>>, f: spec_fn(Seq<char>) -> Seq<char>) -> Seq<char> {
    match o {
        Some(v) => f(v),
        None => Seq::empty(),
    }
}

/// The tags of the set fields, in a fixed order.
pub open spec fn metadata_html(m: Metadata) -> Seq<char> {
    part(opt_view(m.title), |v| title_tags(v)) + part(opt_view(m.description), |v| description_tags(v))
        + part(opt_view(m.canonical), |v| canonical_tag(v)) + part(opt_view(m.image), |v| image_tags(v))
        + part(opt_view(m.json_ld), |v| json_ld_tag(v))
}

fn push_html(out: &mut String, s: &str)
    ensures
        final(out)@ == old(out)@ + escape_html(s@),
{
    let v = chars_of(s);
    let mut i: usize = 0;
    proof {
        reveal_strlit("&amp;");
        reveal_strlit("&lt;");
        reveal_strlit("&gt;");
        reveal_strlit("&quot;");
    }
    while i < v.len()
        invariant
            v@ == s@,
            i <= v@.len(),
            out@ == old(out)@ + escape_html(s@.take(i as int)),
        decreases v@.len() - i,
    {
        proof {
            assert(s@.take(i + 1).drop_last() =~= s@.take(i as int));
            assert(s@.take(i + 1).last() == v@[i as int]);
        }
        let c = v[i];
        if c == '&' {
            push_str(out, "&amp;");
        } else if c == '<' {
            push_str(out, "&lt;");
        } else if c == '>' {
            push_str(out, "&gt;");
        } else if c == '"' {
            push_str(out, "&quot;");
        } else {
            push_char(out, c);
        }
        i = i + 1;
        assert(out@ =~= old(out)@ + escape_html(s@.take(i as int)));
    }
    assert(s@.take(v@.len() as int) =~= s@);
}

fn is_url(v: &str) -> (r: bool)
    ensures
        r == valid_url(v@),
{
    proof {
        reveal_strlit("https://");
        assert("https://"@ =~= seq!['h', 't', 't', 'p', 's', ':', '/', '/']);
    }
    str_starts_with(v, "https://") && has_no_control_or_space(v)
}

fn starts_object(v: &str) -> (r: bool)
    ensures
        r == (trim_start(v@).len() > 0 && trim_start(v@)[0] == '{'),
{
    let c = chars_of(v);
    let mut a: usize = 0;
    while a < c.len() && char_is_whitespace(c[a])
        invariant
            c@ == v@,
            a <= c.len(),
            forall|j: int| 0 <= j < a ==> is_whitespace(#[trigger] c@[j]),
        decreases c.len() - a,
    {
        a = a + 1;
    }
    proof {
        lemma_trim_start_skip(v@, a as int);
        let rest = v@.skip(a as int);
        if rest.len() > 0 {
            assert(rest[0] == c@[a as int]);
        }
        assert(trim_start(rest) == rest);
    }
    a < c.len() && c[a] == '{'
}

impl Metadata {
    pub fn new() -> (m: Metadata)
        ensures
            m == (Metadata { title: None, description: None, canonical: None, image: None, json_ld: None }),
    {
        Metadata { title: None, description: None, canonical: None, image: None, json_ld: None }
    }

    /// Sets the title: 1 to 4096 bytes without control characters.
    pub fn title(self, v: &str) -> (r: Result<Metadata, MetadataError>)
        ensures
            !valid_text(v@) ==> r == Err::<Metadata, _>(MetadataError::InvalidValue),
            valid_text(v@) ==> (r matches Ok(m) && opt_view(m.title) == Some(v@) && m.description
                == self.description && m.canonical == self.canonical && m.image == self.image
                && m.json_ld == self.json_ld),
    {
        if !is_safe_text(v, MAX_VALUE_BYTES) {
            return Err(MetadataError::InvalidValue);
        }
        Ok(Metadata { title: Some(v.to_string()), ..self })
    }

    /// Sets the description: 1 to 4096 bytes without control characters.
    pub fn description(self, v: &str) -> (r: Result<Metadata, MetadataError>)
        ensures
            !valid_text(v@) ==> r == Err::<Metadata, _>(MetadataError::InvalidValue),
            valid_text(v@) ==> (r matches Ok(m) && opt_view(m.description) == Some(v@) && m.title
                == self.title && m.canonical == self.canonical && m.image == self.image && m.json_ld
                == self.json_ld),
    {
        if !is_safe_text(v, MAX_VALUE_BYTES) {
            return Err(MetadataError::InvalidValue);
        }
        Ok(Metadata { description: Some(v.to_string()), ..self })
    }

    /// Sets the canonical URL, an `https://` URL.
    pub fn canonical(self, v: &str) -> (r: Result<Metadata, MetadataError>)
        ensures
            !valid_url(v@) ==> r == Err::<Metadata, _>(MetadataError::InvalidValue),
            valid_url(v@) ==> (r matches Ok(m) && opt_view(m.canonical) == Some(v@) && m.title
                == self.title && m.description == self.description && m.image == self.image
                && m.json_ld == self.json_ld),
    {
        if !is_url(v) {
            return Err(MetadataError::InvalidValue);
        }
        Ok(Metadata { canonical: Some(v.to_string()), ..self })
    }

    /// Sets the preview image URL, an `https://` URL.
    pub fn image(self, v: &str) -> (r: Result<Metadata, MetadataError>)
        ensures
            !valid_url(v@) ==> r == Err::<Metadata, _>(MetadataError::InvalidValue),
            valid_url(v@) ==> (r matches Ok(m) && opt_view(m.image) == Some(v@) && m.title
                == self.title && m.description == self.description && m.canonical == self.canonical
                && m.json_ld == self.json_ld),
    {
        if !is_url(v) {
            return Err(MetadataError::InvalidValue);
        }
        Ok(Metadata { image: Some(v.to_string()), ..self })
    }

    /// Sets the structured data: text that starts, after whitespace, with `{`.
    pub fn json_ld(self, v: &str) -> (r: Result<Metadata, MetadataError>)
        ensures
            !valid_json_object(v@) ==> r == Err::<Metadata, _>(MetadataError::InvalidValue),
            valid_json_object(v@) ==> (r matches Ok(m) && opt_view(m.json_ld) == Some(v@) && m.title
                == self.title && m.description == self.description && m.canonical == self.canonical
                && m.image == self.image),
    {
        if !is_safe_text(v, MAX_VALUE_BYTES) || !starts_object(v) {
            return Err(MetadataError::InvalidValue);
        }
        Ok(Metadata { json_ld: Some(v.to_string()), ..self })
    }

    /// The tags of the fields that are set: title, description, canonical link, image, then
    /// structured data, every value but the structured data escaped.
    pub fn render(&self) -> (s: String)
        ensures
            s@ == metadata_html(*self),
    {
        let mut s = String::new();
        proof {
            reveal_strlit("<title>");
            reveal_strlit("</title><meta property=\"og:title\" content=\"");
            reveal_strlit("\">");
            reveal_strlit("<meta name=\"description\" content=\"");
            reveal_strlit("\"><meta property=\"og:description\" content=\"");
            reveal_strlit("<link rel=\"canonical\" href=\"");
            reveal_strlit("<meta property=\"og:image\" content=\"");
            reveal_strlit("\"><meta name=\"twitter:card\" content=\"summary_large_image\">");
            reveal_strlit("<script type=\"application/ld+json\">");
            reveal_strlit("</script>");
        }
        let ghost s0 = s@;
        match &self.title {
            Some(v) => {
                push_str(&mut s, "<title>");
                push_html(&mut s, v.as_str());
                push_str(&mut s, "</title><meta property=\"og:title\" content=\"");
                push_html(&mut s, v.as_str());
                push_str(&mut s, "\">");
            },
            None => {},
        }
        let ghost s1 = s@;
        assert(s1 =~= part(opt_view(self.title), |v| title_tags(v)));
        match &self.description {
            Some(v) => {
                push_str(&mut s, "<meta name=\"description\" content=\"");
                push_html(&mut s, v.as_str());
                push_str(&mut s, "\"><meta property=\"og:description\" content=\"");
                push_html(&mut s, v.as_str());
                push_str(&mut s, "\">");
            },
            None => {},
        }
        let ghost s2 = s@;
        assert(s2 =~= s1 + part(opt_view(self.description), |v| description_tags(v)));
        match &self.canonical {
            Some(v) => {
                push_str(&mut s, "<link rel=\"canonical\" href=\"");
                push_html(&mut s, v.as_str());
                push_str(&mut s, "\">");
            },
            None => {},
        }
        let ghost s3 = s@;
        assert(s3 =~= s2 + part(opt_view(self.canonical), |v| canonical_tag(v)));
        match &self.image {
            Some(v) => {
                push_str(&mut s, "<meta property=\"og:image\" content=\"");
                push_html(&mut s, v.as_str());
                push_str(&mut s, "\"><meta name=\"twitter:card\" content=\"summary_large_image\">");
            },
            None => {},
        }
        let ghost s4 = s@;
        assert(s4 =~= s3 + part(opt_view(self.image), |v| image_tags(v)));
        match &self.json_ld {
            Some(v) => {
                push_str(&mut s, "<script type=\"application/ld+json\">");
                push_str(&mut s, v.as_str());
                push_str(&mut s, "</script>");
            },
            None => {},
        }
        assert(s@ =~= s4 + part(opt_view(self.json_ld), |v| json_ld_tag(v)));
        s
    }
}

} // verus!
