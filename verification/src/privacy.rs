//! Redaction of sensitive fields in logs, exports and diagnostics, and a string type that
//! keeps its secret out of them.
use vstd::prelude::*;
use crate::json::{JsonNumber, JsonValue};
use crate::text::{chars_of, contains_sub, contains_text, owned, pair_views, string_from_chars, views};

verus! {

/// ASCII upper-case letters made lower case; every other character kept.
pub open spec fn lower_char(c: char) -> char {
    if 'A' <= c && c <= 'Z' {
        ((c as u32) + 32) as char
    } else {
        c
    }
}

/// `str::to_ascii_lowercase`.
pub open spec fn ascii_lower(s: Seq<char>) -> Seq<char> {
    s.map_values(|c: char| lower_char(c))
}

/// Whether a field named `name` is sensitive: its lower-cased name contains one of `fields`.
pub open spec fn sensitive_name(fields: Set<Seq<char>>, name: Seq<char>) -> bool {
    exists|f: Seq<char>| #[trigger] fields.contains(f) && contains_sub(ascii_lower(name), f)
}

/// The fields that every new policy treats as sensitive.
pub open spec fn default_fields() -> Seq<Seq<char>> {
    seq![
        "password"@,
        "secret"@,
        "token"@,
        "api_key"@,
        "apikey"@,
        "authorization"@,
        "cookie"@,
        "client_secret"@,
        "refresh_token"@,
        "access_token"@,
    ]
}

pub open spec fn same_number(a: JsonNumber, b: JsonNumber) -> bool {
    match (a, b) {
        (JsonNumber::PosInt(x), JsonNumber::PosInt(y)) => x == y,
        (JsonNumber::NegInt(x), JsonNumber::NegInt(y)) => x == y,
        (JsonNumber::Float(x), JsonNumber::Float(y)) => x@ == y@,
        _ => false,
    }
}

/// Whether `r` is `v` redacted: every member of an object whose name is sensitive is replaced
/// by the string `replacement`, everything else kept, at any depth.
pub open spec fn redacts(fields: Set<Seq<char>>, replacement: Seq<char>, v: JsonValue, r: JsonValue) -> bool
    decreases v,
{
    match v {
        JsonValue::Null => r is Null,
        JsonValue::Bool(b) => r == JsonValue::Bool(b),
        JsonValue::Number(n) => r matches JsonValue::Number(m) && same_number(n, m),
        JsonValue::Str(s) => r matches JsonValue::Str(t) && t@ == s@,
        JsonValue::Array(items) => match r {
            JsonValue::Array(out) => items@.len() == out@.len() && forall|i: int|
                0 <= i < items@.len() ==> redacts(fields, replacement, #[trigger] items@[i], out@[i]),
            _ => false,
        },
        JsonValue::Object(entries) => match r {
            JsonValue::Object(out) => entries@.len() == out@.len() && forall|i: int|
                0 <= i < entries@.len() ==> (#[trigger] out@[i]).0@ == entries@[i].0@ && if sensitive_name(
                    fields,
                    entries@[i].0@,
                ) {
                    out@[i].1 matches JsonValue::Str(t) && t@ == replacement
                } else {
                    redacts(fields, replacement, entries@[i].1, out@[i].1)
                },
            _ => false,
        },
    }
}

/// Which fields are sensitive, and what replaces their values.
#[derive(Debug, Clone, PartialEq, Eq)]
pub struct PrivacyPolicy {
    sensitive_fields: Vec<String>,
    replacement: String,
}

impl PrivacyPolicy {
    /// The sensitive field names, lower case.
    pub closed spec fn fields(&self) -> Set<Seq<char>> {
        views(self.sensitive_fields@).to_set()
    }

    pub closed spec fn replacement_text(&self) -> Seq<char> {
        self.replacement@
    }

    /// A policy over the usual credential fields, replacing values by `[REDACTED]`.
    pub fn new() -> (p: Self)
        ensures
            p.fields() == default_fields().to_set(),
            p.replacement_text() == "[REDACTED]"@,
    {
        let mut v: Vec<String> = Vec::new();
        v.push(owned("password"));
        v.push(owned("secret"));
        v.push(owned("token"));
        v.push(owned("api_key"));
        v.push(owned("apikey"));
        v.push(owned("authorization"));
        v.push(owned("cookie"));
        v.push(owned("client_secret"));
        v.push(owned("refresh_token"));
        v.push(owned("access_token"));
        let p = PrivacyPolicy { sensitive_fields: v, replacement: owned("[REDACTED]") };
        assert(views(p.sensitive_fields@) =~= default_fields());
        p
    }

    /// Also treats `field`, lower-cased, as sensitive.
    pub fn sensitive_field(self, field: &str) -> (p: Self)
        ensures
            p.fields() == self.fields().insert(ascii_lower(field@)),
            p.replacement_text() == self.replacement_text(),
    {
        let lowered = to_ascii_lower(field);
        let mut v = self.sensitive_fields;
        let ghost before = views(v@);
        v.push(lowered);
        assert(views(v@) =~= before.push(ascii_lower(field@)));
        proof {
            lemma_push_to_set(before, ascii_lower(field@));
        }
        PrivacyPolicy { sensitive_fields: v, replacement: self.replacement }
    }

    /// Replaces redacted values by `replacement`.
    pub fn replacement(self, replacement: &str) -> (p: Self)
        ensures
            p.fields() == self.fields(),
            p.replacement_text() == replacement@,
    {
        PrivacyPolicy { sensitive_fields: self.sensitive_fields, replacement: owned(replacement) }
    }

    /// Whether a field named `field` is sensitive under this policy.
    pub fn is_sensitive(&self, field: &str) -> (r: bool)
        ensures
            r == sensitive_name(self.fields(), field@),
    {
        let normalized = to_ascii_lower(field);
        let mut i: usize = 0;
        while i < self.sensitive_fields.len()
            invariant
                normalized@ == ascii_lower(field@),
                i <= self.sensitive_fields.len(),
                forall|j: int| 0 <= j < i ==> !contains_sub(normalized@, #[trigger] self.sensitive_fields@[j]@),
            decreases self.sensitive_fields.len() - i,
        {
            if contains_text(normalized.as_str(), self.sensitive_fields[i].as_str()) {
                proof {
                    let f = self.sensitive_fields@[i as int]@;
                    assert(views(self.sensitive_fields@)[i as int] == f);
                    assert(self.fields().contains(f));
                }
                return true;
            }
            i = i + 1;
        }
        proof {
            if sensitive_name(self.fields(), field@) {
                let f = choose|f: Seq<char>| #[trigger] self.fields().contains(f) && contains_sub(ascii_lower(field@), f);
                assert(views(self.sensitive_fields@).contains(f));
                let j = choose|j: int| 0 <= j < views(self.sensitive_fields@).len() && views(self.sensitive_fields@)[j] == f;
                assert(self.sensitive_fields@[j]@ == f);
            }
        }
        false
    }

    /// The entries with every sensitive value replaced, keys and order kept.
    pub fn redact_map(&self, values: &Vec<(String, String)>) -> (r: Vec<(String, String)>)
        ensures
            r@.len() == values@.len(),
            forall|i: int|
                0 <= i < values@.len() ==> (#[trigger] pair_views(r@)[i]) == (
                pair_views(values@)[i].0,
                if sensitive_name(self.fields(), pair_views(values@)[i].0) {
                    self.replacement_text()
                } else {
                    pair_views(values@)[i].1
                },
            ),
    {
        let mut out: Vec<(String, String)> = Vec::new();
        let mut i: usize = 0;
        while i < values.len()
            invariant
                i <= values.len(),
                out@.len() == i,
                forall|j: int|
                    0 <= j < i ==> (#[trigger] pair_views(out@)[j]) == (
                    pair_views(values@)[j].0,
                    if sensitive_name(self.fields(), pair_views(values@)[j].0) {
                        self.replacement_text()
                    } else {
                        pair_views(values@)[j].1
                    },
                ),
            decreases values.len() - i,
        {
            let key = values[i].0.clone();
            let value = if self.is_sensitive(values[i].0.as_str()) {
                self.replacement.clone()
            } else {
                values[i].1.clone()
            };
            let ghost before = out@;
            let ghost added = (key@, value@);
            out.push((key, value));
            assert(pair_views(out@) =~= pair_views(before).push(added));
            i = i + 1;
        }
        out
    }

    /// `value` with the value of every sensitive member replaced, at any depth.
    pub fn redact_json(&self, value: &JsonValue) -> (r: JsonValue)
        ensures
            redacts(self.fields(), self.replacement_text(), *value, r),
        decreases value,
    {
        match value {
            JsonValue::Object(entries) => {
                let mut out: Vec<(String, JsonValue)> = Vec::new();
                let mut i: usize = 0;
                while i < entries.len()
                    invariant
                        *value == JsonValue::Object(*entries),
                        i <= entries.len(),
                        out@.len() == i,
                        forall|j: int|
                            0 <= j < i ==> (#[trigger] out@[j]).0@ == entries@[j].0@ && if sensitive_name(
                                self.fields(),
                                entries@[j].0@,
                            ) {
                                out@[j].1 matches JsonValue::Str(t) && t@ == self.replacement_text()
                            } else {
                                redacts(self.fields(), self.replacement_text(), entries@[j].1, out@[j].1)
                            },
                    decreases entries.len() - i,
                {
                    let key = entries[i].0.clone();
                    let child = if self.is_sensitive(entries[i].0.as_str()) {
                        JsonValue::Str(self.replacement.clone())
                    } else {
                        assert(decreases_to!(*value => (*value)->Object_0));
                        assert(decreases_to!(*entries => entries@));
                        assert(decreases_to!(entries@ => entries@[i as int]));
                        assert(decreases_to!(entries@[i as int] => entries@[i as int].1));
                        assert(decreases_to!(*value => entries@[i as int].1));
                        self.redact_json(&entries[i].1)
                    };
                    out.push((key, child));
                    i = i + 1;
                }
                JsonValue::Object(out)
            },
            JsonValue::Array(items) => {
                let mut out: Vec<JsonValue> = Vec::new();
                let mut i: usize = 0;
                while i < items.len()
                    invariant
                        *value == JsonValue::Array(*items),
                        i <= items.len(),
                        out@.len() == i,
                        forall|j: int|
                            0 <= j < i ==> redacts(self.fields(), self.replacement_text(), #[trigger] items@[j], out@[j]),
                    decreases items.len() - i,
                {
                    assert(decreases_to!(*value => (*value)->Array_0));
                    assert(decreases_to!(*items => items@));
                    assert(decreases_to!(items@ => items@[i as int]));
                    assert(decreases_to!(*value => items@[i as int]));
                    let child = self.redact_json(&items[i]);
                    out.push(child);
                    i = i + 1;
                }
                JsonValue::Array(out)
            },
            JsonValue::Null => JsonValue::Null,
            JsonValue::Bool(b) => JsonValue::Bool(*b),
            JsonValue::Number(n) => JsonValue::Number(
                match n {
                    JsonNumber::PosInt(x) => JsonNumber::PosInt(*x),
                    JsonNumber::NegInt(x) => JsonNumber::NegInt(*x),
                    JsonNumber::Float(t) => JsonNumber::Float(t.clone()),
                },
            ),
            JsonValue::Str(s) => JsonValue::Str(s.clone()),
        }
    }
}

impl Default for PrivacyPolicy {
    fn default() -> (p: Self)
        ensures
            p.fields() == default_fields().to_set(),
            p.replacement_text() == "[REDACTED]"@,
    {
        PrivacyPolicy::new()
    }
}

proof fn lemma_push_to_set(s: Seq<Seq<char>>, x: Seq<char>)
    ensures
        s.push(x).to_set() == s.to_set().insert(x),
{
    assert(s.push(x).to_set() =~= s.to_set().insert(x)) by {
        assert forall|y: Seq<char>| s.push(x).to_set().contains(y) <==> s.to_set().insert(x).contains(y) by {
            if s.push(x).contains(y) {
                let k = choose|k: int| 0 <= k < s.push(x).len() && s.push(x)[k] == y;
                if k < s.len() {
                    assert(s[k] == y);
                }
            }
            if s.contains(y) {
                let k = choose|k: int| 0 <= k < s.len() && s[k] == y;
                assert(s.push(x)[k] == y);
            }
            if y == x {
                assert(s.push(x)[s.len() as int] == x);
            }
        }
    }
}

/// `s` with ASCII upper-case letters made lower case.
pub fn to_ascii_lower(s: &str) -> (r: String)
    ensures
        r@ == ascii_lower(s@),
{
    let v = chars_of(s);
    let mut out: Vec<char> = Vec::new();
    let mut i: usize = 0;
    while i < v.len()
        invariant
            v@ == s@,
            i <= v.len(),
            out@ == ascii_lower(s@.take(i as int)),
        decreases v.len() - i,
    {
        let c = v[i];
        let l = if 'A' <= c && c <= 'Z' {
            ((c as u32) + 32) as u8 as char
        } else {
            c
        };
        proof {
            if 'A' <= c && c <= 'Z' {
                assert(((c as u32) + 32) as u8 as char == ((c as u32) + 32) as char);
            }
        }
        out.push(l);
        i = i + 1;
        assert(out@ =~= ascii_lower(s@.take(i as int)));
    }
    assert(s@.take(i as int) =~= s@);
    string_from_chars(&out)
}

/// A string whose contents are shown only through [`SecretString::expose`].
#[derive(Clone, PartialEq, Eq)]
pub struct SecretString(String);

impl SecretString {
    pub closed spec fn secret(&self) -> Seq<char> {
        self.0@
    }

    pub fn new(value: &str) -> (s: Self)
        ensures
            s.secret() == value@,
    {
        SecretString(owned(value))
    }

    /// The secret itself.
    pub fn expose(&self) -> (r: &str)
        ensures
            r@ == self.secret(),
    {
        self.0.as_str()
    }

    pub fn is_empty(&self) -> (r: bool)
        ensures
            r == (self.secret().len() == 0),
    {
        chars_of(self.0.as_str()).len() == 0
    }

    /// What the secret shows when printed or serialized: `[REDACTED]`.
    pub fn redacted(&self) -> (r: String)
        ensures
            r@ == "[REDACTED]"@,
    {
        owned("[REDACTED]")
    }
}

} // verus!
