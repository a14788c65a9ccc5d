//! HTTP responses as handlers build them: a status, headers by name and a body of bytes,
//! with helpers for text, HTML, JSON text, redirects and cookies.
use vstd::prelude::*;
use crate::privacy::{ascii_lower, to_ascii_lower};
use crate::text::{chars_of, decimal, decimal_string, owned, pair_views, push_char, push_str, split_on, split_str, str_eq, views};

verus! {

/// A response: status code, headers (one value per name, in the order first set) and body.
#[derive(Debug, Clone, PartialEq, Eq)]
pub struct Response {
    status: u16,
    headers: Vec<(String, String)>,
    body: Vec<u8>,
}

pub open spec fn distinct_names(s: Seq<(Seq<char>, Seq<char>)>) -> bool {
    forall|i: int, j: int| 0 <= i < j < s.len() ==> (#[trigger] s[i]).0 != (#[trigger] s[j]).0
}

/// The value of header `name`.
pub open spec fn header_value(s: Seq<(Seq<char>, Seq<char>)>, name: Seq<char>) -> Option<Seq<char>> {
    if exists|i: int| 0 <= i < s.len() && (#[trigger] s[i]).0 == name {
        Some(s[choose|i: int| 0 <= i < s.len() && (#[trigger] s[i]).0 == name].1)
    } else {
        None
    }
}

/// The headers with `name` set to `value`: replaced where it is, added last otherwise.
pub open spec fn set_header(s: Seq<(Seq<char>, Seq<char>)>, name: Seq<char>, value: Seq<char>) -> Seq<
    (Seq<char>, Seq<char>),
> {
    if exists|i: int| 0 <= i < s.len() && (#[trigger] s[i]).0 == name {
        s.update(choose|i: int| 0 <= i < s.len() && (#[trigger] s[i]).0 == name, (name, value))
    } else {
        s.push((name, value))
    }
}

/// The headers after adding the cookie line `cookie`: `Set-Cookie` holds all cookie lines,
/// one per line.
pub open spec fn add_cookie(s: Seq<(Seq<char>, Seq<char>)>, cookie: Seq<char>) -> Seq<(Seq<char>, Seq<char>)> {
    match header_value(s, "Set-Cookie"@) {
        Some(existing) => set_header(
            s,
            "Set-Cookie"@,
            if existing.len() > 0 {
                existing + seq!['\n'] + cookie
            } else {
                cookie
            },
        ),
        None => set_header(s, "Set-Cookie"@, cookie),
    }
}

/// The headers after `Response::header(name, value)`: a `Set-Cookie` header, in any case,
/// adds a cookie line; any other replaces the header of exactly that name.
pub open spec fn with_header(s: Seq<(Seq<char>, Seq<char>)>, name: Seq<char>, value: Seq<char>) -> Seq<
    (Seq<char>, Seq<char>),
> {
    if ascii_lower(name) == "set-cookie"@ {
        add_cookie(s, value)
    } else {
        set_header(s, name, value)
    }
}

/// The headers of a body of `len` bytes of type `content_type`.
pub open spec fn with_content(s: Seq<(Seq<char>, Seq<char>)>, len: nat, content_type: Seq<char>) -> Seq<
    (Seq<char>, Seq<char>),
> {
    set_header(set_header(s, "Content-Length"@, decimal(len)), "Content-Type"@, content_type)
}

/// Reading a header just set gives its new value; the other headers stay as they were.
pub proof fn lemma_set_header_reads_back(s: Seq<(Seq<char>, Seq<char>)>, name: Seq<char>, value: Seq<char>)
    requires
        distinct_names(s),
    ensures
        distinct_names(set_header(s, name, value)),
        header_value(set_header(s, name, value), name) == Some(value),
        forall|other: Seq<char>| other != name ==> #[trigger] header_value(set_header(s, name, value), other)
            == header_value(s, other),
{
    let w = set_header(s, name, value);
    if exists|i: int| 0 <= i < s.len() && (#[trigger] s[i]).0 == name {
        let k = choose|i: int| 0 <= i < s.len() && (#[trigger] s[i]).0 == name;
        assert forall|a: int, b: int| 0 <= a < b < w.len() implies (#[trigger] w[a]).0 != (#[trigger] w[b]).0 by {
            assert(w[a].0 == s[a].0 && w[b].0 == s[b].0);
        }
        lemma_value_at(w, k);
        assert forall|other: Seq<char>| other != name implies #[trigger] header_value(w, other) == header_value(s, other) by {
            if exists|i: int| 0 <= i < s.len() && (#[trigger] s[i]).0 == other {
                let j = choose|i: int| 0 <= i < s.len() && (#[trigger] s[i]).0 == other;
                lemma_value_at(s, j);
                assert(w[j] == s[j]);
                lemma_value_at(w, j);
            } else {
                assert forall|i: int| 0 <= i < w.len() implies (#[trigger] w[i]).0 != other by {
                    assert(w[i].0 == s[i].0);
                }
            }
        }
    } else {
        assert forall|a: int, b: int| 0 <= a < b < w.len() implies (#[trigger] w[a]).0 != (#[trigger] w[b]).0 by {
            if b < s.len() {
                assert(w[a] == s[a] && w[b] == s[b]);
            } else {
                assert(w[a] == s[a]);
            }
        }
        lemma_value_at(w, s.len() as int);
        assert forall|other: Seq<char>| other != name implies #[trigger] header_value(w, other) == header_value(s, other) by {
            if exists|i: int| 0 <= i < s.len() && (#[trigger] s[i]).0 == other {
                let j = choose|i: int| 0 <= i < s.len() && (#[trigger] s[i]).0 == other;
                lemma_value_at(s, j);
                assert(w[j] == s[j]);
                lemma_value_at(w, j);
            } else {
                assert forall|i: int| 0 <= i < w.len() implies (#[trigger] w[i]).0 != other by {
                    if i < s.len() {
                        assert(w[i] == s[i]);
                    }
                }
            }
        }
    }
}

proof fn lemma_value_at(s: Seq<(Seq<char>, Seq<char>)>, i: int)
    requires
        distinct_names(s),
        0 <= i < s.len(),
    ensures
        header_value(s, s[i].0) == Some(s[i].1),
{
    let k = choose|k: int| 0 <= k < s.len() && (#[trigger] s[k]).0 == s[i].0;
    if k != i {
        assert(s[k].0 == s[i].0);
    }
}

impl Response {
    pub closed spec fn code(&self) -> u16 {
        self.status
    }

    pub closed spec fn body_view(&self) -> Seq<u8> {
        self.body@
    }

    /// The status code.
    pub fn status_code(&self) -> (r: u16)
        ensures
            r == self.code(),
    {
        self.status
    }

    /// The body.
    pub fn body_bytes(&self) -> (r: &Vec<u8>)
        ensures
            r@ == self.body_view(),
    {
        &self.body
    }

    /// The headers, in the order first set.
    pub closed spec fn header_list(&self) -> Seq<(Seq<char>, Seq<char>)> {
        pair_views(self.headers@)
    }

    pub closed spec fn wf(&self) -> bool {
        distinct_names(self.header_list())
    }

    /// The headers, in the order first set.
    pub fn headers(&self) -> (r: &Vec<(String, String)>)
        ensures
            pair_views(r@) == self.header_list(),
    {
        &self.headers
    }

    /// The value of header `name`.
    pub fn header_of(&self, name: &str) -> (r: Option<&str>)
        requires
            self.wf(),
        ensures
            match header_value(self.header_list(), name@) {
                Some(v) => r matches Some(x) && x@ == v,
                None => r is None,
            },
    {
        match self.index_of(name) {
            Some(i) => {
                proof {
                    lemma_value_at(self.header_list(), i as int);
                }
                Some(self.headers[i].1.as_str())
            },
            None => None,
        }
    }

    fn index_of(&self, name: &str) -> (r: Option<usize>)
        ensures
            r matches Some(i) ==> i < self.headers@.len() && self.header_list()[i as int].0 == name@,
            r is None ==> forall|i: int| 0 <= i < self.header_list().len() ==> (#[trigger] self.header_list()[i]).0
                != name@,
    {
        let mut i: usize = 0;
        while i < self.headers.len()
            invariant
                i <= self.headers.len(),
                forall|j: int| 0 <= j < i ==> (#[trigger] self.header_list()[j]).0 != name@,
            decreases self.headers.len() - i,
        {
            if str_eq(self.headers[i].0.as_str(), name) {
                return Some(i);
            }
            i = i + 1;
        }
        None
    }

    fn put(&mut self, name: &str, value: String)
        requires
            old(self).wf(),
        ensures
            final(self).wf(),
            final(self).header_list() == set_header(old(self).header_list(), name@, value@),
            final(self).code() == old(self).code(),
            final(self).body_view() == old(self).body_view(),
    {
        let ghost s = self.header_list();
        match self.index_of(name) {
            Some(i) => {
                proof {
                    let k = choose|k: int| 0 <= k < s.len() && (#[trigger] s[k]).0 == name@;
                    if k != i {
                        assert(s[k].0 == s[i as int].0);
                    }
                }
                let key = self.headers[i].0.clone();
                self.headers.set(i, (key, value));
                assert(self.header_list() =~= s.update(i as int, (name@, value@)));
            },
            None => {
                self.headers.push((owned(name), value));
                assert(self.header_list() =~= s.push((name@, value@)));
            },
        }
        proof {
            lemma_set_header_reads_back(s, name@, value@);
        }
    }

    /// `200 OK` without headers or body.
    pub fn new() -> (r: Self)
        ensures
            r.wf(),
            r.code() == 200,
            r.header_list().len() == 0,
            r.body_view().len() == 0,
    {
        let r = Response { status: 200, headers: Vec::new(), body: Vec::new() };
        assert(r.header_list() =~= Seq::<(Seq<char>, Seq<char>)>::empty());
        r
    }

    /// `204 No Content`.
    pub fn no_content() -> (r: Self)
        ensures
            r.wf(),
            r.code() == 204,
            r.header_list().len() == 0,
            r.body_view().len() == 0,
    {
        let r = Response { status: 204, headers: Vec::new(), body: Vec::new() };
        assert(r.header_list() =~= Seq::<(Seq<char>, Seq<char>)>::empty());
        r
    }

    pub fn status(self, status: u16) -> (r: Self)
        requires
            self.wf(),
        ensures
            r.wf(),
            r.code() == status,
            r.header_list() == self.header_list(),
            r.body_view() == self.body_view(),
    {
        Response { status, ..self }
    }

    /// Sets header `key`; a `Set-Cookie` header, in any case, adds a cookie line instead.
    pub fn header(self, key: &str, value: &str) -> (r: Self)
        requires
            self.wf(),
        ensures
            r.wf(),
            r.header_list() == with_header(self.header_list(), key@, value@),
            r.code() == self.code(),
            r.body_view() == self.body_view(),
    {
        let lower = to_ascii_lower(key);
        if str_eq(lower.as_str(), "set-cookie") {
            return self.set_cookie_raw(value);
        }
        let mut r = self;
        r.put(key, owned(value));
        r
    }

    fn content(self, body: &str, content_type: &str) -> (r: Self)
        requires
            self.wf(),
        ensures
            r.wf(),
            r.header_list() == with_content(self.header_list(), vstd::utf8::encode_utf8(body@).len(), content_type@),
            r.body_view() == vstd::utf8::encode_utf8(body@),
            r.code() == self.code(),
    {
        let mut r = self;
        let bytes = body.as_bytes();
        r.put("Content-Length", decimal_string(bytes.len() as u64));
        r.put("Content-Type", owned(content_type));
        r.body = vstd::slice::slice_to_vec(bytes);
        r
    }

    /// A plain-text body, with its length and type.
    pub fn text(self, text: &str) -> (r: Self)
        requires
            self.wf(),
        ensures
            r.wf(),
            r.header_list() == with_content(self.header_list(), vstd::utf8::encode_utf8(text@).len(), "text/plain"@),
            r.body_view() == vstd::utf8::encode_utf8(text@),
            r.code() == self.code(),
    {
        self.content(text, "text/plain")
    }

    /// An HTML body, with its length and type.
    pub fn html(self, html: &str) -> (r: Self)
        requires
            self.wf(),
        ensures
            r.wf(),
            r.header_list() == with_content(self.header_list(), vstd::utf8::encode_utf8(html@).len(), "text/html"@),
            r.body_view() == vstd::utf8::encode_utf8(html@),
            r.code() == self.code(),
    {
        self.content(html, "text/html")
    }

    /// A JSON body already serialized as `json`, with its length and type.
    pub fn json_text(self, json: &str) -> (r: Self)
        requires
            self.wf(),
        ensures
            r.wf(),
            r.header_list() == with_content(self.header_list(), vstd::utf8::encode_utf8(json@).len(), "application/json"@),
            r.body_view() == vstd::utf8::encode_utf8(json@),
            r.code() == self.code(),
    {
        self.content(json, "application/json")
    }

    /// Replaces the body.
    pub fn body(self, body: Vec<u8>) -> (r: Self)
        requires
            self.wf(),
        ensures
            r.wf(),
            r.body_view() == body@,
            r.header_list() == self.header_list(),
            r.code() == self.code(),
    {
        Response { body, ..self }
    }

    /// `302 Found` to `location`.
    pub fn redirect(self, location: &str) -> (r: Self)
        requires
            self.wf(),
        ensures
            r.wf(),
            r.code() == 302,
            r.header_list() == set_header(self.header_list(), "Location"@, location@),
            r.body_view() == self.body_view(),
    {
        let mut r = self;
        r.status = 302;
        r.put("Location", owned(location));
        r
    }

    /// `301 Moved Permanently` to `location`.
    pub fn redirect_permanent(self, location: &str) -> (r: Self)
        requires
            self.wf(),
        ensures
            r.wf(),
            r.code() == 301,
            r.header_list() == set_header(self.header_list(), "Location"@, location@),
            r.body_view() == self.body_view(),
    {
        let mut r = self;
        r.status = 301;
        r.put("Location", owned(location));
        r
    }

    /// Adds the cookie `name=value`, site-wide, hidden from scripts, sent on same-site and
    /// top-level requests.
    pub fn set_cookie(self, name: &str, value: &str) -> (r: Self)
        requires
            self.wf(),
        ensures
            r.wf(),
            r.header_list() == add_cookie(
                self.header_list(),
                name@ + "="@ + value@ + "; Path=/; HttpOnly; SameSite=Lax"@,
            ),
            r.code() == self.code(),
            r.body_view() == self.body_view(),
    {
        let mut cookie = owned(name);
        push_str(&mut cookie, "=");
        push_str(&mut cookie, value);
        push_str(&mut cookie, "; Path=/; HttpOnly; SameSite=Lax");
        self.set_cookie_raw(cookie.as_str())
    }

    /// Adds the cookie line `cookie` as it is.
    pub fn set_cookie_raw(self, cookie: &str) -> (r: Self)
        requires
            self.wf(),
        ensures
            r.wf(),
            r.header_list() == add_cookie(self.header_list(), cookie@),
            r.code() == self.code(),
            r.body_view() == self.body_view(),
    {
        let mut r = self;
        let ghost s = r.header_list();
        match r.index_of("Set-Cookie") {
            Some(i) => {
                proof {
                    lemma_value_at(s, i as int);
                }
                let mut value = r.headers[i].1.clone();
                let ghost existing = value@;
                assert(existing == s[i as int].1);
                assert(header_value(s, "Set-Cookie"@) == Some(existing));
                if chars_of(value.as_str()).len() > 0 {
                    push_char(&mut value, '\n');
                }
                push_str(&mut value, cookie);
                assert(value@ =~= (if existing.len() > 0 {
                    existing + seq!['\n'] + cookie@
                } else {
                    cookie@
                }));
                r.put("Set-Cookie", value);
            },
            None => {
                assert(header_value(s, "Set-Cookie"@) is None);
                r.put("Set-Cookie", owned(cookie));
            },
        }
        r
    }

    /// The header lines to send: each header once, except `Set-Cookie` (in any case), whose
    /// lines go out as separate headers.
    pub fn header_lines(&self) -> (r: Vec<(String, String)>)
        ensures
            pair_views(r@) == lines_of(self.header_list()),
    {
        let ghost s = self.header_list();
        let mut out: Vec<(String, String)> = Vec::new();
        let mut i: usize = 0;
        assert(s.take(0) =~= Seq::<(Seq<char>, Seq<char>)>::empty());
        assert(pair_views(out@) =~= Seq::<(Seq<char>, Seq<char>)>::empty());
        while i < self.headers.len()
            invariant
                s == self.header_list(),
                i <= self.headers.len(),
                pair_views(out@) == lines_of(s.take(i as int)),
            decreases self.headers.len() - i,
        {
            let name = self.headers[i].0.as_str();
            let value = self.headers[i].1.as_str();
            assert(s.take(i + 1).drop_last() =~= s.take(i as int));
            assert(s.take(i + 1).last() == (name@, value@));
            let lower = to_ascii_lower(name);
            let ghost before = pair_views(out@);
            if str_eq(lower.as_str(), "set-cookie") {
                let parts = split_str(value, '\n');
                let mut j: usize = 0;
                assert(cookie_lines(views(parts@).take(0)) =~= Seq::<(Seq<char>, Seq<char>)>::empty());
                assert(before + cookie_lines(views(parts@).take(0)) =~= before);
                while j < parts.len()
                    invariant
                        j <= parts.len(),
                        pair_views(out@) == before + cookie_lines(views(parts@).take(j as int)),
                    decreases parts.len() - j,
                {
                    let ghost b = pair_views(out@);
                    out.push((owned("Set-Cookie"), parts[j].clone()));
                    assert(views(parts@).take(j + 1).drop_last() =~= views(parts@).take(j as int));
                    assert(pair_views(out@) =~= b.push(("Set-Cookie"@, parts@[j as int]@)));
                    j = j + 1;
                }
                assert(views(parts@).take(j as int) =~= views(parts@));
            } else {
                out.push((owned(name), owned(value)));
                assert(pair_views(out@) =~= before.push((name@, value@)));
            }
            i = i + 1;
        }
        assert(s.take(i as int) =~= s);
        out
    }
}

/// A `Set-Cookie` header line for each cookie line.
pub open spec fn cookie_lines(lines: Seq<Seq<char>>) -> Seq<(Seq<char>, Seq<char>)>
    decreases lines.len(),
{
    if lines.len() == 0 {
        Seq::empty()
    } else {
        cookie_lines(lines.drop_last()).push(("Set-Cookie"@, lines.last()))
    }
}

/// The header lines to send for headers `s`.
pub open spec fn lines_of(s: Seq<(Seq<char>, Seq<char>)>) -> Seq<(Seq<char>, Seq<char>)>
    decreases s.len(),
{
    if s.len() == 0 {
        Seq::empty()
    } else {
        let (name, value) = s.last();
        lines_of(s.drop_last()) + if ascii_lower(name) == "set-cookie"@ {
            cookie_lines(split_on(value, '\n'))
        } else {
            seq![(name, value)]
        }
    }
}

impl Default for Response {
    fn default() -> (r: Self)
        ensures
            r.wf(),
            r.code() == 200,
            r.header_list().len() == 0,
            r.body_view().len() == 0,
    {
        Response::new()
    }
}

} // verus!
