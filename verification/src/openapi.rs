//! OpenAPI 3.0 documents built from the framework's routes: operations, servers, and paths
//! rewritten from `:param` and `*` patterns to OpenAPI's `{param}` form.
use vstd::prelude::*;
use std::sync::Arc;
use crate::text::{chars_of, decimal_string, decimal, owned, seq_lt, str_eq, str_lt, lemma_seq_lt_order};

verus! {

#[derive(Debug, Clone, PartialEq, Eq)]
pub struct OpenApiResponse {
    pub description: String,
}

#[derive(Debug, Clone, PartialEq, Eq)]
pub struct OpenApiOperation {
    pub summary: Option<String>,
    pub description: Option<String>,
    pub operation_id: Option<String>,
    pub tags: Vec<String>,
    pub responses: Vec<(String, OpenApiResponse)>,
}

#[derive(Debug, Clone, PartialEq, Eq)]
pub struct OpenApiPathItem {
    pub get: Option<OpenApiOperation>,
    pub post: Option<OpenApiOperation>,
    pub put: Option<OpenApiOperation>,
    pub delete: Option<OpenApiOperation>,
    pub patch: Option<OpenApiOperation>,
    pub options: Option<OpenApiOperation>,
    pub head: Option<OpenApiOperation>,
}

#[derive(Debug, Clone, PartialEq, Eq)]
pub struct OpenApiServer {
    pub url: String,
    pub description: Option<String>,
}

#[derive(Debug, Clone, PartialEq, Eq)]
pub struct OpenApiInfo {
    pub title: String,
    pub version: String,
    pub description: Option<String>,
}

/// An OpenAPI document; its paths are kept in string order, one item per path.
#[derive(Debug, Clone, PartialEq, Eq)]
pub struct OpenApiDocument {
    pub openapi: String,
    pub info: OpenApiInfo,
    pub servers: Option<Vec<OpenApiServer>>,
    pub paths: Vec<(String, OpenApiPathItem)>,
}

pub open spec fn empty_item() -> OpenApiPathItem {
    OpenApiPathItem { get: None, post: None, put: None, delete: None, patch: None, options: None, head: None }
}

impl Default for OpenApiPathItem {
    fn default() -> (i: Self)
        ensures
            i == empty_item(),
    {
        OpenApiPathItem { get: None, post: None, put: None, delete: None, patch: None, options: None, head: None }
    }
}

impl OpenApiOperation {
    /// An operation with one documented response.
    pub fn new(response_status: u16, response_description: &str) -> (o: Self)
        ensures
            o.summary is None,
            o.description is None,
            o.operation_id is None,
            o.tags@.len() == 0,
            o.responses@.len() == 1,
            o.responses@[0].0@ == decimal(response_status as nat),
            o.responses@[0].1.description@ == response_description@,
    {
        let mut responses: Vec<(String, OpenApiResponse)> = Vec::new();
        responses.push(
            (
                decimal_string(response_status as u64),
                OpenApiResponse { description: owned(response_description) },
            ),
        );
        OpenApiOperation { summary: None, description: None, operation_id: None, tags: Vec::new(), responses }
    }

    pub fn summary(self, value: &str) -> (o: Self)
        ensures
            o.summary matches Some(s) && s@ == value@,
            o.description == self.description,
            o.operation_id == self.operation_id,
            o.tags == self.tags,
            o.responses == self.responses,
    {
        OpenApiOperation { summary: Some(owned(value)), ..self }
    }

    pub fn description(self, value: &str) -> (o: Self)
        ensures
            o.description matches Some(s) && s@ == value@,
            o.summary == self.summary,
            o.operation_id == self.operation_id,
            o.tags == self.tags,
            o.responses == self.responses,
    {
        OpenApiOperation { description: Some(owned(value)), ..self }
    }

    pub fn operation_id(self, value: &str) -> (o: Self)
        ensures
            o.operation_id matches Some(s) && s@ == value@,
            o.summary == self.summary,
            o.description == self.description,
            o.tags == self.tags,
            o.responses == self.responses,
    {
        OpenApiOperation { operation_id: Some(owned(value)), ..self }
    }

    /// Adds a tag after the ones already there.
    pub fn tag(self, value: &str) -> (o: Self)
        ensures
            o.tags@.len() == self.tags@.len() + 1,
            o.tags@.drop_last() == self.tags@,
            o.tags@.last()@ == value@,
            o.summary == self.summary,
            o.description == self.description,
            o.operation_id == self.operation_id,
            o.responses == self.responses,
    {
        let mut tags = self.tags;
        tags.push(owned(value));
        OpenApiOperation { tags, ..self }
    }
}

/// Whether `char::is_alphanumeric` holds of `c` (Unicode `Alphabetic` or `Numeric`).
pub uninterp spec fn unicode_alphanumeric(c: char) -> bool;

/// `char::is_alphanumeric`; on ASCII it holds exactly of the letters and digits.
#[verifier::external_body]
pub(crate) fn is_alphanumeric(c: char) -> (r: bool)
    ensures
        r == unicode_alphanumeric(c),
        (c as u32) < 128 ==> (r <==> crate::text::is_ascii_alphanumeric(c)),
{
    c.is_alphanumeric()
}

pub open spec fn name_char(c: char) -> bool {
    unicode_alphanumeric(c) || c == '_'
}

/// The number of parameter-name characters at the start of `t`.
pub open spec fn name_len(t: Seq<char>) -> nat
    decreases t.len(),
{
    if t.len() > 0 && name_char(t[0]) {
        1 + name_len(t.drop_first())
    } else {
        0
    }
}

/// A route pattern in OpenAPI form: `:name` becomes `{name}` and `*` becomes `{path}`.
pub open spec fn openapi_segments(t: Seq<char>) -> Seq<char>
    decreases t.len(),
{
    if t.len() == 0 {
        Seq::empty()
    } else if t[0] == ':' {
        let n = name_len(t.drop_first()) as int;
        proof {
            lemma_name_len(t.drop_first());
        }
        seq!['{'] + t.subrange(1, 1 + n) + seq!['}'] + openapi_segments(t.skip(1 + n))
    } else if t[0] == '*' {
        seq!['{', 'p', 'a', 't', 'h', '}'] + openapi_segments(t.drop_first())
    } else {
        seq![t[0]] + openapi_segments(t.drop_first())
    }
}

/// `s` without its trailing `/` characters.
pub open spec fn trim_slashes(s: Seq<char>) -> Seq<char>
    decreases s.len(),
{
    if s.len() > 0 && s.last() == '/' {
        trim_slashes(s.drop_last())
    } else {
        s
    }
}

/// The OpenAPI path of a route: trailing slashes dropped, a leading `/` added when missing,
/// parameters rewritten; the root when nothing is left.
pub open spec fn normalized_path(p: Seq<char>) -> Seq<char> {
    let lead = if p.len() > 0 && p[0] == '/' {
        Seq::<char>::empty()
    } else {
        seq!['/']
    };
    let r = lead + openapi_segments(trim_slashes(p));
    if r.len() == 0 {
        seq!['/']
    } else {
        r
    }
}

/// How many characters a parameter name takes, and that they are name characters.
pub proof fn lemma_name_len(t: Seq<char>)
    ensures
        name_len(t) <= t.len(),
        forall|j: int| 0 <= j < name_len(t) ==> name_char(#[trigger] t[j]),
        name_len(t) < t.len() ==> !name_char(t[name_len(t) as int]),
    decreases t.len(),
{
    if t.len() > 0 && name_char(t[0]) {
        lemma_name_len(t.drop_first());
        assert forall|j: int| 0 <= j < name_len(t) implies name_char(#[trigger] t[j]) by {
            if j > 0 {
                assert(t[j] == t.drop_first()[j - 1]);
            }
        }
        if name_len(t) < t.len() {
            assert(t[name_len(t) as int] == t.drop_first()[name_len(t.drop_first()) as int]);
        }
    }
}

proof fn lemma_name_len_at(v: Seq<char>, i: int, k: int)
    requires
        0 <= i < k <= v.len(),
        forall|j: int| i < j < k ==> name_char(#[trigger] v[j]),
        k < v.len() ==> !name_char(v[k]),
    ensures
        name_len(v.skip(i + 1)) == k - i - 1,
    decreases k - i,
{
    let t = v.skip(i + 1);
    if i + 1 < k {
        assert(t[0] == v[i + 1]);
        lemma_name_len_at(v, i + 1, k);
        assert(t.drop_first() =~= v.skip(i + 2));
    } else if k < v.len() {
        assert(t[0] == v[k]);
    }
}

pub(crate) fn trimmed_slashes(v: &Vec<char>) -> (n: usize)
    ensures
        n <= v.len(),
        v@.take(n as int) == trim_slashes(v@),
{
    let mut n = v.len();
    assert(v@.take(n as int) =~= v@);
    while n > 0 && v[n - 1] == '/'
        invariant
            n <= v.len(),
            trim_slashes(v@.take(n as int)) == trim_slashes(v@),
        decreases n,
    {
        assert(v@.take(n as int).drop_last() =~= v@.take(n - 1));
        n = n - 1;
    }
    n
}

/// The OpenAPI form of a route path.
pub fn normalize_path(path: &str) -> (r: String)
    ensures
        r@ == normalized_path(path@),
{
    let v = chars_of(path);
    let end = trimmed_slashes(&v);
    let ghost t = v@.take(end as int);
    let mut out: Vec<char> = Vec::new();
    if !(v.len() > 0 && v[0] == '/') {
        out.push('/');
    }
    let ghost lead = out@;
    let mut i: usize = 0;
    assert(t.skip(0) =~= t);
    while i < end
        invariant
            end <= v.len(),
            t == v@.take(end as int),
            i <= end,
            out@ + openapi_segments(t.skip(i as int)) == lead + openapi_segments(t),
        decreases end - i,
    {
        let c = v[i];
        let ghost rest = t.skip(i as int);
        assert(rest[0] == c);
        if c == ':' {
            let mut k = i + 1;
            while k < end && (is_alphanumeric(v[k]) || v[k] == '_')
                invariant
                    i < k <= end,
                    end <= v.len(),
                    forall|j: int| i < j < k ==> name_char(#[trigger] t[j]),
                    t == v@.take(end as int),
                decreases end - k,
            {
                assert(t[k as int] == v@[k as int]);
                k = k + 1;
            }
            proof {
                if k < end {
                    assert(t[k as int] == v@[k as int]);
                }
                lemma_name_len_at(t, i as int, k as int);
                assert(rest.drop_first() =~= t.skip(i + 1));
                assert(rest.subrange(1, 1 + (k - i - 1)) =~= t.subrange(i + 1, k as int));
                assert(rest.skip(1 + (k - i - 1)) =~= t.skip(k as int));
            }
            let ghost before = out@;
            out.push('{');
            let mut j = i + 1;
            while j < k
                invariant
                    i < j <= k,
                    k <= end,
                    end <= v.len(),
                    t == v@.take(end as int),
                    out@ == before.push('{') + t.subrange(i + 1, j as int),
                decreases k - j,
            {
                out.push(v[j]);
                assert(out@ =~= before.push('{') + t.subrange(i + 1, j + 1));
                j = j + 1;
            }
            out.push('}');
            assert(out@ + openapi_segments(t.skip(k as int)) =~= before + openapi_segments(rest));
            i = k;
        } else if c == '*' {
            let ghost before = out@;
            out.push('{');
            out.push('p');
            out.push('a');
            out.push('t');
            out.push('h');
            out.push('}');
            assert(rest.drop_first() =~= t.skip(i + 1));
            assert(out@ + openapi_segments(t.skip(i + 1)) =~= before + openapi_segments(rest));
            i = i + 1;
        } else {
            let ghost before = out@;
            out.push(c);
            assert(rest.drop_first() =~= t.skip(i + 1));
            assert(out@ + openapi_segments(t.skip(i + 1)) =~= before + openapi_segments(rest));
            i = i + 1;
        }
    }
    assert(t.skip(i as int).len() == 0);
    assert(out@ =~= lead + openapi_segments(t));
    if out.len() == 0 {
        let mut root: Vec<char> = Vec::new();
        root.push('/');
        return crate::text::string_from_chars(&root);
    }
    crate::text::string_from_chars(&out)
}

/// The path item `item` with `op` as the operation of `method`; other methods change nothing.
pub open spec fn with_method(item: OpenApiPathItem, method: Seq<char>, op: OpenApiOperation) -> OpenApiPathItem {
    if method == "GET"@ {
        OpenApiPathItem { get: Some(op), ..item }
    } else if method == "POST"@ {
        OpenApiPathItem { post: Some(op), ..item }
    } else if method == "PUT"@ {
        OpenApiPathItem { put: Some(op), ..item }
    } else if method == "DELETE"@ {
        OpenApiPathItem { delete: Some(op), ..item }
    } else if method == "PATCH"@ {
        OpenApiPathItem { patch: Some(op), ..item }
    } else if method == "OPTIONS"@ {
        OpenApiPathItem { options: Some(op), ..item }
    } else if method == "HEAD"@ {
        OpenApiPathItem { head: Some(op), ..item }
    } else {
        item
    }
}

pub open spec fn path_keys(s: Seq<(String, OpenApiPathItem)>) -> Seq<Seq<char>> {
    s.map_values(|e: (String, OpenApiPathItem)| e.0@)
}

pub open spec fn paths_ordered(s: Seq<(String, OpenApiPathItem)>) -> bool {
    forall|i: int, j: int| 0 <= i < j < s.len() ==> seq_lt(#[trigger] s[i].0@, #[trigger] s[j].0@)
}

/// The item of `path` in `s`.
pub open spec fn item_of(s: Seq<(String, OpenApiPathItem)>, path: Seq<char>) -> Option<OpenApiPathItem> {
    if exists|i: int| 0 <= i < s.len() && (#[trigger] s[i]).0@ == path {
        Some(s[choose|i: int| 0 <= i < s.len() && (#[trigger] s[i]).0@ == path].1)
    } else {
        None
    }
}

fn set_method(item: &mut OpenApiPathItem, method: &str, op: OpenApiOperation)
    ensures
        *final(item) == with_method(*old(item), method@, op),
{
    if str_eq(method, "GET") {
        item.get = Some(op);
    } else if str_eq(method, "POST") {
        item.post = Some(op);
    } else if str_eq(method, "PUT") {
        item.put = Some(op);
    } else if str_eq(method, "DELETE") {
        item.delete = Some(op);
    } else if str_eq(method, "PATCH") {
        item.patch = Some(op);
    } else if str_eq(method, "OPTIONS") {
        item.options = Some(op);
    } else if str_eq(method, "HEAD") {
        item.head = Some(op);
    }
}

impl OpenApiDocument {
    pub closed spec fn wf(&self) -> bool {
        paths_ordered(self.paths@)
    }

    /// A document for API `title` at `version`, in OpenAPI 3.0.3, without servers or paths.
    pub fn new(title: &str, version: &str) -> (d: Self)
        ensures
            d.wf(),
            d.openapi@ == "3.0.3"@,
            d.info.title@ == title@,
            d.info.version@ == version@,
            d.info.description is None,
            d.servers is None,
            d.paths@.len() == 0,
    {
        OpenApiDocument {
            openapi: owned("3.0.3"),
            info: OpenApiInfo { title: owned(title), version: owned(version), description: None },
            servers: None,
            paths: Vec::new(),
        }
    }

    pub fn description(self, value: &str) -> (d: Self)
        requires
            self.wf(),
        ensures
            d.wf(),
            d.info.description matches Some(s) && s@ == value@,
            d.info.title == self.info.title,
            d.info.version == self.info.version,
            d.openapi == self.openapi,
            d.servers == self.servers,
            d.paths == self.paths,
    {
        let info = OpenApiInfo { description: Some(owned(value)), ..self.info };
        OpenApiDocument { info, ..self }
    }

    /// Adds a server after the ones already listed.
    pub fn server(self, url: &str, description: Option<String>) -> (d: Self)
        requires
            self.wf(),
        ensures
            d.wf(),
            d.servers matches Some(v) && v@.len() > 0 && v@.last().url@ == url@ && v@.last().description
                == description && v@.drop_last() == match self.servers {
                Some(w) => w@,
                None => Seq::empty(),
            },
            d.info == self.info,
            d.openapi == self.openapi,
            d.paths == self.paths,
    {
        let mut servers = match self.servers {
            Some(v) => v,
            None => Vec::new(),
        };
        let ghost before = servers@;
        servers.push(OpenApiServer { url: owned(url), description });
        assert(servers@.drop_last() =~= before);
        OpenApiDocument { servers: Some(servers), ..self }
    }

    /// Documents `operation` as the `method` (`GET`, `POST`, ...) operation of `path`, in
    /// OpenAPI form; an unknown method changes nothing but may add an empty path item.
    pub fn route(self, method: &str, path: &str, operation: OpenApiOperation) -> (d: Self)
        requires
            self.wf(),
        ensures
            d.wf(),
            d.info == self.info,
            d.openapi == self.openapi,
            d.servers == self.servers,
            item_of(d.paths@, normalized_path(path@)) == Some(
                with_method(
                    match item_of(self.paths@, normalized_path(path@)) {
                        Some(i) => i,
                        None => empty_item(),
                    },
                    method@,
                    operation,
                ),
            ),
            forall|p: Seq<char>| p != normalized_path(path@) ==> #[trigger] item_of(d.paths@, p) == item_of(
                self.paths@,
                p,
            ),
    {
        let key = normalize_path(path);
        let mut paths = self.paths;
        let ghost s = paths@;
        let mut i: usize = 0;
        while i < paths.len() && str_lt(paths[i].0.as_str(), key.as_str())
            invariant
                s == paths@,
                i <= paths.len(),
                forall|j: int| 0 <= j < i ==> seq_lt(#[trigger] s[j].0@, key@),
            decreases paths.len() - i,
        {
            i = i + 1;
        }
        if i < paths.len() && str_eq(paths[i].0.as_str(), key.as_str()) {
            let (name, mut item) = paths.remove(i);
            proof {
                lemma_item_at(s, i as int);
                assert(name == s[i as int].0);
                assert(item == s[i as int].1);
            }
            set_method(&mut item, method, operation);
            paths.insert(i, (name, item));
            proof {
                assert(paths@ =~= s.update(i as int, (s[i as int].0, item)));
                lemma_item_update(s, i as int, item);
            }
        } else {
            let mut item = OpenApiPathItem::default();
            set_method(&mut item, method, operation);
            proof {
                lemma_key_absent(s, i as int, key@);
                lemma_item_insert(s, i as int, key, item);
            }
            paths.insert(i, (key, item));
        }
        OpenApiDocument { paths, ..self }
    }
}

/// Serves one document, shared between the requests that ask for it.
pub struct OpenApiHandler {
    document: Arc<OpenApiDocument>,
}

impl OpenApiHandler {
    /// The document served.
    pub closed spec fn served(&self) -> OpenApiDocument {
        *self.document
    }

    /// The document every request is answered with.
    pub fn document(&self) -> (r: &OpenApiDocument)
        ensures
            *r == self.served(),
    {
        &self.document
    }
}

impl OpenApiDocument {
    /// A handler that answers every request with this document.
    pub fn handler(self: Arc<Self>) -> (h: OpenApiHandler)
        ensures
            h.served() == *self,
    {
        OpenApiHandler { document: self }
    }
}

proof fn lemma_item_at(s: Seq<(String, OpenApiPathItem)>, i: int)
    requires
        paths_ordered(s),
        0 <= i < s.len(),
    ensures
        item_of(s, s[i].0@) == Some(s[i].1),
{
    let k = choose|k: int| 0 <= k < s.len() && (#[trigger] s[k]).0@ == s[i].0@;
    if k < i {
        lemma_seq_lt_order(s[k].0@, s[i].0@, s[i].0@);
    } else if i < k {
        lemma_seq_lt_order(s[i].0@, s[k].0@, s[k].0@);
    }
}

proof fn lemma_key_absent(s: Seq<(String, OpenApiPathItem)>, i: int, key: Seq<char>)
    requires
        paths_ordered(s),
        0 <= i <= s.len(),
        forall|j: int| 0 <= j < i ==> seq_lt(#[trigger] s[j].0@, key),
        i < s.len() ==> !seq_lt(s[i].0@, key) && s[i].0@ != key,
    ensures
        item_of(s, key) is None,
{
    if i < s.len() {
        lemma_seq_lt_order(s[i].0@, key, key);
    }
    assert forall|k: int| 0 <= k < s.len() implies (#[trigger] s[k]).0@ != key by {
        if k < i {
            lemma_seq_lt_order(s[k].0@, key, key);
        } else if k > i {
            lemma_seq_lt_order(key, s[i].0@, s[k].0@);
            lemma_seq_lt_order(key, s[k].0@, key);
        }
    }
}

proof fn lemma_item_update(s: Seq<(String, OpenApiPathItem)>, i: int, item: OpenApiPathItem)
    requires
        paths_ordered(s),
        0 <= i < s.len(),
    ensures
        paths_ordered(s.update(i, (s[i].0, item))),
        item_of(s.update(i, (s[i].0, item)), s[i].0@) == Some(item),
        forall|p: Seq<char>| p != s[i].0@ ==> #[trigger] item_of(s.update(i, (s[i].0, item)), p) == item_of(s, p),
{
    let w = s.update(i, (s[i].0, item));
    assert forall|a: int, b: int| 0 <= a < b < w.len() implies seq_lt(#[trigger] w[a].0@, #[trigger] w[b].0@) by {
        assert(w[a].0 == s[a].0 && w[b].0 == s[b].0);
    }
    lemma_item_at(w, i);
    assert forall|p: Seq<char>| p != s[i].0@ implies #[trigger] item_of(w, p) == item_of(s, p) by {
        if exists|k: int| 0 <= k < s.len() && (#[trigger] s[k]).0@ == p {
            let k = choose|k: int| 0 <= k < s.len() && (#[trigger] s[k]).0@ == p;
            lemma_item_at(s, k);
            assert(w[k] == s[k]);
            lemma_item_at(w, k);
        } else {
            assert forall|k: int| 0 <= k < w.len() implies (#[trigger] w[k]).0@ != p by {
                assert(w[k].0 == s[k].0);
            }
        }
    }
}

proof fn lemma_item_insert(s: Seq<(String, OpenApiPathItem)>, i: int, key: String, item: OpenApiPathItem)
    requires
        paths_ordered(s),
        0 <= i <= s.len(),
        forall|j: int| 0 <= j < i ==> seq_lt(#[trigger] s[j].0@, key@),
        i < s.len() ==> !seq_lt(s[i].0@, key@) && s[i].0@ != key@,
    ensures
        paths_ordered(s.insert(i, (key, item))),
        item_of(s.insert(i, (key, item)), key@) == Some(item),
        forall|p: Seq<char>| p != key@ ==> #[trigger] item_of(s.insert(i, (key, item)), p) == item_of(s, p),
{
    let w = s.insert(i, (key, item));
    if i < s.len() {
        lemma_seq_lt_order(s[i].0@, key@, key@);
    }
    assert forall|a: int, b: int| 0 <= a < b < w.len() implies seq_lt(#[trigger] w[a].0@, #[trigger] w[b].0@) by {
        if b < i {
            assert(w[a] == s[a] && w[b] == s[b]);
        } else if b == i {
            assert(w[a] == s[a]);
        } else if a < i {
            assert(w[a] == s[a] && w[b] == s[b - 1]);
            if b - 1 > i {
                lemma_seq_lt_order(key@, s[i].0@, s[b - 1].0@);
            }
            lemma_seq_lt_order(s[a].0@, key@, s[b - 1].0@);
        } else if a == i {
            assert(w[b] == s[b - 1]);
            if b - 1 > i {
                lemma_seq_lt_order(key@, s[i].0@, s[b - 1].0@);
            }
        } else {
            assert(w[a] == s[a - 1] && w[b] == s[b - 1]);
        }
    }
    assert(w[i] == (key, item));
    lemma_item_at(w, i);
    assert forall|p: Seq<char>| p != key@ implies #[trigger] item_of(w, p) == item_of(s, p) by {
        if exists|k: int| 0 <= k < s.len() && (#[trigger] s[k]).0@ == p {
            let k = choose|k: int| 0 <= k < s.len() && (#[trigger] s[k]).0@ == p;
            lemma_item_at(s, k);
            let idx = if k < i { k } else { k + 1 };
            assert(w[idx] == s[k]);
            lemma_item_at(w, idx);
        } else {
            assert forall|k: int| 0 <= k < w.len() implies (#[trigger] w[k]).0@ != p by {
                if k < i {
                    assert(w[k] == s[k]);
                } else if k > i {
                    assert(w[k] == s[k - 1]);
                }
            }
        }
    }
}

} // verus!
