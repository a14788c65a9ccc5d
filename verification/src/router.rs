//! Routing: route patterns with `:param` and `*` segments compiled to regular expressions,
//! and the decision of which route serves a request, or why none does.
//!
//! Handlers live with the caller; a route is named by its position in the table.
use vstd::prelude::*;
use crate::media_project_templates::{sort_names, sorted_names};
use crate::openapi::{is_alphanumeric, name_char, name_len, lemma_name_len, trim_slashes, trimmed_slashes};
use crate::text::{chars_of, join, join_strings, opt_view, owned, push_str, starts_with, str_eq, str_starts_with, string_from_chars, substring, views};

verus! {

/// A route path: trailing slashes dropped, the root when nothing is left.
pub open spec fn route_path(p: Seq<char>) -> Seq<char> {
    if trim_slashes(p).len() == 0 {
        seq!['/']
    } else {
        trim_slashes(p)
    }
}

/// Characters that the pattern writes behind a backslash.
pub open spec fn regex_meta(c: char) -> bool {
    c == '.' || c == '+' || c == '?' || c == '^' || c == '$' || c == '{' || c == '}' || c == '[' || c == ']'
        || c == '|' || c == '(' || c == ')' || c == '\\'
}

/// The body of a route's regular expression: `:name` matches one non-empty segment, `*`
/// matches anything, metacharacters are escaped, and the rest matches itself.
pub open spec fn pattern_body(t: Seq<char>) -> Seq<char>
    decreases t.len(),
{
    if t.len() == 0 {
        Seq::empty()
    } else if t[0] == ':' {
        let n = name_len(t.drop_first()) as int;
        proof {
            lemma_name_len(t.drop_first());
        }
        seq!['(', '[', '^', '/', ']', '+', ')'] + pattern_body(t.skip(1 + n))
    } else if t[0] == '*' {
        seq!['(', '.', '*', ')'] + pattern_body(t.drop_first())
    } else if regex_meta(t[0]) {
        seq!['\\', t[0]] + pattern_body(t.drop_first())
    } else {
        seq![t[0]] + pattern_body(t.drop_first())
    }
}

/// The parameter names of a route path, in order.
pub open spec fn param_names_of(t: Seq<char>) -> Seq<Seq<char>>
    decreases t.len(),
{
    if t.len() == 0 {
        Seq::empty()
    } else if t[0] == ':' {
        let n = name_len(t.drop_first()) as int;
        proof {
            lemma_name_len(t.drop_first());
        }
        seq![t.subrange(1, 1 + n)] + param_names_of(t.skip(1 + n))
    } else {
        param_names_of(t.drop_first())
    }
}

/// The regular expression of a route path, anchored at both ends.
pub open spec fn route_pattern(path: Seq<char>) -> Seq<char> {
    seq!['^'] + pattern_body(path) + seq!['$']
}

/// The groups that the regular expression `pattern` captures in `text` (group 0 is the whole
/// match), when it matches; nothing when it does not, or does not compile.
pub uninterp spec fn regex_captures(pattern: Seq<char>, text: Seq<char>) -> Option<Seq<Option<Seq<char>>>>;

pub open spec fn capture_views(v: Seq<Option<String>>) -> Seq<Option<Seq<char>>> {
    v.map_values(|o: Option<String>| opt_view(o))
}

/// `regex::Regex::new(pattern)` and `captures(text)`, each group's text collected; a pattern
/// that does not compile captures nothing.
#[verifier::external_body]
fn captures(pattern: &str, text: &str) -> (r: Option<Vec<Option<String>>>)
    ensures
        match regex_captures(pattern@, text@) {
            Some(c) => r matches Some(v) && capture_views(v@) == c,
            None => r is None,
        },
{
    let re = regex::Regex::new(pattern).ok()?;
    let caps = re.captures(text)?;
    Some(caps.iter().map(|m| m.map(|m| m.as_str().to_string())).collect())
}

/// The parameters bound by a match: each name with the text of its group, when the group
/// took part in the match.
pub open spec fn params_of(names: Seq<Seq<char>>, caps: Seq<Option<Seq<char>>>) -> Seq<(Seq<char>, Seq<char>)>
    decreases names.len(),
{
    if names.len() == 0 {
        Seq::empty()
    } else {
        let i = names.len() - 1;
        let before = params_of(names.drop_last(), caps);
        if i + 1 < caps.len() && caps[i + 1] is Some {
            before.push((names[i], caps[i + 1]->0))
        } else {
            before
        }
    }
}

/// A route: its method, normalized path, pattern and parameter names, and the prefix that a
/// mounted router's routes strip.
#[derive(Debug, Clone, PartialEq, Eq)]
pub struct Route {
    pub path: String,
    pub method: String,
    pub pattern: String,
    pub param_names: Vec<String>,
    pub strip_prefix: Option<String>,
}

/// The parameters of route `r` for `path`, when it matches.
pub open spec fn route_params(r: Route, path: Seq<char>) -> Option<Seq<(Seq<char>, Seq<char>)>> {
    match regex_captures(r.pattern@, path) {
        Some(caps) => Some(params_of(views(r.param_names@), caps)),
        None => None,
    }
}

impl Route {
    /// The route of `method` at `path`.
    pub fn new(method: &str, path: &str) -> (r: Self)
        ensures
            r.path@ == route_path(path@),
            r.method@ == method@,
            r.pattern@ == route_pattern(route_path(path@)),
            views(r.param_names@) == param_names_of(route_path(path@)),
            r.strip_prefix is None,
    {
        let v = chars_of(path);
        let end = trimmed_slashes(&v);
        let normalized = if end == 0 {
            let mut root: Vec<char> = Vec::new();
            root.push('/');
            root
        } else {
            let mut t: Vec<char> = Vec::new();
            let mut i: usize = 0;
            while i < end
                invariant
                    end <= v.len(),
                    i <= end,
                    t@ == v@.take(i as int),
                decreases end - i,
            {
                t.push(v[i]);
                i = i + 1;
                assert(t@ =~= v@.take(i as int));
            }
            t
        };
        assert(normalized@ =~= route_path(path@));
        let (pattern, names) = path_to_regex(&normalized);
        Route {
            path: string_from_chars(&normalized),
            method: owned(method),
            pattern,
            param_names: names,
            strip_prefix: None,
        }
    }

    /// The route of `method` at `path` in a router mounted at `prefix`.
    pub fn mounted(method: &str, path: &str, prefix: &str) -> (r: Self)
        ensures
            r.path@ == route_path(path@),
            r.method@ == method@,
            r.pattern@ == route_pattern(route_path(path@)),
            views(r.param_names@) == param_names_of(route_path(path@)),
            r.strip_prefix matches Some(p) && p@ == prefix@,
    {
        let r = Route::new(method, path);
        Route { strip_prefix: Some(owned(prefix)), ..r }
    }

    /// The parameters bound when the route matches `path`, in the order of the pattern; a map
    /// of them keeps the last value of each name.
    pub fn matches_path(&self, path: &str) -> (r: Option<Vec<(String, String)>>)
        ensures
            match route_params(*self, path@) {
                Some(p) => r matches Some(v) && crate::text::pair_views(v@) == p,
                None => r is None,
            },
    {
        let caps = match captures(self.pattern.as_str(), path) {
            Some(c) => c,
            None => return None,
        };
        let ghost cv = capture_views(caps@);
        let ghost names = views(self.param_names@);
        let mut out: Vec<(String, String)> = Vec::new();
        let mut i: usize = 0;
        assert(names.take(0) =~= Seq::<Seq<char>>::empty());
        assert(crate::text::pair_views(out@) =~= Seq::<(Seq<char>, Seq<char>)>::empty());
        while i < self.param_names.len()
            invariant
                names == views(self.param_names@),
                cv == capture_views(caps@),
                i <= self.param_names.len(),
                crate::text::pair_views(out@) == params_of(names.take(i as int), cv),
            decreases self.param_names.len() - i,
        {
            let ghost before = crate::text::pair_views(out@);
            proof {
                assert(names.take(i + 1).drop_last() =~= names.take(i as int));
                assert(names.take(i + 1)[i as int] == names[i as int]);
            }
            if i + 1 < caps.len() {
                match &caps[i + 1] {
                    Some(value) => {
                        out.push((self.param_names[i].clone(), value.clone()));
                        assert(crate::text::pair_views(out@) =~= before.push((names[i as int], value@)));
                    },
                    None => {},
                }
            }
            i = i + 1;
        }
        assert(names.take(i as int) =~= names);
        Some(out)
    }
}

proof fn lemma_name_len_at(v: Seq<char>, i: int, k: int)
    requires
        0 <= i < k <= v.len(),
        forall|j: int| i < j < k ==> name_char(#[trigger] v[j]),
        k < v.len() ==> !name_char(v[k]),
    ensures
        name_len(v.skip(i + 1)) == k - i - 1,
    decreases k - i,
{
    let t = v.skip(i + 1);
    if i + 1 < k {
        assert(t[0] == v[i + 1]);
        lemma_name_len_at(v, i + 1, k);
        assert(t.drop_first() =~= v.skip(i + 2));
    } else if k < v.len() {
        assert(t[0] == v[k]);
    }
}

fn is_meta(c: char) -> (r: bool)
    ensures
        r == regex_meta(c),
{
    c == '.' || c == '+' || c == '?' || c == '^' || c == '$' || c == '{' || c == '}' || c == '[' || c == ']'
        || c == '|' || c == '(' || c == ')' || c == '\\'
}

/// The pattern and parameter names of the normalized path `t`.
fn path_to_regex(t: &Vec<char>) -> (r: (String, Vec<String>))
    ensures
        r.0@ == route_pattern(t@),
        views(r.1@) == param_names_of(t@),
{
    let mut out: Vec<char> = Vec::new();
    let mut names: Vec<String> = Vec::new();
    out.push('^');
    let ghost lead = out@;
    let mut i: usize = 0;
    let n = t.len();
    assert(t@.skip(0) =~= t@);
    assert(views(names@) =~= Seq::<Seq<char>>::empty());
    while i < n
        invariant
            n == t.len(),
            i <= n,
            lead == seq!['^'],
            out@ + pattern_body(t@.skip(i as int)) == lead + pattern_body(t@),
            views(names@) + param_names_of(t@.skip(i as int)) == param_names_of(t@),
        decreases n - i,
    {
        let c = t[i];
        let ghost rest = t@.skip(i as int);
        assert(rest[0] == c);
        let ghost before = out@;
        let ghost names_before = views(names@);
        if c == ':' {
            let mut k = i + 1;
            while k < n && (is_alphanumeric(t[k]) || t[k] == '_')
                invariant
                    i < k <= n,
                    n == t.len(),
                    forall|j: int| i < j < k ==> name_char(#[trigger] t@[j]),
                decreases n - k,
            {
                k = k + 1;
            }
            proof {
                lemma_name_len_at(t@, i as int, k as int);
                assert(rest.drop_first() =~= t@.skip(i + 1));
                assert(rest.subrange(1, 1 + (k - i - 1)) =~= t@.subrange(i + 1, k as int));
                assert(rest.skip(1 + (k - i - 1)) =~= t@.skip(k as int));
            }
            let name = substring(t, i + 1, k);
            names.push(name);
            assert(views(names@) =~= names_before.push(t@.subrange(i + 1, k as int)));
            assert(views(names@) + param_names_of(t@.skip(k as int)) =~= names_before + param_names_of(rest));
            out.push('(');
            out.push('[');
            out.push('^');
            out.push('/');
            out.push(']');
            out.push('+');
            out.push(')');
            assert(out@ + pattern_body(t@.skip(k as int)) =~= before + pattern_body(rest));
            i = k;
        } else {
            if c == '*' {
                out.push('(');
                out.push('.');
                out.push('*');
                out.push(')');
            } else if is_meta(c) {
                out.push('\\');
                out.push(c);
            } else {
                out.push(c);
            }
            assert(rest.drop_first() =~= t@.skip(i + 1));
            assert(out@ + pattern_body(t@.skip(i + 1)) =~= before + pattern_body(rest));
            assert(views(names@) + param_names_of(t@.skip(i + 1)) =~= names_before + param_names_of(rest));
            i = i + 1;
        }
    }
    assert(t@.skip(i as int) =~= Seq::<char>::empty());
    assert(views(names@) =~= param_names_of(t@));
    out.push('$');
    assert(out@ =~= route_pattern(t@));
    (string_from_chars(&out), names)
}

/// What happens to a request.
#[derive(Debug, Clone, PartialEq, Eq)]
pub enum RouteDecision {
    /// Route `route` serves it with `params`; a mounted route also rewrites the path to `path`.
    Dispatch { route: usize, params: Vec<(String, String)>, path: Option<String> },
    /// A preflight for a path that some route serves: answer with the allowed methods.
    Options(String),
    /// Some route serves the path, none with this method: the allowed methods.
    MethodNotAllowed(String),
    /// The static files serve it.
    Static,
    NotFound,
}

/// Whether a route of `route_method` serves a `method` request (`HEAD` is served by `GET`).
pub open spec fn serves(route_method: Seq<char>, method: Seq<char>) -> bool {
    route_method == method || (method == "HEAD"@ && route_method == "GET"@)
}

/// The first route that matches `path` and serves `method`.
pub open spec fn first_served(routes: Seq<Route>, path: Seq<char>, method: Seq<char>) -> Option<int>
    decreases routes.len(),
{
    if routes.len() == 0 {
        None
    } else {
        match first_served(routes.drop_last(), path, method) {
            Some(i) => Some(i),
            None => if route_params(routes.last(), path) is Some && serves(routes.last().method@, method) {
                Some(routes.len() - 1)
            } else {
                None
            },
        }
    }
}

/// The methods of the routes that match `path`, in order.
pub open spec fn matching_methods(routes: Seq<Route>, path: Seq<char>) -> Seq<Seq<char>>
    decreases routes.len(),
{
    if routes.len() == 0 {
        Seq::empty()
    } else {
        let before = matching_methods(routes.drop_last(), path);
        if route_params(routes.last(), path) is Some {
            before.push(routes.last().method@)
        } else {
            before
        }
    }
}

/// The path a mounted route hands on: `path` without `prefix`, the root when nothing is left.
pub open spec fn stripped_path(path: Seq<char>, prefix: Seq<char>) -> Seq<char> {
    let rest = if starts_with(path, prefix) {
        path.skip(prefix.len() as int)
    } else {
        path
    };
    if rest.len() == 0 {
        seq!['/']
    } else {
        rest
    }
}

/// The routes of an application in order, and the URL prefix of its static files.
#[derive(Debug, Clone)]
pub struct RouteTable {
    routes: Vec<Route>,
    static_prefix: Option<String>,
}

impl RouteTable {
    pub closed spec fn routes_view(&self) -> Seq<Route> {
        self.routes@
    }

    pub closed spec fn static_view(&self) -> Option<Seq<char>> {
        opt_view(self.static_prefix)
    }

    pub fn new() -> (t: Self)
        ensures
            t.routes_view().len() == 0,
            t.static_view() is None,
    {
        RouteTable { routes: Vec::new(), static_prefix: None }
    }

    /// The routes, in order.
    pub fn routes(&self) -> (r: &Vec<Route>)
        ensures
            r@ == self.routes_view(),
    {
        &self.routes
    }

    /// Adds the route of `method` at `path` last, and gives its position.
    pub fn add(&mut self, method: &str, path: &str) -> (i: usize)
        requires
            old(self).routes_view().len() < usize::MAX,
        ensures
            i == old(self).routes_view().len(),
            final(self).routes_view().len() == old(self).routes_view().len() + 1,
            final(self).routes_view().drop_last() == old(self).routes_view(),
            final(self).routes_view().last().path@ == route_path(path@),
            final(self).routes_view().last().method@ == method@,
            final(self).routes_view().last().pattern@ == route_pattern(route_path(path@)),
            views(final(self).routes_view().last().param_names@) == param_names_of(route_path(path@)),
            final(self).routes_view().last().strip_prefix is None,
            final(self).static_view() == old(self).static_view(),
    {
        let i = self.routes.len();
        self.routes.push(Route::new(method, path));
        assert(self.routes@.drop_last() =~= old(self).routes@);
        i
    }

    /// Mounts a router at `path`: for each of the seven methods, a route at the prefix and one
    /// below it, both stripping the prefix. Gives the position of the first.
    pub fn mount(&mut self, path: &str) -> (i: usize)
        requires
            old(self).routes_view().len() + 14 <= usize::MAX,
        ensures
            i == old(self).routes_view().len(),
            final(self).routes_view().len() == old(self).routes_view().len() + 14,
            final(self).routes_view().take(i as int) == old(self).routes_view(),
            forall|k: int|
                i <= k < final(self).routes_view().len() ==> ((#[trigger] final(self).routes_view()[k]).strip_prefix
                    matches Some(p) && p@ == route_path(path@)),
            final(self).static_view() == old(self).static_view(),
    {
        let v = chars_of(path);
        let end = trimmed_slashes(&v);
        let mut prefix = if end == 0 {
            let mut root: Vec<char> = Vec::new();
            root.push('/');
            string_from_chars(&root)
        } else {
            substring(&v, 0, end)
        };
        assert(prefix@ =~= route_path(path@));
        let mut below = prefix.clone();
        push_str(&mut below, "/*");
        let start = self.routes.len();
        let methods = ["GET", "POST", "PUT", "DELETE", "PATCH", "OPTIONS", "HEAD"];
        let mut m: usize = 0;
        while m < 7
            invariant
                m <= 7,
                start == old(self).routes@.len(),
                self.routes@.len() == start + 2 * m,
                self.routes@.take(start as int) == old(self).routes@,
                forall|k: int|
                    start <= k < self.routes@.len() ==> ((#[trigger] self.routes@[k]).strip_prefix matches Some(p)
                        && p@ == prefix@),
                prefix@ == route_path(path@),
                self.static_prefix == old(self).static_prefix,
                start + 14 <= usize::MAX,
            decreases 7 - m,
        {
            let method = methods[m];
            let ghost before = self.routes@;
            self.routes.push(Route::mounted(method, prefix.as_str(), prefix.as_str()));
            self.routes.push(Route::mounted(method, below.as_str(), prefix.as_str()));
            assert(self.routes@.take(start as int) =~= before.take(start as int));
            m = m + 1;
        }
        start
    }

    /// Serves the URL prefix `prefix` from static files.
    pub fn set_static_prefix(&mut self, prefix: &str)
        ensures
            final(self).static_view() == Some(prefix@),
            final(self).routes_view() == old(self).routes_view(),
    {
        self.static_prefix = Some(owned(prefix));
    }

    /// Decides what serves a `method` request for `raw_path`: the first route that matches
    /// the normalized path and serves the method; else, when some route matches, the allowed
    /// methods (sorted, each once, joined by `, `) for a preflight or a refusal; else the
    /// static files when the raw path is under their prefix; else nothing.
    pub fn decide(&self, raw_path: &str, method: &str) -> (r: RouteDecision)
        ensures
            ({
                let path = route_path(raw_path@);
                let allowed = join(sorted_names(matching_methods(self.routes_view(), path)), ", "@);
                match first_served(self.routes_view(), path, method@) {
                    Some(i) => r matches RouteDecision::Dispatch { route, params, path: p } && route == i
                        && route_params(self.routes_view()[i], path) == Some(crate::text::pair_views(params@))
                        && match self.routes_view()[i].strip_prefix {
                        Some(prefix) => p matches Some(np) && np@ == stripped_path(path, prefix@),
                        None => p is None,
                    },
                    None => if matching_methods(self.routes_view(), path).len() > 0 {
                        if method@ == "OPTIONS"@ {
                            r matches RouteDecision::Options(a) && a@ == allowed
                        } else {
                            r matches RouteDecision::MethodNotAllowed(a) && a@ == allowed
                        }
                    } else if self.static_view() matches Some(prefix) && starts_with(raw_path@, prefix) {
                        r == RouteDecision::Static
                    } else {
                        r == RouteDecision::NotFound
                    },
                }
            }),
    {
        let v = chars_of(raw_path);
        let end = trimmed_slashes(&v);
        let path = if end == 0 {
            let mut root: Vec<char> = Vec::new();
            root.push('/');
            string_from_chars(&root)
        } else {
            substring(&v, 0, end)
        };
        assert(path@ =~= route_path(raw_path@));
        let ghost rs = self.routes@;
        let mut allowed: Vec<String> = Vec::new();
        let mut i: usize = 0;
        assert(rs.take(0) =~= Seq::<Route>::empty());
        assert(views(allowed@) =~= Seq::<Seq<char>>::empty());
        while i < self.routes.len()
            invariant
                rs == self.routes@,
                i <= self.routes.len(),
                path@ == route_path(raw_path@),
                first_served(rs.take(i as int), path@, method@) is None,
                views(allowed@) == matching_methods(rs.take(i as int), path@),
            decreases self.routes.len() - i,
        {
            let route = &self.routes[i];
            proof {
                assert(rs.take(i + 1).drop_last() =~= rs.take(i as int));
                assert(rs.take(i + 1).last() == rs[i as int]);
            }
            match route.matches_path(path.as_str()) {
                Some(params) => {
                    let ghost before = views(allowed@);
                    allowed.push(route.method.clone());
                    assert(views(allowed@) =~= before.push(route.method@));
                    let serves_it = str_eq(route.method.as_str(), method) || (str_eq(method, "HEAD") && str_eq(
                        route.method.as_str(),
                        "GET",
                    ));
                    if serves_it {
                        proof {
                            lemma_first_served_extends(rs, path@, method@, i as int + 1);
                        }
                        let new_path = match &route.strip_prefix {
                            Some(prefix) => {
                                let pv = chars_of(path.as_str());
                                let rest = if str_starts_with(path.as_str(), prefix.as_str()) {
                                    let plen = chars_of(prefix.as_str()).len();
                                    substring(&pv, plen, pv.len())
                                } else {
                                    path.clone()
                                };
                                let rv = chars_of(rest.as_str());
                                let np = if rv.len() == 0 {
                                    let mut root: Vec<char> = Vec::new();
                                    root.push('/');
                                    string_from_chars(&root)
                                } else {
                                    rest
                                };
                                assert(np@ =~= stripped_path(path@, prefix@));
                                Some(np)
                            },
                            None => None,
                        };
                        return RouteDecision::Dispatch { route: i, params, path: new_path };
                    }
                },
                None => {},
            }
            i = i + 1;
        }
        assert(rs.take(i as int) =~= rs);
        if allowed.len() > 0 {
            let sorted = sort_names(&allowed);
            let list = join_strings(&sorted, ", ");
            if str_eq(method, "OPTIONS") {
                return RouteDecision::Options(list);
            }
            return RouteDecision::MethodNotAllowed(list);
        }
        match &self.static_prefix {
            Some(prefix) => {
                if str_starts_with(raw_path, prefix.as_str()) {
                    return RouteDecision::Static;
                }
            },
            None => {},
        }
        RouteDecision::NotFound
    }
}

proof fn lemma_first_served_extends(rs: Seq<Route>, path: Seq<char>, method: Seq<char>, i: int)
    requires
        0 <= i <= rs.len(),
        first_served(rs.take(i), path, method) is Some,
    ensures
        first_served(rs, path, method) == first_served(rs.take(i), path, method),
    decreases rs.len() - i,
{
    if i < rs.len() {
        assert(rs.take(i + 1).drop_last() =~= rs.take(i));
        lemma_first_served_extends(rs, path, method, i + 1);
    } else {
        assert(rs.take(i) =~= rs);
    }
}

} // verus!
