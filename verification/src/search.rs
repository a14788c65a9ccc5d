//! Query-string filters, sorting, limits and cursors, restricted to an allow-list of fields.
use vstd::prelude::*;
use crate::text::{opt_view, char_is_ascii_alphanumeric, chars_of, contains_str, first_index, find_char, is_ascii_alphanumeric, pair_views, parse_u64, parse_u64_spec, split_on, split_str, str_eq, substring, trim, trimmed, views};

verus! {

#[derive(Debug, Clone, Copy, PartialEq, Eq, Structural)]
pub enum FilterOperator {
    Eq,
    Ne,
    Gt,
    Gte,
    Lt,
    Lte,
    Contains,
    Prefix,
}

#[derive(Debug, Clone, PartialEq, Eq)]
pub struct Filter {
    pub field: String,
    pub operator: FilterOperator,
    pub value: String,
}

pub struct FilterView {
    pub field: Seq<char>,
    pub operator: FilterOperator,
    pub value: Seq<char>,
}

impl View for Filter {
    type V = FilterView;

    open spec fn view(&self) -> FilterView {
        FilterView { field: self.field@, operator: self.operator, value: self.value@ }
    }
}

#[derive(Debug, Clone, PartialEq, Eq)]
pub struct SortField {
    pub field: String,
    pub descending: bool,
}

pub struct SortView {
    pub field: Seq<char>,
    pub descending: bool,
}

impl View for SortField {
    type V = SortView;

    open spec fn view(&self) -> SortView {
        SortView { field: self.field@, descending: self.descending }
    }
}

#[derive(Debug, Clone, PartialEq, Eq)]
pub struct QuerySpec {
    pub filters: Vec<Filter>,
    pub sort: Vec<SortField>,
    pub limit: Option<usize>,
    pub cursor: Option<String>,
}

pub struct QuerySpecView {
    pub filters: Seq<FilterView>,
    pub sort: Seq<SortView>,
    pub limit: Option<usize>,
    pub cursor: Option<Seq<char>>,
}

pub open spec fn filter_views(v: Seq<Filter>) -> Seq<FilterView> {
    v.map_values(|f: Filter| f@)
}

pub open spec fn sort_views(v: Seq<SortField>) -> Seq<SortView> {
    v.map_values(|s: SortField| s@)
}


impl View for QuerySpec {
    type V = QuerySpecView;

    open spec fn view(&self) -> QuerySpecView {
        QuerySpecView {
            filters: filter_views(self.filters@),
            sort: sort_views(self.sort@),
            limit: self.limit,
            cursor: opt_view(self.cursor),
        }
    }
}

#[derive(Debug, Clone, Copy, PartialEq, Eq, Structural)]
pub enum QueryError {
    InvalidFilter,
    UnsupportedOperator,
    InvalidSortField,
    InvalidLimit,
    InvalidParameter,
}

/// Turns request parameters into a [`QuerySpec`], accepting only the allow-listed fields.
#[derive(Debug, Clone)]
pub struct QueryBuilder {
    allowed_fields: Vec<String>,
}

/// A field name made only of ASCII letters, digits and underscores.
pub open spec fn safe_identifier(f: Seq<char>) -> bool {
    forall|i: int| 0 <= i < f.len() ==> is_ascii_alphanumeric(#[trigger] f[i]) || f[i] == '_'
}

/// A field that may be filtered or sorted on: allow-listed and a safe identifier.
pub open spec fn field_accepted(allowed: Seq<Seq<char>>, f: Seq<char>) -> bool {
    allowed.contains(f) && safe_identifier(f)
}

/// The operator written between the brackets of a filter key.
pub open spec fn operator_named(s: Seq<char>) -> Option<FilterOperator> {
    if s == "eq"@ {
        Some(FilterOperator::Eq)
    } else if s == "ne"@ {
        Some(FilterOperator::Ne)
    } else if s == "gt"@ {
        Some(FilterOperator::Gt)
    } else if s == "gte"@ {
        Some(FilterOperator::Gte)
    } else if s == "lt"@ {
        Some(FilterOperator::Lt)
    } else if s == "lte"@ {
        Some(FilterOperator::Lte)
    } else if s == "contains"@ {
        Some(FilterOperator::Contains)
    } else if s == "prefix"@ {
        Some(FilterOperator::Prefix)
    } else {
        None
    }
}

/// A key of the form `field[op]`: the field before the first `[`, and the known operator
/// between it and a closing `]` that ends the key.
pub open spec fn filter_key(key: Seq<char>) -> Option<(Seq<char>, FilterOperator)> {
    match first_index(key, '[') {
        None => None,
        Some(k) => {
            let rest = key.skip(k + 1);
            if rest.len() > 0 && rest.last() == ']' {
                match operator_named(rest.drop_last()) {
                    Some(op) => Some((key.take(k), op)),
                    None => None,
                }
            } else {
                None
            }
        },
    }
}

/// `s` without its leading `-` characters.
pub open spec fn strip_dashes(s: Seq<char>) -> Seq<char>
    decreases s.len(),
{
    if s.len() > 0 && s[0] == '-' {
        strip_dashes(s.drop_first())
    } else {
        s
    }
}

/// The sort fields named by the comma-separated pieces `parts`: blank pieces are skipped,
/// a leading `-` sorts descending, and every named field must be accepted.
pub open spec fn sort_fields(allowed: Seq<Seq<char>>, parts: Seq<Seq<char>>) -> Result<
    Seq<SortView>,
    QueryError,
>
    decreases parts.len(),
{
    if parts.len() == 0 {
        Ok(Seq::empty())
    } else {
        match sort_fields(allowed, parts.drop_last()) {
            Err(e) => Err(e),
            Ok(done) => {
                let raw = trim(parts.last());
                if raw.len() == 0 {
                    Ok(done)
                } else if field_accepted(allowed, strip_dashes(raw)) {
                    Ok(done.push(SortView { field: strip_dashes(raw), descending: raw[0] == '-' }))
                } else {
                    Err(QueryError::InvalidSortField)
                }
            },
        }
    }
}

pub open spec fn empty_query() -> QuerySpecView {
    QuerySpecView { filters: Seq::empty(), sort: Seq::empty(), limit: None, cursor: None }
}

/// What one parameter does to the query built so far.
pub open spec fn apply_param(allowed: Seq<Seq<char>>, q: QuerySpecView, key: Seq<char>, value: Seq<char>) -> Result<
    QuerySpecView,
    QueryError,
> {
    if key == "sort"@ {
        match sort_fields(allowed, split_on(value, ',')) {
            Ok(s) => Ok(QuerySpecView { filters: q.filters, sort: q.sort + s, limit: q.limit, cursor: q.cursor }),
            Err(e) => Err(e),
        }
    } else if key == "limit"@ {
        match parse_u64_spec(value) {
            Some(n) => if n <= usize::MAX {
                Ok(QuerySpecView { filters: q.filters, sort: q.sort, limit: Some(n as usize), cursor: q.cursor })
            } else {
                Err(QueryError::InvalidLimit)
            },
            None => Err(QueryError::InvalidLimit),
        }
    } else if key == "cursor"@ {
        Ok(QuerySpecView { filters: q.filters, sort: q.sort, limit: q.limit, cursor: Some(value) })
    } else {
        match filter_key(key) {
            Some((field, op)) => if field_accepted(allowed, field) {
                Ok(QuerySpecView {
                    filters: q.filters.push(FilterView { field, operator: op, value }),
                    sort: q.sort,
                    limit: q.limit,
                    cursor: q.cursor,
                })
            } else {
                Err(QueryError::InvalidSortField)
            },
            None => Err(QueryError::InvalidParameter),
        }
    }
}

/// The query that the parameters build, taken in order; the first refused parameter decides
/// the error.
pub open spec fn parse_params(allowed: Seq<Seq<char>>, params: Seq<(Seq<char>, Seq<char>)>) -> Result<
    QuerySpecView,
    QueryError,
>
    decreases params.len(),
{
    if params.len() == 0 {
        Ok(empty_query())
    } else {
        match parse_params(allowed, params.drop_last()) {
            Err(e) => Err(e),
            Ok(q) => apply_param(allowed, q, params.last().0, params.last().1),
        }
    }
}

fn is_safe_identifier(f: &str) -> (r: bool)
    ensures
        r == safe_identifier(f@),
{
    let v = chars_of(f);
    let mut i: usize = 0;
    while i < v.len()
        invariant
            v@ == f@,
            i <= v.len(),
            forall|j: int| 0 <= j < i ==> is_ascii_alphanumeric(#[trigger] v@[j]) || v@[j] == '_',
        decreases v.len() - i,
    {
        if !(char_is_ascii_alphanumeric(v[i]) || v[i] == '_') {
            return false;
        }
        i = i + 1;
    }
    true
}

fn operator_of(s: &str) -> (r: Option<FilterOperator>)
    ensures
        r == operator_named(s@),
{
    if str_eq(s, "eq") {
        Some(FilterOperator::Eq)
    } else if str_eq(s, "ne") {
        Some(FilterOperator::Ne)
    } else if str_eq(s, "gt") {
        Some(FilterOperator::Gt)
    } else if str_eq(s, "gte") {
        Some(FilterOperator::Gte)
    } else if str_eq(s, "lt") {
        Some(FilterOperator::Lt)
    } else if str_eq(s, "lte") {
        Some(FilterOperator::Lte)
    } else if str_eq(s, "contains") {
        Some(FilterOperator::Contains)
    } else if str_eq(s, "prefix") {
        Some(FilterOperator::Prefix)
    } else {
        None
    }
}

fn split_filter_key(key: &str) -> (r: Option<(String, FilterOperator)>)
    ensures
        r matches Some(p) ==> filter_key(key@) == Some((p.0@, p.1)),
        r is None ==> filter_key(key@) is None,
{
    let v = chars_of(key);
    match find_char(&v, '[') {
        None => None,
        Some(k) => {
            let n = v.len();
            if k + 1 < n && v[n - 1] == ']' {
                let ghost rest = key@.skip(k + 1);
                let op_text = substring(&v, k + 1, n - 1);
                assert(op_text@ =~= rest.drop_last());
                match operator_of(op_text.as_str()) {
                    Some(op) => {
                        let field = substring(&v, 0, k);
                        assert(field@ =~= key@.take(k as int));
                        Some((field, op))
                    },
                    None => None,
                }
            } else {
                None
            }
        },
    }
}

fn strip_leading_dashes(s: &str) -> (r: String)
    ensures
        r@ == strip_dashes(s@),
{
    let v = chars_of(s);
    let mut i: usize = 0;
    assert(v@.skip(0) =~= v@);
    while i < v.len() && v[i] == '-'
        invariant
            v@ == s@,
            i <= v.len(),
            strip_dashes(s@) == strip_dashes(v@.skip(i as int)),
        decreases v.len() - i,
    {
        assert(v@.skip(i as int).drop_first() =~= v@.skip(i + 1));
        i = i + 1;
    }
    let r = substring(&v, i, v.len());
    assert(r@ =~= v@.skip(i as int));
    r
}

impl QueryBuilder {
    pub closed spec fn allowed(&self) -> Seq<Seq<char>> {
        views(self.allowed_fields@)
    }

    /// A builder that accepts the fields `allowed_fields`.
    pub fn new(allowed_fields: Vec<String>) -> (b: Self)
        ensures
            b.allowed() == views(allowed_fields@),
    {
        QueryBuilder { allowed_fields }
    }

    fn accepted_field(&self, field: &str) -> (r: bool)
        ensures
            r == field_accepted(self.allowed(), field@),
    {
        contains_str(&self.allowed_fields, field) && is_safe_identifier(field)
    }

    fn parse_sort(&self, value: &str) -> (r: Result<Vec<SortField>, QueryError>)
        ensures
            match sort_fields(self.allowed(), split_on(value@, ',')) {
                Ok(s) => r matches Ok(v) && sort_views(v@) == s,
                Err(e) => r == Err::<Vec<SortField>, QueryError>(e),
            },
    {
        let parts = split_str(value, ',');
        let ghost ps = split_on(value@, ',');
        let mut out: Vec<SortField> = Vec::new();
        let mut i: usize = 0;
        assert(ps.take(0) =~= Seq::<Seq<char>>::empty());
        assert(sort_views(out@) =~= Seq::<SortView>::empty());
        while i < parts.len()
            invariant
                views(parts@) == ps,
                ps == split_on(value@, ','),
                i <= parts.len(),
                sort_fields(self.allowed(), ps.take(i as int)) == Ok::<Seq<SortView>, QueryError>(
                    sort_views(out@),
                ),
            decreases parts.len() - i,
        {
            let raw = trimmed(parts[i].as_str());
            let ghost pre = ps.take(i as int);
            assert(ps.take(i + 1).drop_last() =~= pre);
            assert(ps.take(i + 1).last() == parts@[i as int]@);
            let rv = chars_of(raw.as_str());
            if rv.len() != 0 {
                let field = strip_leading_dashes(raw.as_str());
                if !self.accepted_field(field.as_str()) {
                    proof {
                        lemma_sort_fields_err_extends(self.allowed(), ps, i as int + 1);
                    }
                    return Err(QueryError::InvalidSortField);
                }
                let descending = rv[0] == '-';
                let ghost before = out@;
                out.push(SortField { field, descending });
                assert(sort_views(out@) =~= sort_views(before).push(out@.last()@));
            }
            i = i + 1;
        }
        assert(ps.take(i as int) =~= ps);
        Ok(out)
    }

    /// Builds the query that `params` ask for, taking the parameters in order (a map of
    /// parameters gives them in key order): `sort` adds sort fields, `limit` sets the limit,
    /// `cursor` the cursor, and each `field[op]` key adds a filter.
    pub fn parse(self, params: &Vec<(String, String)>) -> (r: Result<QuerySpec, QueryError>)
        ensures
            match parse_params(self.allowed(), pair_views(params@)) {
                Ok(q) => r matches Ok(spec) && spec@ == q,
                Err(e) => r == Err::<QuerySpec, QueryError>(e),
            },
    {
        let ghost ps = pair_views(params@);
        let mut filters: Vec<Filter> = Vec::new();
        let mut sort: Vec<SortField> = Vec::new();
        let mut limit: Option<usize> = None;
        let mut cursor: Option<String> = None;
        let mut i: usize = 0;
        assert(ps.take(0) =~= Seq::<(Seq<char>, Seq<char>)>::empty());
        assert(filter_views(filters@) =~= Seq::<FilterView>::empty());
        assert(sort_views(sort@) =~= Seq::<SortView>::empty());
        while i < params.len()
            invariant
                ps == pair_views(params@),
                i <= params.len(),
                parse_params(self.allowed(), ps.take(i as int)) == Ok::<QuerySpecView, QueryError>(
                    QuerySpecView {
                        filters: filter_views(filters@),
                        sort: sort_views(sort@),
                        limit,
                        cursor: opt_view(cursor),
                    },
                ),
            decreases params.len() - i,
        {
            let key = &params[i].0;
            let value = &params[i].1;
            let ghost q = QuerySpecView {
                filters: filter_views(filters@),
                sort: sort_views(sort@),
                limit,
                cursor: opt_view(cursor),
            };
            proof {
                assert(ps.take(i + 1).drop_last() =~= ps.take(i as int));
                assert(ps.take(i + 1).last() == (key@, value@));
                assert(parse_params(self.allowed(), ps.take(i + 1)) == apply_param(
                    self.allowed(),
                    q,
                    key@,
                    value@,
                ));
            }
            if str_eq(key.as_str(), "sort") {
                match self.parse_sort(value.as_str()) {
                    Ok(more) => {
                        let mut more = more;
                        let ghost before = sort@;
                        let ghost added = more@;
                        sort.append(&mut more);
                        assert(sort_views(sort@) =~= sort_views(before) + sort_views(added));
                    },
                    Err(e) => {
                        proof {
                            lemma_parse_params_err_extends(self.allowed(), ps, i as int + 1);
                        }
                        return Err(e);
                    },
                }
            } else if str_eq(key.as_str(), "limit") {
                match parse_u64(value.as_str()) {
                    Some(n) => {
                        if n <= usize::MAX as u64 {
                            limit = Some(n as usize);
                        } else {
                            proof {
                                lemma_parse_params_err_extends(self.allowed(), ps, i as int + 1);
                            }
                            return Err(QueryError::InvalidLimit);
                        }
                    },
                    None => {
                        proof {
                            lemma_parse_params_err_extends(self.allowed(), ps, i as int + 1);
                        }
                        return Err(QueryError::InvalidLimit);
                    },
                }
            } else if str_eq(key.as_str(), "cursor") {
                cursor = Some(value.clone());
            } else {
                match split_filter_key(key.as_str()) {
                    Some((field, op)) => {
                        if self.accepted_field(field.as_str()) {
                            let ghost before = filters@;
                            filters.push(Filter { field, operator: op, value: value.clone() });
                            assert(filter_views(filters@) =~= filter_views(before).push(filters@.last()@));
                        } else {
                            proof {
                                lemma_parse_params_err_extends(self.allowed(), ps, i as int + 1);
                            }
                            return Err(QueryError::InvalidSortField);
                        }
                    },
                    None => {
                        proof {
                            lemma_parse_params_err_extends(self.allowed(), ps, i as int + 1);
                        }
                        return Err(QueryError::InvalidParameter);
                    },
                }
            }
            i = i + 1;
        }
        assert(ps.take(i as int) =~= ps);
        Ok(QuerySpec { filters, sort, limit, cursor })
    }
}

/// Once the sort fields of a prefix are refused, those of every longer prefix are refused alike.
proof fn lemma_sort_fields_err_extends(allowed: Seq<Seq<char>>, ps: Seq<Seq<char>>, i: int)
    requires
        0 <= i <= ps.len(),
        sort_fields(allowed, ps.take(i)) is Err,
    ensures
        sort_fields(allowed, ps) == sort_fields(allowed, ps.take(i)),
    decreases ps.len() - i,
{
    if i < ps.len() {
        assert(ps.take(i + 1).drop_last() =~= ps.take(i));
        lemma_sort_fields_err_extends(allowed, ps, i + 1);
    } else {
        assert(ps.take(i) =~= ps);
    }
}

/// Once a prefix of the parameters is refused, every longer prefix is refused with the same error.
proof fn lemma_parse_params_err_extends(
    allowed: Seq<Seq<char>>,
    ps: Seq<(Seq<char>, Seq<char>)>,
    i: int,
)
    requires
        0 <= i <= ps.len(),
        parse_params(allowed, ps.take(i)) is Err,
    ensures
        parse_params(allowed, ps) == parse_params(allowed, ps.take(i)),
    decreases ps.len() - i,
{
    if i < ps.len() {
        assert(ps.take(i + 1).drop_last() =~= ps.take(i));
        lemma_parse_params_err_extends(allowed, ps, i + 1);
    } else {
        assert(ps.take(i) =~= ps);
    }
}

} // verus!
