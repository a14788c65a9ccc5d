//! Reusable, scoped project templates for media-editor timelines.
//!
//! A template's definition names its placeholders as `{{name}}`; materializing a version
//! replaces each placeholder with a supplied value.
use vstd::prelude::*;
use crate::text::{
    chars_of, clone_strings, contains_sub, contains_text, is_plain_name, occurs_at, is_safe_text, lemma_seq_lt_order, lookup, lookup_value,
    owned, pair_views, plain_name, push_char, push_str, safe_text, seq_lt, str_eq, str_lt, views,
};

verus! {

#[derive(Debug, Clone, Copy, PartialEq, Eq, Structural)]
pub enum TemplateError {
    InvalidId,
    InvalidScope,
    InvalidDefinition,
    Missing,
    Duplicate,
    Capacity,
    RevisionConflict,
    ScopeMismatch,
}

#[derive(Debug, Clone, PartialEq, Eq)]
pub struct ProjectTemplate {
    pub id: String,
    pub scope: String,
    pub version: u64,
    pub definition: String,
    pub placeholders: Vec<String>,
}

#[derive(Debug, Clone, PartialEq, Eq)]
pub struct MaterializedTemplate {
    pub template_id: String,
    pub version: u64,
    pub definition: String,
}

/// The mathematical value of a template.
pub struct TemplateView {
    pub id: Seq<char>,
    pub scope: Seq<char>,
    pub version: u64,
    pub definition: Seq<char>,
    pub placeholders: Seq<Seq<char>>,
}

impl View for ProjectTemplate {
    type V = TemplateView;

    open spec fn view(&self) -> TemplateView {
        TemplateView {
            id: self.id@,
            scope: self.scope@,
            version: self.version,
            definition: self.definition@,
            placeholders: views(self.placeholders@),
        }
    }
}

pub const MAX_NAME_BYTES: usize = 128;

pub const MAX_DEFINITION_BYTES: usize = 16384;

pub const MAX_VALUE_BYTES: usize = 4096;

/// `{{name}}`.
pub open spec fn braces(name: Seq<char>) -> Seq<char> {
    seq!['{', '{'] + name + seq!['}', '}']
}


/// Every non-overlapping occurrence of the non-empty `p` in `s`, from the left, replaced
/// by `w`.
pub open spec fn replace_all(s: Seq<char>, p: Seq<char>, w: Seq<char>) -> Seq<char>
    decreases s.len(),
{
    if p.len() == 0 || s.len() < p.len() {
        s
    } else if s.take(p.len() as int) == p {
        w + replace_all(s.skip(p.len() as int), p, w)
    } else {
        seq![s[0]] + replace_all(s.skip(1), p, w)
    }
}

/// `x` added to the strictly ordered `s` unless it is there already.
pub open spec fn insert_name(s: Seq<Seq<char>>, x: Seq<char>) -> Seq<Seq<char>>
    decreases s.len(),
{
    if s.len() == 0 || seq_lt(s.last(), x) {
        s.push(x)
    } else if s.last() == x {
        s
    } else {
        insert_name(s.drop_last(), x).push(s.last())
    }
}

/// The distinct names of `v`, in string order.
pub open spec fn sorted_names(v: Seq<Seq<char>>) -> Seq<Seq<char>>
    decreases v.len(),
{
    if v.len() == 0 {
        v
    } else {
        insert_name(sorted_names(v.drop_last()), v.last())
    }
}

pub open spec fn strictly_ordered(s: Seq<Seq<char>>) -> bool {
    forall|i: int, j: int| 0 <= i < j < s.len() ==> seq_lt(#[trigger] s[i], #[trigger] s[j])
}

pub open spec fn valid_name(s: Seq<char>) -> bool {
    plain_name(s, MAX_NAME_BYTES as nat)
}

pub open spec fn valid_definition(d: Seq<char>) -> bool {
    safe_text(d, MAX_DEFINITION_BYTES as nat)
}

/// Every name is valid and occurs braced in `definition`.
pub open spec fn names_fit(names: Seq<Seq<char>>, definition: Seq<char>) -> bool {
    forall|i: int| 0 <= i < names.len() ==> contains_sub(definition, braces(#[trigger] names[i]))
}

pub open spec fn names_valid(names: Seq<Seq<char>>) -> bool {
    forall|i: int| 0 <= i < names.len() ==> valid_name(#[trigger] names[i])
}

pub open spec fn template_ids(ts: Seq<TemplateView>) -> Seq<Seq<char>> {
    ts.map_values(|t: TemplateView| t.id)
}

/// The template `id`, if there is one.
pub open spec fn template_of(ts: Seq<TemplateView>, id: Seq<char>) -> Option<TemplateView> {
    if template_ids(ts).contains(id) {
        Some(ts[template_ids(ts).index_of(id)])
    } else {
        None
    }
}

/// Why `create` refuses a template, if it does.
pub open spec fn create_refusal(
    ts: Seq<TemplateView>,
    max: nat,
    id: Seq<char>,
    scope: Seq<char>,
    definition: Seq<char>,
    placeholders: Seq<Seq<char>>,
) -> Option<TemplateError> {
    let names = sorted_names(placeholders);
    if !valid_name(id) {
        Some(TemplateError::InvalidId)
    } else if !valid_name(scope) {
        Some(TemplateError::InvalidScope)
    } else if !valid_definition(definition) || !names_valid(names) || !names_fit(names, definition) {
        Some(TemplateError::InvalidDefinition)
    } else if ts.len() >= max {
        Some(TemplateError::Capacity)
    } else if template_ids(ts).contains(id) {
        Some(TemplateError::Duplicate)
    } else {
        None
    }
}

/// Why `update` refuses a new definition, if it does.
pub open spec fn update_refusal(
    ts: Seq<TemplateView>,
    id: Seq<char>,
    scope: Seq<char>,
    expected: u64,
    definition: Seq<char>,
) -> Option<TemplateError> {
    if !valid_definition(definition) {
        Some(TemplateError::InvalidDefinition)
    } else {
        match template_of(ts, id) {
            None => Some(TemplateError::Missing),
            Some(t) => if t.scope != scope {
                Some(TemplateError::ScopeMismatch)
            } else if t.version != expected {
                Some(TemplateError::RevisionConflict)
            } else if !names_fit(t.placeholders, definition) {
                Some(TemplateError::InvalidDefinition)
            } else {
                None
            },
        }
    }
}

/// `definition` with each of `names` replaced, in turn, by its value.
pub open spec fn fill(
    definition: Seq<char>,
    names: Seq<Seq<char>>,
    values: Seq<(Seq<char>, Seq<char>)>,
) -> Seq<char>
    decreases names.len(),
{
    if names.len() == 0 {
        definition
    } else {
        replace_all(
            fill(definition, names.drop_last(), values),
            braces(names.last()),
            lookup(values, names.last()).unwrap(),
        )
    }
}

/// Every name has a value, and the values are exactly as many as the names.
pub open spec fn values_cover(names: Seq<Seq<char>>, values: Seq<(Seq<char>, Seq<char>)>) -> bool {
    values.len() == names.len() && forall|i: int|
        0 <= i < names.len() ==> lookup(values, #[trigger] names[i]) is Some
}

pub open spec fn values_valid(names: Seq<Seq<char>>, values: Seq<(Seq<char>, Seq<char>)>) -> bool {
    forall|i: int|
        0 <= i < names.len() ==> safe_text(
            lookup(values, #[trigger] names[i]).unwrap(),
            MAX_VALUE_BYTES as nat,
        )
}

/// What `materialize` answers.
pub open spec fn materialized(
    ts: Seq<TemplateView>,
    id: Seq<char>,
    scope: Seq<char>,
    version: u64,
    values: Seq<(Seq<char>, Seq<char>)>,
) -> Result<(Seq<char>, u64, Seq<char>), TemplateError> {
    match template_of(ts, id) {
        None => Err(TemplateError::Missing),
        Some(t) => if t.scope != scope {
            Err(TemplateError::ScopeMismatch)
        } else if t.version != version {
            Err(TemplateError::RevisionConflict)
        } else if !values_cover(t.placeholders, values) || !values_valid(t.placeholders, values) {
            Err(TemplateError::InvalidDefinition)
        } else {
            Ok((t.id, t.version, fill(t.definition, t.placeholders, values)))
        },
    }
}

proof fn lemma_insert_name(s: Seq<Seq<char>>, x: Seq<char>, p: int)
    requires
        strictly_ordered(s),
        0 <= p <= s.len(),
        forall|j: int| 0 <= j < p ==> seq_lt(#[trigger] s[j], x),
        forall|j: int| p <= j < s.len() ==> !seq_lt(#[trigger] s[j], x),
    ensures
        p < s.len() && s[p] == x ==> insert_name(s, x) == s,
        !(p < s.len() && s[p] == x) ==> insert_name(s, x) == s.insert(p, x) && strictly_ordered(
            s.insert(p, x),
        ),
    decreases s.len(),
{
    if s.len() == 0 {
        assert(s.insert(p, x) =~= s.push(x));
    } else if seq_lt(s.last(), x) {
        assert(p == s.len());
        assert(s.insert(p, x) =~= s.push(x));
        assert forall|a: int, c: int| 0 <= a < c < s.len() + 1 implies seq_lt(
            #[trigger] s.insert(p, x)[a],
            #[trigger] s.insert(p, x)[c],
        ) by {
            if c == s.len() {
                if a < s.len() - 1 {
                    lemma_seq_lt_order(s[a], s.last(), x);
                }
            }
        }
    } else if s.last() == x {
        if p == s.len() {
            lemma_seq_lt_order(x, x, x);
        }
        if p < s.len() - 1 {
            assert(seq_lt(s[p], s[s.len() - 1]));
        }
        assert(p == s.len() - 1);
    } else {
        lemma_seq_lt_order(s.last(), x, s.last());
        assert(seq_lt(x, s.last()));
        let t = s.drop_last();
        if p == s.len() {
            assert(seq_lt(s[s.len() - 1], x));
        }
        assert forall|a: int, c: int| 0 <= a < c < t.len() implies seq_lt(#[trigger] t[a], #[trigger] t[c]) by {
            assert(t[a] == s[a] && t[c] == s[c]);
        }
        assert forall|j: int| 0 <= j < p implies seq_lt(#[trigger] t[j], x) by {
            assert(t[j] == s[j]);
        }
        assert forall|j: int| p <= j < t.len() implies !seq_lt(#[trigger] t[j], x) by {
            assert(t[j] == s[j]);
        }
        lemma_insert_name(t, x, p);
        if p < s.len() && s[p] == x {
            assert(t[p] == s[p]);
            assert(insert_name(s, x) =~= s);
        } else {
            if p < t.len() {
                assert(t[p] == s[p]);
            }
            assert(s.insert(p, x) =~= t.insert(p, x).push(s.last()));
            let r = s.insert(p, x);
            assert forall|a: int, c: int| 0 <= a < c < r.len() implies seq_lt(
                #[trigger] r[a],
                #[trigger] r[c],
            ) by {
                if c < p {
                    assert(r[a] == s[a] && r[c] == s[c]);
                } else if c == p {
                    assert(r[a] == s[a]);
                } else if a < p {
                    assert(r[a] == s[a] && r[c] == s[c - 1]);
                    assert(!seq_lt(s[c - 1], x));
                    lemma_seq_lt_order(s[c - 1], x, s[c - 1]);
                    if s[c - 1] != x {
                        lemma_seq_lt_order(r[a], x, r[c]);
                    }
                } else if a == p {
                    assert(r[c] == s[c - 1]);
                    lemma_seq_lt_order(s[c - 1], x, s[c - 1]);
                    if s[c - 1] == x {
                        assert(s[p] == x || p < c - 1);
                        if p < c - 1 {
                            assert(seq_lt(s[p], s[c - 1]));
                            assert(!seq_lt(s[p], x));
                        }
                    }
                } else {
                    assert(r[a] == s[a - 1] && r[c] == s[c - 1]);
                }
            }
        }
    }
}

/// The distinct strings of `v`, in string order.
pub fn sort_names(v: &Vec<String>) -> (r: Vec<String>)
    ensures
        views(r@) == sorted_names(views(v@)),
        strictly_ordered(views(r@)),
{
    let mut r: Vec<String> = Vec::new();
    let mut i: usize = 0;
    while i < v.len()
        invariant
            i <= v@.len(),
            views(r@) == sorted_names(views(v@).take(i as int)),
            strictly_ordered(views(r@)),
        decreases v@.len() - i,
    {
        let x = &v[i];
        let ghost s = views(r@);
        proof {
            assert(views(v@).take(i + 1).drop_last() =~= views(v@).take(i as int));
            assert(views(v@).take(i + 1).last() == x@);
        }
        let mut p: usize = 0;
        while p < r.len() && str_lt(r[p].as_str(), x.as_str())
            invariant
                s == views(r@),
                p <= s.len(),
                forall|j: int| 0 <= j < p ==> seq_lt(#[trigger] s[j], x@),
            decreases s.len() - p,
        {
            p = p + 1;
        }
        proof {
            assert forall|j: int| p <= j < s.len() implies !seq_lt(#[trigger] s[j], x@) by {
                assert(!seq_lt(s[p as int], x@));
                if j > p {
                    assert(seq_lt(s[p as int], s[j]));
                    lemma_seq_lt_order(s[p as int], s[j], x@);
                }
            }
            lemma_insert_name(s, x@, p as int);
        }
        if p < r.len() && str_eq(r[p].as_str(), x.as_str()) {
        } else {
            r.insert(p, x.clone());
            assert(views(r@) =~= s.insert(p as int, x@));
        }
        i = i + 1;
    }
    assert(views(v@).take(v@.len() as int) =~= views(v@));
    r
}


/// `{{name}}` as a string.
fn braced(name: &str) -> (r: String)
    ensures
        r@ == braces(name@),
{
    let mut r = String::new();
    push_char(&mut r, '{');
    push_char(&mut r, '{');
    push_str(&mut r, name);
    push_char(&mut r, '}');
    push_char(&mut r, '}');
    assert(r@ =~= braces(name@));
    r
}

/// Whether every name occurs braced in `definition`.
fn names_occur(names: &Vec<String>, definition: &str) -> (r: bool)
    ensures
        r == names_fit(views(names@), definition@),
{
    let mut k: usize = 0;
    while k < names.len()
        invariant
            k <= names@.len(),
            forall|j: int| 0 <= j < k ==> contains_sub(definition@, braces(#[trigger] views(names@)[j])),
        decreases names@.len() - k,
    {
        let b = braced(names[k].as_str());
        if !contains_text(definition, b.as_str()) {
            assert(!contains_sub(definition@, braces(views(names@)[k as int])));
            return false;
        }
        k = k + 1;
    }
    true
}

/// Whether every name has a value.
fn values_present(names: &Vec<String>, values: &Vec<(String, String)>) -> (r: bool)
    ensures
        r == forall|j: int| 0 <= j < names@.len() ==> lookup(pair_views(values@), #[trigger] views(names@)[j]) is Some,
{
    let mut k: usize = 0;
    while k < names.len()
        invariant
            k <= names@.len(),
            forall|j: int| 0 <= j < k ==> lookup(pair_views(values@), #[trigger] views(names@)[j]) is Some,
        decreases names@.len() - k,
    {
        if lookup_value(values, names[k].as_str()).is_none() {
            assert(lookup(pair_views(values@), views(names@)[k as int]) is None);
            return false;
        }
        k = k + 1;
    }
    true
}

/// `s` with every occurrence of the non-empty `p` replaced by `w`, from the left.
fn replace_text(s: &str, p: &str, w: &str) -> (r: String)
    requires
        p@.len() > 0,
    ensures
        r@ == replace_all(s@, p@, w@),
{
    let sv = chars_of(s);
    let pv = chars_of(p);
    let mut out = String::new();
    let mut i: usize = 0;
    assert(s@.skip(0) =~= s@);
    assert(out@ + replace_all(s@, p@, w@) =~= replace_all(s@, p@, w@));
    while i < sv.len()
        invariant
            sv@ == s@,
            pv@ == p@,
            p@.len() > 0,
            i <= sv@.len(),
            out@ + replace_all(s@.skip(i as int), p@, w@) == replace_all(s@, p@, w@),
        decreases sv@.len() - i,
    {
        let ghost rest = s@.skip(i as int);
        if occurs_at(&sv, &pv, i) {
            proof {
                assert(rest.take(p@.len() as int) =~= s@.subrange(i as int, i + p@.len()));
                assert(rest.skip(p@.len() as int) =~= s@.skip(i + p@.len()));
                assert(out@ + w@ + replace_all(s@.skip(i + p@.len()), p@, w@) =~= out@ + (w@
                    + replace_all(rest.skip(p@.len() as int), p@, w@)));
            }
            push_str(&mut out, w);
            i = i + pv.len();
        } else {
            proof {
                if rest.len() >= p@.len() {
                    assert(rest.take(p@.len() as int) =~= s@.subrange(i as int, i + p@.len()));
                }
                assert(rest.skip(1) =~= s@.skip(i + 1));
                assert(rest[0] == sv@[i as int]);
                assert(out@.push(sv@[i as int]) + replace_all(s@.skip(i + 1), p@, w@) =~= out@ + (
                seq![rest[0]] + replace_all(rest.skip(1), p@, w@)));
            }
            push_char(&mut out, sv[i]);
            i = i + 1;
        }
    }
    assert(s@.skip(i as int) =~= Seq::<char>::empty());
    assert(out@ + Seq::<char>::empty() =~= out@);
    out
}

fn copy_template(t: &ProjectTemplate) -> (c: ProjectTemplate)
    ensures
        c@ == t@,
{
    ProjectTemplate {
        id: t.id.clone(),
        scope: t.scope.clone(),
        version: t.version,
        definition: t.definition.clone(),
        placeholders: clone_strings(&t.placeholders),
    }
}

/// Up to `max_entries` templates, keyed by id.
#[derive(Debug)]
pub struct ProjectTemplateStore {
    templates: Vec<ProjectTemplate>,
    max_entries: usize,
}

pub open spec fn templates_wf(ts: Seq<TemplateView>) -> bool {
    &&& forall|i: int, j: int|
        0 <= i < ts.len() && 0 <= j < ts.len() && i != j ==> #[trigger] ts[i].id != #[trigger] ts[j].id
    &&& forall|i: int| 0 <= i < ts.len() ==> names_valid(#[trigger] ts[i].placeholders)
}

proof fn lemma_template_at(ts: Seq<TemplateView>, i: int)
    requires
        templates_wf(ts),
        0 <= i < ts.len(),
    ensures
        template_of(ts, ts[i].id) == Some(ts[i]),
{
    let ids = template_ids(ts);
    assert(ids[i] == ts[i].id);
    let k = ids.index_of(ts[i].id);
    assert(ids[k] == ts[k].id);
}

proof fn lemma_template_absent(ts: Seq<TemplateView>, id: Seq<char>)
    requires
        forall|i: int| 0 <= i < ts.len() ==> (#[trigger] ts[i]).id != id,
    ensures
        template_of(ts, id) is None,
{
    let ids = template_ids(ts);
    if ids.contains(id) {
        let k = ids.index_of(id);
        assert(ids[k] == ts[k].id);
    }
}

impl ProjectTemplateStore {
    /// The templates, in the order they were created.
    pub closed spec fn templates(&self) -> Seq<TemplateView> {
        self.templates@.map_values(|t: ProjectTemplate| t@)
    }

    pub closed spec fn max_entries(&self) -> nat {
        self.max_entries as nat
    }

    pub closed spec fn wf(&self) -> bool {
        &&& self.max_entries >= 1
        &&& templates_wf(self.templates())
    }

    /// An empty store for up to `max_entries` templates (at least one).
    pub fn new(max_entries: usize) -> (s: Self)
        ensures
            s.wf(),
            s.templates() == Seq::<TemplateView>::empty(),
            s.max_entries() == if max_entries >= 1 { max_entries as nat } else { 1 },
    {
        let s = ProjectTemplateStore {
            templates: Vec::new(),
            max_entries: if max_entries >= 1 { max_entries } else { 1 },
        };
        assert(s.templates() =~= Seq::<TemplateView>::empty());
        s
    }

    fn find(&self, id: &str) -> (r: Option<usize>)
        requires
            self.wf(),
        ensures
            r matches Some(i) ==> i < self.templates().len() && template_of(self.templates(), id@)
                == Some(self.templates()[i as int]),
            r is None ==> template_of(self.templates(), id@) is None,
    {
        let mut i: usize = 0;
        while i < self.templates.len()
            invariant
                self.wf(),
                i <= self.templates@.len(),
                forall|j: int| 0 <= j < i ==> (#[trigger] self.templates()[j]).id != id@,
            decreases self.templates@.len() - i,
        {
            if str_eq(self.templates[i].id.as_str(), id) {
                proof {
                    lemma_template_at(self.templates(), i as int);
                }
                return Some(i);
            }
            i = i + 1;
        }
        proof {
            lemma_template_absent(self.templates(), id@);
        }
        None
    }

    /// Whether every name is valid and occurs braced in `definition`.
    fn check_names(names: &Vec<String>, definition: &str) -> (r: bool)
        ensures
            r == (names_valid(views(names@)) && names_fit(views(names@), definition@)),
    {
        let mut i: usize = 0;
        while i < names.len()
            invariant
                i <= names@.len(),
                forall|j: int| 0 <= j < i ==> valid_name(#[trigger] views(names@)[j]) && contains_sub(
                    definition@,
                    braces(views(names@)[j]),
                ),
            decreases names@.len() - i,
        {
            let n = &names[i];
            if !is_plain_name(n.as_str(), MAX_NAME_BYTES) {
                assert(!valid_name(views(names@)[i as int]));
                return false;
            }
            let b = braced(n.as_str());
            if !contains_text(definition, b.as_str()) {
                assert(!contains_sub(definition@, braces(views(names@)[i as int])));
                return false;
            }
            i = i + 1;
        }
        true
    }

    /// Creates version 1 of template `id`; its placeholders are the distinct given names,
    /// sorted, each of which must occur as `{{name}}` in the definition.
    pub fn create(&mut self, id: &str, scope: &str, definition: &str, placeholders: Vec<String>) -> (r:
        Result<ProjectTemplate, TemplateError>)
        requires
            old(self).wf(),
        ensures
            final(self).wf(),
            final(self).max_entries() == old(self).max_entries(),
            match create_refusal(
                old(self).templates(),
                old(self).max_entries(),
                id@,
                scope@,
                definition@,
                views(placeholders@),
            ) {
                Some(e) => r == Err::<ProjectTemplate, _>(e) && final(self).templates() == old(self).templates(),
                None => r matches Ok(t) && t@ == (TemplateView {
                    id: id@,
                    scope: scope@,
                    version: 1,
                    definition: definition@,
                    placeholders: sorted_names(views(placeholders@)),
                }) && final(self).templates() == old(self).templates().push(t@),
            },
    {
        if !is_plain_name(id, MAX_NAME_BYTES) {
            return Err(TemplateError::InvalidId);
        }
        if !is_plain_name(scope, MAX_NAME_BYTES) {
            return Err(TemplateError::InvalidScope);
        }
        if !is_safe_text(definition, MAX_DEFINITION_BYTES) {
            return Err(TemplateError::InvalidDefinition);
        }
        let names = sort_names(&placeholders);
        if !Self::check_names(&names, definition) {
            return Err(TemplateError::InvalidDefinition);
        }
        if self.templates.len() >= self.max_entries {
            return Err(TemplateError::Capacity);
        }
        match self.find(id) {
            Some(_) => {
                proof {
                    let ts = self.templates();
                    let ids = template_ids(ts);
                    let k = ids.index_of(id@);
                    assert(ids.contains(id@));
                }
                return Err(TemplateError::Duplicate);
            },
            None => {},
        }
        let t = ProjectTemplate {
            id: owned(id),
            scope: owned(scope),
            version: 1,
            definition: owned(definition),
            placeholders: names,
        };
        let ghost before = self.templates();
        self.templates.push(copy_template(&t));
        proof {
            let after = self.templates();
            assert(after =~= before.push(t@));
            assert(!template_ids(before).contains(id@));
            assert forall|a: int, c: int|
                0 <= a < after.len() && 0 <= c < after.len() && a != c implies #[trigger] after[a].id
                != #[trigger] after[c].id by {
                if a < before.len() {
                    assert(template_ids(before)[a] == before[a].id);
                }
                if c < before.len() {
                    assert(template_ids(before)[c] == before[c].id);
                }
            }
            assert forall|a: int| 0 <= a < after.len() implies names_valid(#[trigger] after[a].placeholders) by {
                if a < before.len() {
                    assert(after[a] == before[a]);
                }
            }
        }
        Ok(t)
    }

    /// Replaces the definition of the current version `expected_version` of template `id`
    /// in `scope`, and moves to the next version; every placeholder must still occur.
    pub fn update(&mut self, id: &str, scope: &str, expected_version: u64, definition: &str) -> (r:
        Result<ProjectTemplate, TemplateError>)
        requires
            old(self).wf(),
            template_of(old(self).templates(), id@) matches Some(t) ==> t.version < u64::MAX,
        ensures
            final(self).wf(),
            final(self).max_entries() == old(self).max_entries(),
            match update_refusal(old(self).templates(), id@, scope@, expected_version, definition@) {
                Some(e) => r == Err::<ProjectTemplate, _>(e) && final(self).templates() == old(self).templates(),
                None => {
                    let t = template_of(old(self).templates(), id@).unwrap();
                    let n = TemplateView {
                        version: (t.version + 1) as u64,
                        definition: definition@,
                        ..t
                    };
                    &&& r matches Ok(x) && x@ == n
                    &&& final(self).templates() == old(self).templates().update(
                        template_ids(old(self).templates()).index_of(id@),
                        n,
                    )
                },
            },
    {
        if !is_safe_text(definition, MAX_DEFINITION_BYTES) {
            return Err(TemplateError::InvalidDefinition);
        }
        let i = match self.find(id) {
            None => {
                return Err(TemplateError::Missing);
            },
            Some(i) => i,
        };
        let ghost before = self.templates();
        proof {
            let ids = template_ids(before);
            let k = ids.index_of(id@);
            assert(ids[k] == before[k].id);
            lemma_template_at(before, k);
            assert(before[i as int].id == before[k].id);
            if i != k {
                assert(before[i as int].id != before[k].id);
            }
        }
        let t = &self.templates[i];
        if !str_eq(t.scope.as_str(), scope) {
            return Err(TemplateError::ScopeMismatch);
        }
        if t.version != expected_version {
            return Err(TemplateError::RevisionConflict);
        }
        if !names_occur(&t.placeholders, definition) {
            return Err(TemplateError::InvalidDefinition);
        }
        let n = ProjectTemplate {
            id: t.id.clone(),
            scope: t.scope.clone(),
            version: t.version + 1,
            definition: owned(definition),
            placeholders: clone_strings(&t.placeholders),
        };
        let result = copy_template(&n);
        self.templates.set(i, n);
        proof {
            let after = self.templates();
            assert(after =~= before.update(i as int, result@));
            assert forall|a: int, c: int|
                0 <= a < after.len() && 0 <= c < after.len() && a != c implies #[trigger] after[a].id
                != #[trigger] after[c].id by {
                assert(after[a].id == before[a].id && after[c].id == before[c].id);
            }
            assert forall|a: int| 0 <= a < after.len() implies names_valid(#[trigger] after[a].placeholders) by {
                assert(after[a].placeholders == before[a].placeholders);
            }
        }
        Ok(result)
    }

    /// The definition of version `version` of template `id` in `scope` with each
    /// placeholder replaced by its value; exactly the placeholders must be given, each a
    /// non-empty value of at most 4096 bytes without control characters. A key given twice
    /// counts with its first value.
    pub fn materialize(&self, id: &str, scope: &str, version: u64, values: Vec<(String, String)>) -> (r:
        Result<MaterializedTemplate, TemplateError>)
        requires
            self.wf(),
        ensures
            match materialized(self.templates(), id@, scope@, version, pair_views(values@)) {
                Ok((tid, v, d)) => r matches Ok(m) && m.template_id@ == tid && m.version == v
                    && m.definition@ == d,
                Err(e) => r == Err::<MaterializedTemplate, _>(e),
            },
    {
        let i = match self.find(id) {
            None => {
                return Err(TemplateError::Missing);
            },
            Some(i) => i,
        };
        let t = &self.templates[i];
        if !str_eq(t.scope.as_str(), scope) {
            return Err(TemplateError::ScopeMismatch);
        }
        if t.version != version {
            return Err(TemplateError::RevisionConflict);
        }
        let ghost names = views(t.placeholders@);
        let ghost vals = pair_views(values@);
        proof {
            assert(names_valid(names)) by {
                let ts = self.templates();
                assert(t@ == ts[i as int]);
            }
        }
        if values.len() != t.placeholders.len() {
            assert(vals.len() != names.len());
            return Err(TemplateError::InvalidDefinition);
        }
        if !values_present(&t.placeholders, &values) {
            return Err(TemplateError::InvalidDefinition);
        }
        let ghost tv = t@;
        let mut out = t.definition.clone();
        let mut k: usize = 0;
        while k < t.placeholders.len()
            invariant
                names == views(t.placeholders@),
                tv == t@,
                template_of(self.templates(), id@) == Some(tv),
                tv.scope == scope@,
                tv.version == version,
                names_valid(names),
                vals == pair_views(values@),
                values_cover(names, vals),
                k <= names.len(),
                forall|j: int| 0 <= j < k ==> safe_text(
                    lookup(vals, #[trigger] names[j]).unwrap(),
                    MAX_VALUE_BYTES as nat,
                ),
                out@ == fill(t.definition@, names.take(k as int), vals),
            decreases names.len() - k,
        {
            let n = t.placeholders[k].as_str();
            let v = match lookup_value(&values, n) {
                Some(v) => v,
                None => {
                    assert(lookup(vals, names[k as int]) is Some);
                    return Err(TemplateError::InvalidDefinition);
                },
            };
            if !is_safe_text(v.as_str(), MAX_VALUE_BYTES) {
                assert(!values_valid(names, vals));
                return Err(TemplateError::InvalidDefinition);
            }
            let b = braced(n);
            proof {
                assert(valid_name(names[k as int]));
                assert(names.take(k + 1).drop_last() =~= names.take(k as int));
                assert(names.take(k + 1).last() == names[k as int]);
            }
            out = replace_text(out.as_str(), b.as_str(), v.as_str());
            k = k + 1;
        }
        assert(names.take(names.len() as int) =~= names);
        Ok(MaterializedTemplate { template_id: t.id.clone(), version: t.version, definition: out })
    }
}

} // verus!
