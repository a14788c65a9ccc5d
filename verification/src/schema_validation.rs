//! Validation of JSON documents against per-field rules, with dotted paths into nested
//! objects and one structured error per broken rule.
use vstd::prelude::*;
use crate::json::{JsonNumber, JsonValue, member, text_of};
use crate::text::{
    chars_of, decimal, lemma_seq_lt_order, owned, push_decimal, push_str, seq_lt, split_on, split_str,
    str_contains_char, str_eq, str_lt, views,
};

verus! {

#[derive(Debug, Clone, PartialEq, Eq)]
pub struct FieldError {
    pub field: String,
    pub code: String,
    pub message: String,
}

pub struct FieldErrorView {
    pub field: Seq<char>,
    pub code: Seq<char>,
    pub message: Seq<char>,
}

impl View for FieldError {
    type V = FieldErrorView;

    open spec fn view(&self) -> FieldErrorView {
        FieldErrorView { field: self.field@, code: self.code@, message: self.message@ }
    }
}

pub open spec fn error_views(v: Seq<FieldError>) -> Seq<FieldErrorView> {
    v.map_values(|e: FieldError| e@)
}

#[derive(Debug, Clone, PartialEq, Eq)]
pub struct ValidationReport {
    pub valid: bool,
    pub errors: Vec<FieldError>,
}

impl ValidationReport {
    /// A report without errors.
    pub fn ok() -> (r: Self)
        ensures
            r.valid,
            r.errors@.len() == 0,
    {
        ValidationReport { valid: true, errors: Vec::new() }
    }

    /// A report of `errors`, valid when there are none.
    pub fn from_errors(errors: Vec<FieldError>) -> (r: Self)
        ensures
            r.valid == (errors@.len() == 0),
            r.errors@ == errors@,
    {
        let valid = errors.len() == 0;
        ValidationReport { valid, errors }
    }
}

#[derive(Debug, Clone, Copy, PartialEq, Eq, Structural)]
pub enum SchemaRule {
    Required,
    StringMin(usize),
    StringMax(usize),
    Email,
    Integer,
}

/// The rules of each field, the fields kept in string order.
#[derive(Debug, Clone)]
pub struct SchemaValidator {
    rules: Vec<(String, Vec<SchemaRule>)>,
}

pub open spec fn rule_entries(v: Seq<(String, Vec<SchemaRule>)>) -> Seq<(Seq<char>, Seq<SchemaRule>)> {
    v.map_values(|e: (String, Vec<SchemaRule>)| (e.0@, e.1@))
}

pub open spec fn fields_ordered(s: Seq<(Seq<char>, Seq<SchemaRule>)>) -> bool {
    forall|i: int, j: int| 0 <= i < j < s.len() ==> seq_lt(#[trigger] s[i].0, #[trigger] s[j].0)
}

/// `s` with `rule` added to the rules of `field`; a new field takes its place in string order.
pub open spec fn with_rule(s: Seq<(Seq<char>, Seq<SchemaRule>)>, field: Seq<char>, rule: SchemaRule) -> Seq<
    (Seq<char>, Seq<SchemaRule>),
>
    decreases s.len(),
{
    if s.len() == 0 {
        seq![(field, seq![rule])]
    } else if s[0].0 == field {
        seq![(field, s[0].1.push(rule))] + s.drop_first()
    } else if seq_lt(field, s[0].0) {
        seq![(field, seq![rule])] + s
    } else {
        seq![s[0]] + with_rule(s.drop_first(), field, rule)
    }
}

/// The value reached from `v` by the members named `parts`, in turn.
pub open spec fn path_value(v: JsonValue, parts: Seq<Seq<char>>) -> Option<JsonValue>
    decreases parts.len(),
{
    if parts.len() == 0 {
        Some(v)
    } else {
        match path_value(v, parts.drop_last()) {
            None => None,
            Some(c) => member(c, parts.last()),
        }
    }
}

/// The value at the dotted path `field` of `input`.
pub open spec fn field_value(input: JsonValue, field: Seq<char>) -> Option<JsonValue> {
    path_value(input, split_on(field, '.'))
}

pub open spec fn is_integer(v: JsonValue) -> bool {
    match v {
        JsonValue::Number(JsonNumber::PosInt(_)) => true,
        JsonValue::Number(JsonNumber::NegInt(_)) => true,
        _ => false,
    }
}

pub open spec fn field_error(field: Seq<char>, code: Seq<char>, message: Seq<char>) -> FieldErrorView {
    FieldErrorView { field, code, message }
}

/// The error that `rule` reports for `value` at `field`, if it reports one.
pub open spec fn rule_error(field: Seq<char>, value: Option<JsonValue>, rule: SchemaRule) -> Option<FieldErrorView> {
    let missing = match value {
        None => true,
        Some(v) => v is Null,
    };
    let text = match value {
        Some(v) => text_of(v),
        None => None,
    };
    match rule {
        SchemaRule::Required => if missing {
            Some(field_error(field, "required"@, "Field is required"@))
        } else {
            None
        },
        SchemaRule::StringMin(min) => if text matches Some(t) && t.len() < min {
            Some(
                field_error(field, "min_length"@, "Must be at least "@ + decimal(min as nat) + " characters"@),
            )
        } else {
            None
        },
        SchemaRule::StringMax(max) => if text matches Some(t) && t.len() > max {
            Some(
                field_error(
                    field,
                    "max_length"@,
                    "Must be no more than "@ + decimal(max as nat) + " characters"@,
                ),
            )
        } else {
            None
        },
        SchemaRule::Email => if text matches Some(t) && (!t.contains('@') || !t.contains('.')) {
            Some(field_error(field, "email"@, "Must be a valid email address"@))
        } else {
            None
        },
        SchemaRule::Integer => if value matches Some(v) && !is_integer(v) {
            Some(field_error(field, "integer"@, "Must be an integer"@))
        } else {
            None
        },
    }
}

/// The errors that `rules`, in order, report for `value` at `field`.
pub open spec fn rule_errors(field: Seq<char>, value: Option<JsonValue>, rules: Seq<SchemaRule>) -> Seq<
    FieldErrorView,
>
    decreases rules.len(),
{
    if rules.len() == 0 {
        Seq::empty()
    } else {
        let before = rule_errors(field, value, rules.drop_last());
        match rule_error(field, value, rules.last()) {
            Some(e) => before.push(e),
            None => before,
        }
    }
}

/// The errors of every field, fields in order.
pub open spec fn all_errors(input: JsonValue, entries: Seq<(Seq<char>, Seq<SchemaRule>)>) -> Seq<FieldErrorView>
    decreases entries.len(),
{
    if entries.len() == 0 {
        Seq::empty()
    } else {
        all_errors(input, entries.drop_last()) + rule_errors(
            entries.last().0,
            field_value(input, entries.last().0),
            entries.last().1,
        )
    }
}

proof fn lemma_with_rule(s: Seq<(Seq<char>, Seq<SchemaRule>)>, field: Seq<char>, rule: SchemaRule, i: int)
    requires
        fields_ordered(s),
        0 <= i <= s.len(),
        forall|j: int| 0 <= j < i ==> seq_lt(#[trigger] s[j].0, field),
        i < s.len() ==> !seq_lt(s[i].0, field),
    ensures
        i < s.len() && s[i].0 == field ==> with_rule(s, field, rule) == s.update(i, (field, s[i].1.push(rule))),
        !(i < s.len() && s[i].0 == field) ==> with_rule(s, field, rule) == s.insert(i, (field, seq![rule])),
        fields_ordered(with_rule(s, field, rule)),
    decreases s.len(),
{
    if s.len() > 0 {
        lemma_seq_lt_order(s[0].0, field, field);
        lemma_seq_lt_order(field, s[0].0, field);
    }
    if s.len() == 0 {
        assert(s.insert(i, (field, seq![rule])) =~= seq![(field, seq![rule])]);
    } else if i == 0 {
        if s[0].0 == field {
            assert(s.update(0, (field, s[0].1.push(rule))) =~= seq![(field, s[0].1.push(rule))] + s.drop_first());
        } else {
            assert(seq_lt(field, s[0].0));
            assert(s.insert(0, (field, seq![rule])) =~= seq![(field, seq![rule])] + s);
        }
    } else {
        let t = s.drop_first();
        assert(seq_lt(s[0].0, field));
        assert(s[0].0 != field && !seq_lt(field, s[0].0));
        assert forall|a: int, b: int| 0 <= a < b < t.len() implies seq_lt(#[trigger] t[a].0, #[trigger] t[b].0) by {
            assert(t[a] == s[a + 1]);
            assert(t[b] == s[b + 1]);
        }
        assert forall|j: int| 0 <= j < i - 1 implies seq_lt(#[trigger] t[j].0, field) by {
            assert(t[j] == s[j + 1]);
        }
        lemma_with_rule(t, field, rule, i - 1);
        if i < s.len() && s[i].0 == field {
            assert(s.update(i, (field, s[i].1.push(rule))) =~= seq![s[0]] + t.update(i - 1, (field, t[i - 1].1.push(rule))));
        } else {
            assert(s.insert(i, (field, seq![rule])) =~= seq![s[0]] + t.insert(i - 1, (field, seq![rule])));
        }
    }
    let w = with_rule(s, field, rule);
    if i < s.len() && s[i].0 == field {
        assert forall|a: int, b: int| 0 <= a < b < w.len() implies seq_lt(#[trigger] w[a].0, #[trigger] w[b].0) by {
            assert(w[a].0 == s[a].0);
            assert(w[b].0 == s[b].0);
        }
    } else {
        assert forall|a: int, b: int| 0 <= a < b < w.len() implies seq_lt(#[trigger] w[a].0, #[trigger] w[b].0) by {
            if b < i {
                assert(w[a] == s[a] && w[b] == s[b]);
            } else if b == i {
                assert(w[a] == s[a]);
            } else if a < i {
                assert(w[a] == s[a] && w[b] == s[b - 1]);
                lemma_seq_lt_order(s[a].0, field, s[i].0);
                if i < b - 1 {
                    lemma_seq_lt_order(s[a].0, s[i].0, s[b - 1].0);
                }
                lemma_seq_lt_order(field, s[i].0, s[b - 1].0);
                lemma_seq_lt_order(s[a].0, field, s[b - 1].0);
            } else if a == i {
                assert(w[b] == s[b - 1]);
                assert(seq_lt(field, s[i].0)) by {
                    lemma_seq_lt_order(s[i].0, field, field);
                }
                if b - 1 > i {
                    lemma_seq_lt_order(field, s[i].0, s[b - 1].0);
                }
            } else {
                assert(w[a] == s[a - 1] && w[b] == s[b - 1]);
            }
        }
    }
}

proof fn lemma_path_value_none_extends(v: JsonValue, parts: Seq<Seq<char>>, i: int)
    requires
        0 <= i <= parts.len(),
        path_value(v, parts.take(i)) is None,
    ensures
        path_value(v, parts) is None,
    decreases parts.len() - i,
{
    if i < parts.len() {
        assert(parts.take(i + 1).drop_last() =~= parts.take(i));
        lemma_path_value_none_extends(v, parts, i + 1);
    } else {
        assert(parts.take(i) =~= parts);
    }
}

/// The value at the dotted path `field` of `input`.
fn lookup_field<'a>(input: &'a JsonValue, field: &str) -> (r: Option<&'a JsonValue>)
    ensures
        match field_value(*input, field@) {
            Some(v) => r matches Some(x) && *x == v,
            None => r is None,
        },
{
    let parts = split_str(field, '.');
    let ghost ps = split_on(field@, '.');
    let mut current: &JsonValue = input;
    let mut i: usize = 0;
    assert(ps.take(0) =~= Seq::<Seq<char>>::empty());
    while i < parts.len()
        invariant
            views(parts@) == ps,
            ps == split_on(field@, '.'),
            i <= parts.len(),
            path_value(*input, ps.take(i as int)) == Some(*current),
        decreases parts.len() - i,
    {
        assert(ps.take(i + 1).drop_last() =~= ps.take(i as int));
        assert(ps.take(i + 1).last() == parts@[i as int]@);
        match current.get(parts[i].as_str()) {
            Some(next) => {
                current = next;
            },
            None => {
                proof {
                    lemma_path_value_none_extends(*input, ps, i + 1);
                }
                return None;
            },
        }
        i = i + 1;
    }
    assert(ps.take(i as int) =~= ps);
    Some(current)
}

fn make_error(field: &str, code: &str, message: String) -> (e: FieldError)
    ensures
        e@ == field_error(field@, code@, message@),
{
    FieldError { field: owned(field), code: owned(code), message }
}

fn length_message(prefix: &str, n: usize) -> (m: String)
    ensures
        m@ == prefix@ + decimal(n as nat) + " characters"@,
{
    let mut m = owned(prefix);
    push_decimal(&mut m, n as u64);
    push_str(&mut m, " characters");
    m
}

fn check_rule(field: &str, value: Option<&JsonValue>, rule: SchemaRule) -> (r: Option<FieldError>)
    ensures
        match rule_error(
            field@,
            match value {
                Some(v) => Some(*v),
                None => None,
            },
            rule,
        ) {
            Some(e) => r matches Some(x) && x@ == e,
            None => r is None,
        },
{
    let missing = match value {
        None => true,
        Some(v) => match v {
            JsonValue::Null => true,
            _ => false,
        },
    };
    let text: Option<&str> = match value {
        Some(v) => v.as_str(),
        None => None,
    };
    match rule {
        SchemaRule::Required => {
            if missing {
                Some(make_error(field, "required", owned("Field is required")))
            } else {
                None
            }
        },
        SchemaRule::StringMin(min) => match text {
            Some(t) => {
                if chars_of(t).len() < min {
                    Some(make_error(field, "min_length", length_message("Must be at least ", min)))
                } else {
                    None
                }
            },
            None => None,
        },
        SchemaRule::StringMax(max) => match text {
            Some(t) => {
                if chars_of(t).len() > max {
                    Some(make_error(field, "max_length", length_message("Must be no more than ", max)))
                } else {
                    None
                }
            },
            None => None,
        },
        SchemaRule::Email => match text {
            Some(t) => {
                if !str_contains_char(t, '@') || !str_contains_char(t, '.') {
                    Some(make_error(field, "email", owned("Must be a valid email address")))
                } else {
                    None
                }
            },
            None => None,
        },
        SchemaRule::Integer => match value {
            Some(v) => {
                let integer = match v {
                    JsonValue::Number(JsonNumber::PosInt(_)) => true,
                    JsonValue::Number(JsonNumber::NegInt(_)) => true,
                    _ => false,
                };
                if !integer {
                    Some(make_error(field, "integer", owned("Must be an integer")))
                } else {
                    None
                }
            },
            None => None,
        },
    }
}

impl SchemaValidator {
    /// The fields and their rules, in string order of the fields.
    pub closed spec fn entries(&self) -> Seq<(Seq<char>, Seq<SchemaRule>)> {
        rule_entries(self.rules@)
    }

    pub closed spec fn wf(&self) -> bool {
        fields_ordered(self.entries())
    }

    /// A validator without rules.
    pub fn new() -> (v: Self)
        ensures
            v.wf(),
            v.entries() == Seq::<(Seq<char>, Seq<SchemaRule>)>::empty(),
    {
        let v = SchemaValidator { rules: Vec::new() };
        assert(v.entries() =~= Seq::<(Seq<char>, Seq<SchemaRule>)>::empty());
        v
    }

    /// Adds `rule` to the rules of `field`.
    pub fn rule(self, field: &str, rule: SchemaRule) -> (v: Self)
        requires
            self.wf(),
        ensures
            v.wf(),
            v.entries() == with_rule(self.entries(), field@, rule),
    {
        let mut rules = self.rules;
        let ghost s = rule_entries(rules@);
        let mut i: usize = 0;
        while i < rules.len() && str_lt(rules[i].0.as_str(), field)
            invariant
                s == rule_entries(rules@),
                i <= rules.len(),
                forall|j: int| 0 <= j < i ==> seq_lt(#[trigger] s[j].0, field@),
            decreases rules.len() - i,
        {
            i = i + 1;
        }
        proof {
            lemma_with_rule(s, field@, rule, i as int);
        }
        if i < rules.len() && str_eq(rules[i].0.as_str(), field) {
            let (name, mut list) = rules.remove(i);
            list.push(rule);
            rules.insert(i, (name, list));
            assert(rule_entries(rules@) =~= s.update(i as int, (field@, s[i as int].1.push(rule))));
        } else {
            let mut list: Vec<SchemaRule> = Vec::new();
            list.push(rule);
            rules.insert(i, (owned(field), list));
            assert(rule_entries(rules@) =~= s.insert(i as int, (field@, seq![rule])));
        }
        SchemaValidator { rules }
    }

    /// `field` must be present and not null.
    pub fn required(self, field: &str) -> (v: Self)
        requires
            self.wf(),
        ensures
            v.wf(),
            v.entries() == with_rule(self.entries(), field@, SchemaRule::Required),
    {
        self.rule(field, SchemaRule::Required)
    }

    /// A string at `field` must have at least `length` characters.
    pub fn string_min(self, field: &str, length: usize) -> (v: Self)
        requires
            self.wf(),
        ensures
            v.wf(),
            v.entries() == with_rule(self.entries(), field@, SchemaRule::StringMin(length)),
    {
        self.rule(field, SchemaRule::StringMin(length))
    }

    /// A string at `field` must have at most `length` characters.
    pub fn string_max(self, field: &str, length: usize) -> (v: Self)
        requires
            self.wf(),
        ensures
            v.wf(),
            v.entries() == with_rule(self.entries(), field@, SchemaRule::StringMax(length)),
    {
        self.rule(field, SchemaRule::StringMax(length))
    }

    /// A string at `field` must contain `@` and `.`.
    pub fn email(self, field: &str) -> (v: Self)
        requires
            self.wf(),
        ensures
            v.wf(),
            v.entries() == with_rule(self.entries(), field@, SchemaRule::Email),
    {
        self.rule(field, SchemaRule::Email)
    }

    /// A value at `field` must be an integer.
    pub fn integer(self, field: &str) -> (v: Self)
        requires
            self.wf(),
        ensures
            v.wf(),
            v.entries() == with_rule(self.entries(), field@, SchemaRule::Integer),
    {
        self.rule(field, SchemaRule::Integer)
    }

    /// Checks every rule against `input`, fields in string order and each field's rules in the
    /// order they were added; the report is valid when no rule reports an error.
    pub fn validate(&self, input: &JsonValue) -> (r: ValidationReport)
        ensures
            error_views(r.errors@) == all_errors(*input, self.entries()),
            r.valid == (all_errors(*input, self.entries()).len() == 0),
    {
        let ghost es = self.entries();
        let mut errors: Vec<FieldError> = Vec::new();
        let mut i: usize = 0;
        assert(es.take(0) =~= Seq::<(Seq<char>, Seq<SchemaRule>)>::empty());
        assert(error_views(errors@) =~= Seq::<FieldErrorView>::empty());
        while i < self.rules.len()
            invariant
                es == self.entries(),
                i <= self.rules.len(),
                error_views(errors@) == all_errors(*input, es.take(i as int)),
            decreases self.rules.len() - i,
        {
            let field = self.rules[i].0.as_str();
            let rules = &self.rules[i].1;
            let value = lookup_field(input, field);
            let ghost value_spec = field_value(*input, field@);
            assert(match value {
                Some(v) => Some(*v),
                None => None,
            } == value_spec);
            let ghost base = error_views(errors@);
            let mut k: usize = 0;
            assert(rules@.take(0) =~= Seq::<SchemaRule>::empty());
            assert(base + rule_errors(field@, value_spec, rules@.take(0)) =~= base);
            while k < rules.len()
                invariant
                    k <= rules.len(),
                    error_views(errors@) == base + rule_errors(field@, value_spec, rules@.take(k as int)),
                    value_spec == match value {
                        Some(v) => Some(*v),
                        None => None,
                    },
                decreases rules.len() - k,
            {
                let ghost before = errors@;
                assert(rules@.take(k + 1).drop_last() =~= rules@.take(k as int));
                assert(rules@.take(k + 1).last() == rules@[k as int]);
                match check_rule(field, value, rules[k]) {
                    Some(e) => {
                        errors.push(e);
                        assert(error_views(errors@) =~= error_views(before).push(errors@.last()@));
                    },
                    None => {},
                }
                k = k + 1;
            }
            assert(rules@.take(k as int) =~= rules@);
            assert(es.take(i + 1).drop_last() =~= es.take(i as int));
            assert(es.take(i + 1).last() == (field@, rules@));
            i = i + 1;
        }
        assert(es.take(i as int) =~= es);
        ValidationReport::from_errors(errors)
    }
}

} // verus!
