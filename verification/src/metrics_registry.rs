//! A registry of typed metrics with declared label sets and a bound on the number of label
//! series per metric.
//!
//! The registry decides every update: which metric, which series, whether the series may be
//! added, and whether the stored value has the right kind. It keeps counter values itself;
//! gauge and histogram readings are kept by the caller under the value key it is given.
use vstd::prelude::*;
use crate::text::{
    char_is_ascii_alphanumeric, chars_of, contains_str, is_ascii_alphanumeric, join, owned, pair_views,
    push_str, str_eq, views,
};

verus! {

#[derive(Debug, Clone, Copy, PartialEq, Eq, Structural)]
pub enum MetricError {
    InvalidName,
    InvalidLabel,
    UnknownMetric,
    WrongKind,
    CardinalityLimit,
}

#[derive(Debug, Clone, Copy, PartialEq, Eq, Structural)]
pub enum MetricKind {
    Counter,
    Gauge,
    Histogram,
}

/// A metric or label name: non-empty, ASCII letters, digits and underscores.
pub open spec fn valid_name(s: Seq<char>) -> bool {
    s.len() > 0 && forall|i: int| 0 <= i < s.len() ==> is_ascii_alphanumeric(#[trigger] s[i]) || s[i] == '_'
}

/// The value of the first entry named `key`.
pub open spec fn entry<V>(s: Seq<(Seq<char>, V)>, key: Seq<char>) -> Option<V> {
    if exists|i: int| 0 <= i < s.len() && (#[trigger] s[i]).0 == key {
        Some(s[choose|i: int| 0 <= i < s.len() && (#[trigger] s[i]).0 == key].1)
    } else {
        None
    }
}

/// The entries with `key` set to `value`: replaced where it is, added last otherwise.
pub open spec fn set_entry<V>(s: Seq<(Seq<char>, V)>, key: Seq<char>, value: V) -> Seq<(Seq<char>, V)> {
    if exists|i: int| 0 <= i < s.len() && (#[trigger] s[i]).0 == key {
        s.update(choose|i: int| 0 <= i < s.len() && (#[trigger] s[i]).0 == key, (key, value))
    } else {
        s.push((key, value))
    }
}

pub open spec fn distinct_keys<V>(s: Seq<(Seq<char>, V)>) -> bool {
    forall|i: int, j: int| 0 <= i < j < s.len() ==> (#[trigger] s[i]).0 != (#[trigger] s[j]).0
}

proof fn lemma_entry_at<V>(s: Seq<(Seq<char>, V)>, i: int)
    requires
        distinct_keys(s),
        0 <= i < s.len(),
    ensures
        entry(s, s[i].0) == Some(s[i].1),
{
    let k = choose|k: int| 0 <= k < s.len() && (#[trigger] s[k]).0 == s[i].0;
    if k != i {
        assert(s[k].0 == s[i].0);
    }
}

/// Setting an entry keeps the keys distinct, reads back the new value and leaves the other
/// keys as they were.
pub proof fn lemma_set_entry<V>(s: Seq<(Seq<char>, V)>, key: Seq<char>, value: V)
    requires
        distinct_keys(s),
    ensures
        distinct_keys(set_entry(s, key, value)),
        entry(set_entry(s, key, value), key) == Some(value),
        forall|other: Seq<char>| other != key ==> #[trigger] entry(set_entry(s, key, value), other) == entry(s, other),
{
    let w = set_entry(s, key, value);
    let found = exists|i: int| 0 <= i < s.len() && (#[trigger] s[i]).0 == key;
    let k = if found {
        choose|i: int| 0 <= i < s.len() && (#[trigger] s[i]).0 == key
    } else {
        s.len() as int
    };
    assert forall|a: int, b: int| 0 <= a < b < w.len() implies (#[trigger] w[a]).0 != (#[trigger] w[b]).0 by {
        if found {
            assert(w[a].0 == s[a].0 && w[b].0 == s[b].0);
        } else if b < s.len() {
            assert(w[a] == s[a] && w[b] == s[b]);
        } else {
            assert(w[a] == s[a]);
        }
    }
    assert(w[k] == (key, value));
    lemma_entry_at(w, k);
    assert forall|other: Seq<char>| other != key implies #[trigger] entry(w, other) == entry(s, other) by {
        if exists|i: int| 0 <= i < s.len() && (#[trigger] s[i]).0 == other {
            let j = choose|i: int| 0 <= i < s.len() && (#[trigger] s[i]).0 == other;
            lemma_entry_at(s, j);
            assert(w[j] == s[j]);
            lemma_entry_at(w, j);
        } else {
            assert forall|i: int| 0 <= i < w.len() implies (#[trigger] w[i]).0 != other by {
                if i < s.len() {
                    assert(w[i].0 == s[i].0);
                }
            }
        }
    }
}

fn find_key<V>(v: &Vec<(String, V)>, key: &str) -> (r: Option<usize>)
    ensures
        r matches Some(i) ==> i < v@.len() && v@[i as int].0@ == key@,
        r is None ==> forall|i: int| 0 <= i < v@.len() ==> (#[trigger] v@[i]).0@ != key@,
{
    let mut i: usize = 0;
    while i < v.len()
        invariant
            i <= v.len(),
            forall|j: int| 0 <= j < i ==> (#[trigger] v@[j]).0@ != key@,
        decreases v.len() - i,
    {
        if str_eq(v[i].0.as_str(), key) {
            return Some(i);
        }
        i = i + 1;
    }
    None
}

pub open spec fn keyed<V>(v: Seq<(String, V)>) -> Seq<(Seq<char>, V)> {
    v.map_values(|e: (String, V)| (e.0@, e.1))
}

fn set_key<V>(v: &mut Vec<(String, V)>, key: &str, value: V)
    requires
        distinct_keys(keyed(old(v)@)),
    ensures
        distinct_keys(keyed(final(v)@)),
        keyed(final(v)@) == set_entry(keyed(old(v)@), key@, value),
{
    let ghost s = keyed(v@);
    proof {
        lemma_set_entry(s, key@, value);
    }
    match find_key(v, key) {
        Some(i) => {
            proof {
                let k = choose|k: int| 0 <= k < s.len() && (#[trigger] s[k]).0 == key@;
                assert(s[i as int].0 == key@);
                if k != i {
                    assert(s[k].0 == s[i as int].0);
                }
            }
            let name = v[i].0.clone();
            v.set(i, (name, value));
            assert(keyed(v@) =~= s.update(i as int, (key@, value)));
        },
        None => {
            proof {
                assert forall|i: int| 0 <= i < s.len() implies (#[trigger] s[i]).0 != key@ by {
                    assert(s[i].0 == v@[i].0@);
                }
            }
            v.push((owned(key), value));
            assert(keyed(v@) =~= s.push((key@, value)));
        },
    }
}

fn get_key<'a, V>(v: &'a Vec<(String, V)>, key: &str) -> (r: Option<&'a V>)
    requires
        distinct_keys(keyed(v@)),
    ensures
        match entry(keyed(v@), key@) {
            Some(x) => r == Some(&x),
            None => r is None,
        },
{
    let ghost s = keyed(v@);
    match find_key(v, key) {
        Some(i) => {
            proof {
                assert(s[i as int].0 == key@);
                lemma_entry_at(s, i as int);
            }
            Some(&v[i].1)
        },
        None => {
            proof {
                assert forall|i: int| 0 <= i < s.len() implies (#[trigger] s[i]).0 != key@ by {
                    assert(s[i].0 == v@[i].0@);
                }
            }
            None
        },
    }
}

/// A metric's definition: its kind, the names of its labels, and how many label series it
/// may have.
#[derive(Debug, Clone, PartialEq, Eq)]
pub struct Definition {
    pub kind: MetricKind,
    pub labels: Vec<String>,
    pub max_series: usize,
}

/// The series key of a label set: `name=value` pieces joined by commas, in the given order.
pub open spec fn series_key(labels: Seq<(Seq<char>, Seq<char>)>) -> Seq<char> {
    join(labels.map_values(|l: (Seq<char>, Seq<char>)| l.0 + seq!['='] + l.1), seq![','])
}

/// The key a value is stored under: `name{series}`.
pub open spec fn value_key(name: Seq<char>, series: Seq<char>) -> Seq<char> {
    name + seq!['{'] + series + seq!['}']
}

/// The names of a label set.
pub open spec fn label_names(given: Seq<(Seq<char>, Seq<char>)>) -> Seq<Seq<char>> {
    given.map_values(|l: (Seq<char>, Seq<char>)| l.0)
}

/// Whether the label names given are exactly the declared ones.
pub open spec fn same_label_names(declared: Seq<Seq<char>>, given: Seq<(Seq<char>, Seq<char>)>) -> bool {
    declared.to_set() == label_names(given).to_set()
}

/// What recording a `kind` value of metric `name` under `labels` does, given the definition,
/// the metric's series and the kind of the value already stored under its key: the value
/// key, or why it is refused.
pub open spec fn record_outcome(
    def: Option<Definition>,
    kind: MetricKind,
    labels: Seq<(Seq<char>, Seq<char>)>,
    series: Seq<Seq<char>>,
) -> Result<(), MetricError> {
    match def {
        None => Err(MetricError::UnknownMetric),
        Some(d) => if d.kind != kind {
            Err(MetricError::WrongKind)
        } else if !same_label_names(views(d.labels@), labels) {
            Err(MetricError::InvalidLabel)
        } else if !series.contains(series_key(labels)) && series.len() >= d.max_series {
            Err(MetricError::CardinalityLimit)
        } else {
            Ok(())
        },
    }
}

/// The series recorded so far for metric `name`.
pub open spec fn series_or_empty(series_of: Seq<(Seq<char>, Seq<Seq<char>>)>, name: Seq<char>) -> Seq<Seq<char>> {
    match entry(series_of, name) {
        Some(s) => s,
        None => Seq::empty(),
    }
}

/// Whether updating a `kind` value of metric `name` under `labels` succeeds, given the
/// registry's definitions, series and stored kinds; or why it is refused.
pub open spec fn update_outcome(
    defs: Seq<(Seq<char>, Definition)>,
    series_of: Seq<(Seq<char>, Seq<Seq<char>>)>,
    value_kinds: Seq<(Seq<char>, MetricKind)>,
    name: Seq<char>,
    labels: Seq<(Seq<char>, Seq<char>)>,
    kind: MetricKind,
) -> Result<(), MetricError> {
    match record_outcome(entry(defs, name), kind, labels, series_or_empty(series_of, name)) {
        Err(e) => Err(e),
        Ok(()) => match entry(value_kinds, value_key(name, series_key(labels))) {
            Some(k) => if k == kind {
                Ok(())
            } else {
                Err(MetricError::WrongKind)
            },
            None => Ok(()),
        },
    }
}

/// A counter's value after adding `amount`: saturating, or `amount` for a new counter.
pub open spec fn incremented(current: Option<u64>, amount: u64) -> u64 {
    match current {
        Some(c) => if c as int + amount as int > u64::MAX as int {
            u64::MAX
        } else {
            (c + amount) as u64
        },
        None => amount,
    }
}

/// Definitions, series and counter values of typed metrics.
#[derive(Debug)]
pub struct MetricsRegistry {
    definitions: Vec<(String, Definition)>,
    series: Vec<(String, Vec<String>)>,
    kinds: Vec<(String, MetricKind)>,
    counters: Vec<(String, u64)>,
}

impl MetricsRegistry {
    pub closed spec fn defs(&self) -> Seq<(Seq<char>, Definition)> {
        keyed(self.definitions@)
    }

    /// The series of each metric that has any.
    pub closed spec fn series_of(&self) -> Seq<(Seq<char>, Seq<Seq<char>>)> {
        series_views(keyed(self.series@))
    }

    /// The kind of the value stored under each value key.
    pub closed spec fn value_kinds(&self) -> Seq<(Seq<char>, MetricKind)> {
        keyed(self.kinds@)
    }

    /// The counter values, by value key.
    pub closed spec fn counter_values(&self) -> Seq<(Seq<char>, u64)> {
        keyed(self.counters@)
    }

    pub closed spec fn wf(&self) -> bool {
        &&& distinct_keys(self.defs())
        &&& distinct_keys(keyed(self.series@))
        &&& distinct_keys(self.value_kinds())
        &&& distinct_keys(self.counter_values())
    }

    pub fn new() -> (r: Self)
        ensures
            r.wf(),
            r.defs().len() == 0,
            r.series_of().len() == 0,
            r.value_kinds().len() == 0,
            r.counter_values().len() == 0,
    {
        let r = MetricsRegistry { definitions: Vec::new(), series: Vec::new(), kinds: Vec::new(), counters: Vec::new() };
        assert(r.defs() =~= Seq::<(Seq<char>, Definition)>::empty());
        assert(keyed(r.series@) =~= Seq::<(Seq<char>, Vec<String>)>::empty());
        assert(r.series_of() =~= Seq::<(Seq<char>, Seq<Seq<char>>)>::empty());
        assert(r.value_kinds() =~= Seq::<(Seq<char>, MetricKind)>::empty());
        assert(r.counter_values() =~= Seq::<(Seq<char>, u64)>::empty());
        r
    }

    /// Defines (or redefines) metric `name` of `kind` with label names `labels`, allowing
    /// `max_series` label series.
    pub fn define(&mut self, name: &str, kind: MetricKind, labels: Vec<String>, max_series: usize) -> (r: Result<
        (),
        MetricError,
    >)
        requires
            old(self).wf(),
        ensures
            final(self).wf(),
            !valid_name(name@) ==> r == Err::<(), MetricError>(MetricError::InvalidName) && final(self).defs()
                == old(self).defs(),
            valid_name(name@) && (exists|i: int| 0 <= i < labels@.len() && !valid_name(#[trigger] labels@[i]@))
                ==> r == Err::<(), MetricError>(MetricError::InvalidLabel) && final(self).defs() == old(self).defs(),
            valid_name(name@) && (forall|i: int| 0 <= i < labels@.len() ==> valid_name(#[trigger] labels@[i]@))
                ==> r is Ok && final(self).defs() == set_entry(
                old(self).defs(),
                name@,
                Definition { kind, labels, max_series },
            ),
            final(self).series_of() == old(self).series_of(),
            final(self).value_kinds() == old(self).value_kinds(),
            final(self).counter_values() == old(self).counter_values(),
    {
        if !is_valid_name(name) {
            return Err(MetricError::InvalidName);
        }
        if !all_valid_names(&labels) {
            return Err(MetricError::InvalidLabel);
        }
        set_key(&mut self.definitions, name, Definition { kind, labels, max_series });
        Ok(())
    }

    /// Records that a `kind` value of metric `name` is being updated under `labels` (given in
    /// key order): checks the definition, the label names and the series bound, adds the
    /// series, and checks the kind of the value already stored. Gives the value key and
    /// whether a value is stored under it already.
    pub fn record(&mut self, name: &str, labels: &Vec<(String, String)>, kind: MetricKind) -> (r: Result<
        (String, bool),
        MetricError,
    >)
        requires
            old(self).wf(),
        ensures
            final(self).wf(),
            final(self).defs() == old(self).defs(),
            final(self).counter_values() == old(self).counter_values(),
            ({
                let series = match entry(old(self).series_of(), name@) {
                    Some(s) => s,
                    None => Seq::empty(),
                };
                let key = value_key(name@, series_key(pair_views(labels@)));
                match record_outcome(entry(old(self).defs(), name@), kind, pair_views(labels@), series) {
                    Err(e) => r == Err::<(String, bool), MetricError>(e) && final(self).series_of() == old(
                        self,
                    ).series_of() && final(self).value_kinds() == old(self).value_kinds(),
                    Ok(()) => {
                        &&& entry(final(self).series_of(), name@) matches Some(s2) && s2.to_set() == series.to_set().insert(
                            series_key(pair_views(labels@)),
                        )
                        &&& match entry(old(self).value_kinds(), key) {
                            Some(k) => if k == kind {
                                r matches Ok((x, true)) && x@ == key && final(self).value_kinds() == old(
                                    self,
                                ).value_kinds()
                            } else {
                                r == Err::<(String, bool), MetricError>(MetricError::WrongKind)
                                    && final(self).value_kinds() == old(self).value_kinds()
                            },
                            None => r matches Ok((x, false)) && x@ == key && final(self).value_kinds() == set_entry(
                                old(self).value_kinds(),
                                key,
                                kind,
                            ),
                        }
                    },
                }
            }),
    {
        let def = match get_key(&self.definitions, name) {
            Some(d) => d,
            None => return Err(MetricError::UnknownMetric),
        };
        if def.kind != kind {
            return Err(MetricError::WrongKind);
        }
        if !same_labels(&def.labels, labels) {
            return Err(MetricError::InvalidLabel);
        }
        let max_series = def.max_series;
        let skey = make_series_key(labels);
        let ghost old_series_of = self.series_of();
        let mut list: Vec<String> = match get_key(&self.series, name) {
            Some(l) => crate::text::clone_strings(l),
            None => Vec::new(),
        };
        proof {
            lemma_series_entry(keyed(self.series@), name@);
        }
        let present = contains_str(&list, skey.as_str());
        if !present && list.len() >= max_series {
            return Err(MetricError::CardinalityLimit);
        }
        let ghost before = views(list@);
        if !present {
            list.push(skey.clone());
            assert(views(list@) =~= before.push(skey@));
        }
        proof {
            assert(views(list@).to_set() =~= before.to_set().insert(skey@)) by {
                assert forall|x: Seq<char>| views(list@).to_set().contains(x) <==> before.to_set().insert(skey@).contains(x) by {
                    if views(list@).contains(x) {
                        let k = choose|k: int| 0 <= k < views(list@).len() && views(list@)[k] == x;
                        if k < before.len() {
                            assert(before[k] == x);
                        }
                    }
                    if before.contains(x) {
                        let k = choose|k: int| 0 <= k < before.len() && before[k] == x;
                        assert(views(list@)[k] == x);
                    }
                    if x == skey@ && !present {
                        assert(views(list@)[before.len() as int] == x);
                    }
                }
            }
        }
        let ghost list_view = list;
        set_key(&mut self.series, name, list);
        proof {
            lemma_set_entry(keyed(old(self).series@), name@, list_view);
            lemma_series_entry(keyed(self.series@), name@);
        }
        let mut key = owned(name);
        crate::text::push_char(&mut key, '{');
        push_str(&mut key, skey.as_str());
        crate::text::push_char(&mut key, '}');
        assert(key@ =~= value_key(name@, skey@));
        match get_key(&self.kinds, key.as_str()) {
            Some(k) => {
                if *k == kind {
                    Ok((key, true))
                } else {
                    Err(MetricError::WrongKind)
                }
            },
            None => {
                set_key(&mut self.kinds, key.as_str(), kind);
                Ok((key, false))
            },
        }
    }

    /// Adds `amount` to counter `name` under `labels` (saturating), creating it at `amount`.
    pub fn increment(&mut self, name: &str, labels: &Vec<(String, String)>, amount: u64) -> (r: Result<
        (),
        MetricError,
    >)
        requires
            old(self).wf(),
        ensures
            final(self).wf(),
            final(self).defs() == old(self).defs(),
            r == update_outcome(
                old(self).defs(),
                old(self).series_of(),
                old(self).value_kinds(),
                name@,
                pair_views(labels@),
                MetricKind::Counter,
            ),
            r is Ok ==> ({
                let key = value_key(name@, series_key(pair_views(labels@)));
                &&& final(self).counter_values() == set_entry(
                    old(self).counter_values(),
                    key,
                    incremented(entry(old(self).counter_values(), key), amount),
                )
                &&& entry(final(self).series_of(), name@) matches Some(s2) && s2.to_set() == series_or_empty(
                    old(self).series_of(),
                    name@,
                ).to_set().insert(series_key(pair_views(labels@)))
                &&& entry(final(self).value_kinds(), key) == Some(MetricKind::Counter)
                &&& forall|other: Seq<char>|
                    other != key ==> #[trigger] entry(final(self).value_kinds(), other) == entry(
                        old(self).value_kinds(),
                        other,
                    )
            }),
            r is Err ==> final(self).counter_values() == old(self).counter_values(),
    {
        let ghost old_kinds = self.value_kinds();
        let (key, _) = match self.record(name, labels, MetricKind::Counter) {
            Ok(x) => x,
            Err(e) => return Err(e),
        };
        proof {
            lemma_set_entry(old_kinds, key@, MetricKind::Counter);
        }
        let current = match get_key(&self.counters, key.as_str()) {
            Some(c) => Some(*c),
            None => None,
        };
        let next = match current {
            Some(c) => c.saturating_add(amount),
            None => amount,
        };
        let ghost before = self.counter_values();
        set_key(&mut self.counters, key.as_str(), next);
        proof {
            lemma_set_entry(before, key@, next);
        }
        Ok(())
    }

    /// The counter values, by value key.
    pub fn counters(&self) -> (r: Vec<(String, u64)>)
        ensures
            keyed(r@) == self.counter_values(),
    {
        let mut out: Vec<(String, u64)> = Vec::new();
        let mut i: usize = 0;
        while i < self.counters.len()
            invariant
                i <= self.counters.len(),
                keyed(out@) == self.counter_values().take(i as int),
            decreases self.counters.len() - i,
        {
            let ghost before = keyed(out@);
            out.push((self.counters[i].0.clone(), self.counters[i].1));
            assert(keyed(out@) =~= before.push(self.counter_values()[i as int]));
            assert(self.counter_values().take(i + 1) =~= self.counter_values().take(i as int).push(
                self.counter_values()[i as int],
            ));
            i = i + 1;
        }
        assert(self.counter_values().take(i as int) =~= self.counter_values());
        out
    }
}

impl Default for MetricsRegistry {
    fn default() -> (r: Self)
        ensures
            r.wf(),
            r.defs().len() == 0,
            r.counter_values().len() == 0,
    {
        MetricsRegistry::new()
    }
}

/// The series lists as sequences of texts.
pub open spec fn series_views(s: Seq<(Seq<char>, Vec<String>)>) -> Seq<(Seq<char>, Seq<Seq<char>>)> {
    s.map_values(|e: (Seq<char>, Vec<String>)| (e.0, views(e.1@)))
}

proof fn lemma_series_entry(s: Seq<(Seq<char>, Vec<String>)>, name: Seq<char>)
    requires
        distinct_keys(s),
    ensures
        distinct_keys(series_views(s)),
        entry(series_views(s), name) == match entry(s, name) {
            Some(l) => Some(views(l@)),
            None => None,
        },
{
    let t = series_views(s);
    assert forall|a: int, b: int| 0 <= a < b < t.len() implies (#[trigger] t[a]).0 != (#[trigger] t[b]).0 by {
        assert(t[a].0 == s[a].0 && t[b].0 == s[b].0);
    }
    if exists|i: int| 0 <= i < s.len() && (#[trigger] s[i]).0 == name {
        let k = choose|i: int| 0 <= i < s.len() && (#[trigger] s[i]).0 == name;
        lemma_entry_at(s, k);
        assert(t[k].0 == s[k].0);
        lemma_entry_at(t, k);
    } else {
        assert forall|i: int| 0 <= i < t.len() implies (#[trigger] t[i]).0 != name by {
            assert(t[i].0 == s[i].0);
        }
    }
}

fn is_valid_name(s: &str) -> (r: bool)
    ensures
        r == valid_name(s@),
{
    let v = chars_of(s);
    if v.len() == 0 {
        return false;
    }
    let mut i: usize = 0;
    while i < v.len()
        invariant
            v@ == s@,
            i <= v.len(),
            forall|j: int| 0 <= j < i ==> is_ascii_alphanumeric(#[trigger] s@[j]) || s@[j] == '_',
        decreases v.len() - i,
    {
        if !(char_is_ascii_alphanumeric(v[i]) || v[i] == '_') {
            return false;
        }
        i = i + 1;
    }
    true
}

fn all_valid_names(labels: &Vec<String>) -> (r: bool)
    ensures
        r == forall|i: int| 0 <= i < labels@.len() ==> valid_name(#[trigger] labels@[i]@),
{
    let mut i: usize = 0;
    while i < labels.len()
        invariant
            i <= labels.len(),
            forall|j: int| 0 <= j < i ==> valid_name(#[trigger] labels@[j]@),
        decreases labels.len() - i,
    {
        if !is_valid_name(labels[i].as_str()) {
            return false;
        }
        i = i + 1;
    }
    true
}

fn same_labels(declared: &Vec<String>, given: &Vec<(String, String)>) -> (r: bool)
    ensures
        r == same_label_names(views(declared@), pair_views(given@)),
{
    let ghost d = views(declared@);
    let ghost g = label_names(pair_views(given@));
    let mut names: Vec<String> = Vec::new();
    let mut i: usize = 0;
    while i < given.len()
        invariant
            i <= given.len(),
            views(names@) == g.take(i as int),
            g == label_names(pair_views(given@)),
        decreases given.len() - i,
    {
        let ghost before = views(names@);
        names.push(given[i].0.clone());
        assert(views(names@) =~= before.push(g[i as int]));
        assert(g.take(i + 1) =~= g.take(i as int).push(g[i as int]));
        i = i + 1;
    }
    assert(g.take(i as int) =~= g);
    let mut j: usize = 0;
    while j < declared.len()
        invariant
            j <= declared.len(),
            views(names@) == g,
            g == label_names(pair_views(given@)),
            d == views(declared@),
            forall|k: int| 0 <= k < j ==> g.contains(#[trigger] d[k]),
        decreases declared.len() - j,
    {
        if !contains_str(&names, declared[j].as_str()) {
            proof {
                assert(!g.contains(d[j as int]));
                assert(d.to_set().contains(d[j as int]));
                assert(!g.to_set().contains(d[j as int]));
            }
            return false;
        }
        j = j + 1;
    }
    let mut k: usize = 0;
    while k < names.len()
        invariant
            k <= names.len(),
            views(names@) == g,
            g == label_names(pair_views(given@)),
            d == views(declared@),
            forall|q: int| 0 <= q < d.len() ==> g.contains(#[trigger] d[q]),
            forall|q: int| 0 <= q < k ==> d.contains(#[trigger] g[q]),
        decreases names.len() - k,
    {
        if !contains_str(declared, names[k].as_str()) {
            proof {
                assert(!d.contains(g[k as int]));
                assert(g.to_set().contains(g[k as int]));
                assert(!d.to_set().contains(g[k as int]));
            }
            return false;
        }
        k = k + 1;
    }
    proof {
        assert(d.to_set() =~= g.to_set()) by {
            assert forall|x: Seq<char>| d.to_set().contains(x) <==> g.to_set().contains(x) by {
                if d.contains(x) {
                    let q = choose|q: int| 0 <= q < d.len() && d[q] == x;
                    assert(g.contains(d[q]));
                }
                if g.contains(x) {
                    let q = choose|q: int| 0 <= q < g.len() && g[q] == x;
                    assert(d.contains(g[q]));
                }
            }
        }
    }
    true
}

fn make_series_key(labels: &Vec<(String, String)>) -> (r: String)
    ensures
        r@ == series_key(pair_views(labels@)),
{
    let ghost parts = pair_views(labels@).map_values(|l: (Seq<char>, Seq<char>)| l.0 + seq!['='] + l.1);
    let mut s = String::new();
    let mut i: usize = 0;
    assert(parts.take(0) =~= Seq::<Seq<char>>::empty());
    while i < labels.len()
        invariant
            i <= labels.len(),
            parts == pair_views(labels@).map_values(|l: (Seq<char>, Seq<char>)| l.0 + seq!['='] + l.1),
            s@ == join(parts.take(i as int), seq![',']),
        decreases labels.len() - i,
    {
        if i > 0 {
            crate::text::push_char(&mut s, ',');
        }
        push_str(&mut s, labels[i].0.as_str());
        crate::text::push_char(&mut s, '=');
        push_str(&mut s, labels[i].1.as_str());
        proof {
            let t = parts.take(i + 1);
            assert(t.drop_last() =~= parts.take(i as int));
            assert(t.last() == labels@[i as int].0@ + seq!['='] + labels@[i as int].1@);
        }
        i = i + 1;
        assert(s@ =~= join(parts.take(i as int), seq![',']));
    }
    assert(parts.take(i as int) =~= parts);
    s
}

} // verus!
