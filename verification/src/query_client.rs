//! Bounded cache of query results with per-entry freshness.
use vstd::prelude::*;
use crate::text::{is_token_text, lemma_seq_lt_order, owned, seq_lt, starts_with, str_eq, str_lt, str_starts_with, token_text};

verus! {

#[derive(Debug, Clone, Copy, PartialEq, Eq, Structural)]
pub enum QueryClientError {
    InvalidKey,
    Capacity,
    InvalidTtl,
}

#[derive(Debug, Clone, PartialEq, Eq)]
pub struct QueryEntry {
    pub key: String,
    pub value: Vec<u8>,
    pub stored_at: u64,
    pub ttl: u64,
}

pub struct EntryView {
    pub key: Seq<char>,
    pub value: Seq<u8>,
    pub stored_at: u64,
    pub ttl: u64,
}

impl View for QueryEntry {
    type V = EntryView;

    open spec fn view(&self) -> EntryView {
        EntryView { key: self.key@, value: self.value@, stored_at: self.stored_at, ttl: self.ttl }
    }
}

pub const MAX_KEY_BYTES: usize = 256;

pub open spec fn valid_key(k: Seq<char>) -> bool {
    token_text(k, MAX_KEY_BYTES as nat)
}

pub open spec fn entry_views(v: Seq<QueryEntry>) -> Seq<EntryView> {
    v.map_values(|e: QueryEntry| e@)
}

pub open spec fn entry_keys(s: Seq<EntryView>) -> Seq<Seq<char>> {
    s.map_values(|e: EntryView| e.key)
}

/// The entry stored under `key`, if any.
pub open spec fn entry_of(s: Seq<EntryView>, key: Seq<char>) -> Option<EntryView> {
    if entry_keys(s).contains(key) {
        Some(s[entry_keys(s).index_of(key)])
    } else {
        None
    }
}

pub open spec fn key_ordered(s: Seq<EntryView>) -> bool {
    forall|i: int, j: int| 0 <= i < j < s.len() ==> seq_lt(#[trigger] s[i].key, #[trigger] s[j].key)
}

/// Whether an entry is still fresh at `now`: at most `ttl` has passed since it was stored.
pub open spec fn fresh(e: EntryView, now: u64) -> bool {
    (if now >= e.stored_at {
        now - e.stored_at
    } else {
        0
    }) <= e.ttl
}

/// The entries whose key does not start with `prefix`, in order.
pub open spec fn without_prefix(s: Seq<EntryView>, prefix: Seq<char>) -> Seq<EntryView>
    decreases s.len(),
{
    if s.len() == 0 {
        s
    } else if starts_with(s.last().key, prefix) {
        without_prefix(s.drop_last(), prefix)
    } else {
        without_prefix(s.drop_last(), prefix).push(s.last())
    }
}

proof fn lemma_entry_at(s: Seq<EntryView>, i: int)
    requires
        key_ordered(s),
        0 <= i < s.len(),
    ensures
        entry_of(s, s[i].key) == Some(s[i]),
        entry_keys(s).index_of(s[i].key) == i,
{
    let ids = entry_keys(s);
    assert(ids[i] == s[i].key);
    let k = ids.index_of(s[i].key);
    assert(ids[k] == s[k].key);
    if k != i {
        if k < i {
            assert(seq_lt(s[k].key, s[i].key));
        } else {
            assert(seq_lt(s[i].key, s[k].key));
        }
        lemma_seq_lt_order(s[i].key, s[i].key, s[i].key);
    }
}

proof fn lemma_entry_absent(s: Seq<EntryView>, key: Seq<char>)
    requires
        forall|i: int| 0 <= i < s.len() ==> (#[trigger] s[i]).key != key,
    ensures
        entry_of(s, key) is None,
{
    let ids = entry_keys(s);
    if ids.contains(key) {
        let k = ids.index_of(key);
        assert(ids[k] == s[k].key);
    }
}

/// Inserting at `p` keeps the keys ordered when `p` separates the smaller keys from the
/// larger ones.
proof fn lemma_insert_ordered(s: Seq<EntryView>, x: EntryView, p: int)
    requires
        key_ordered(s),
        0 <= p <= s.len(),
        forall|j: int| 0 <= j < p ==> seq_lt(#[trigger] s[j].key, x.key),
        forall|j: int| p <= j < s.len() ==> seq_lt(x.key, #[trigger] s[j].key),
    ensures
        key_ordered(s.insert(p, x)),
{
    let r = s.insert(p, x);
    assert forall|a: int, c: int| 0 <= a < c < r.len() implies seq_lt(#[trigger] r[a].key, #[trigger] r[c].key) by {
        if c < p {
            assert(r[a] == s[a] && r[c] == s[c]);
        } else if c == p {
            assert(r[a] == s[a]);
        } else if a < p {
            assert(r[a] == s[a] && r[c] == s[c - 1]);
            lemma_seq_lt_order(r[a].key, x.key, r[c].key);
        } else if a == p {
            assert(r[c] == s[c - 1]);
        } else {
            assert(r[a] == s[a - 1] && r[c] == s[c - 1]);
        }
    }
}

fn copy_entry(e: &QueryEntry) -> (c: QueryEntry)
    ensures
        c@ == e@,
{
    QueryEntry { key: e.key.clone(), value: e.value.clone(), stored_at: e.stored_at, ttl: e.ttl }
}

/// Up to `capacity` entries, in key order.
#[derive(Debug, Clone)]
pub struct QueryClient {
    entries: Vec<QueryEntry>,
    capacity: usize,
}

impl QueryClient {
    /// The entries, in key order.
    pub closed spec fn entries(&self) -> Seq<EntryView> {
        entry_views(self.entries@)
    }

    pub closed spec fn capacity(&self) -> nat {
        self.capacity as nat
    }

    pub closed spec fn wf(&self) -> bool {
        key_ordered(self.entries())
    }

    pub fn new(capacity: usize) -> (c: QueryClient)
        ensures
            c.wf(),
            c.entries() == Seq::<EntryView>::empty(),
            c.capacity() == capacity,
    {
        let c = QueryClient { entries: Vec::new(), capacity };
        assert(c.entries() =~= Seq::<EntryView>::empty());
        c
    }

    /// Position of the first entry whose key is not below `key`.
    fn position(&self, key: &str) -> (p: usize)
        requires
            self.wf(),
        ensures
            p <= self.entries().len(),
            forall|j: int| 0 <= j < p ==> seq_lt(#[trigger] self.entries()[j].key, key@),
            forall|j: int| p <= j < self.entries().len() ==> !seq_lt(#[trigger] self.entries()[j].key, key@),
    {
        let mut p: usize = 0;
        while p < self.entries.len() && str_lt(self.entries[p].key.as_str(), key)
            invariant
                self.wf(),
                p <= self.entries@.len(),
                forall|j: int| 0 <= j < p ==> seq_lt(#[trigger] self.entries()[j].key, key@),
            decreases self.entries@.len() - p,
        {
            p = p + 1;
        }
        proof {
            let s = self.entries();
            assert forall|j: int| p <= j < s.len() implies !seq_lt(#[trigger] s[j].key, key@) by {
                if j > p {
                    assert(seq_lt(s[p as int].key, s[j].key));
                    lemma_seq_lt_order(s[p as int].key, s[j].key, key@);
                }
            }
        }
        p
    }

    /// Where `key` is stored, if it is.
    fn find(&self, key: &str) -> (r: Option<usize>)
        requires
            self.wf(),
        ensures
            r matches Some(i) ==> i < self.entries().len() && self.entries()[i as int].key == key@
                && entry_of(self.entries(), key@) == Some(self.entries()[i as int])
                && entry_keys(self.entries()).index_of(key@) == i,
            r is None ==> entry_of(self.entries(), key@) is None && forall|j: int|
                0 <= j < self.entries().len() ==> (#[trigger] self.entries()[j]).key != key@,
    {
        let p = self.position(key);
        if p < self.entries.len() && str_eq(self.entries[p].key.as_str(), key) {
            proof {
                lemma_entry_at(self.entries(), p as int);
            }
            return Some(p);
        }
        proof {
            let s = self.entries();
            assert forall|j: int| 0 <= j < s.len() implies (#[trigger] s[j]).key != key@ by {
                if j < p {
                    lemma_seq_lt_order(s[j].key, key@, key@);
                } else if j > p {
                    assert(seq_lt(s[p as int].key, s[j].key));
                    lemma_seq_lt_order(s[p as int].key, key@, s[p as int].key);
                    if s[j].key == key@ {
                        lemma_seq_lt_order(s[p as int].key, s[j].key, s[p as int].key);
                    }
                }
            }
            lemma_entry_absent(s, key@);
        }
        None
    }

    /// Stores `value` under `key`, replacing what was there; a new key needs room.
    pub fn set(&mut self, key: &str, value: Vec<u8>, stored_at: u64, ttl: u64) -> (r: Result<
        (),
        QueryClientError,
    >)
        requires
            old(self).wf(),
        ensures
            final(self).wf(),
            final(self).capacity() == old(self).capacity(),
            !valid_key(key@) ==> r == Err::<(), _>(QueryClientError::InvalidKey),
            valid_key(key@) && ttl == 0 ==> r == Err::<(), _>(QueryClientError::InvalidTtl),
            valid_key(key@) && ttl > 0 && entry_of(old(self).entries(), key@) is None && old(
                self,
            ).entries().len() >= old(self).capacity() ==> r == Err::<(), _>(QueryClientError::Capacity),
            r is Err ==> final(self).entries() == old(self).entries(),
            r is Ok ==> valid_key(key@) && ttl > 0 && entry_of(final(self).entries(), key@) == Some(
                EntryView { key: key@, value: value@, stored_at, ttl },
            ) && (forall|k: Seq<char>|
                k != key@ ==> #[trigger] entry_of(final(self).entries(), k) == entry_of(
                    old(self).entries(),
                    k,
                )) && final(self).entries().len() == old(self).entries().len() + if entry_of(
                old(self).entries(),
                key@,
            ) is Some {
                0int
            } else {
                1int
            },
            valid_key(key@) && ttl > 0 && (entry_of(old(self).entries(), key@) is Some || old(
                self,
            ).entries().len() < old(self).capacity()) ==> r is Ok,
    {
        if !is_token_text(key, MAX_KEY_BYTES) {
            return Err(QueryClientError::InvalidKey);
        }
        if ttl == 0 {
            return Err(QueryClientError::InvalidTtl);
        }
        let ghost before = self.entries();
        let entry = QueryEntry { key: owned(key), value, stored_at, ttl };
        let ghost x = entry@;
        let p = self.position(key);
        if p < self.entries.len() && str_eq(self.entries[p].key.as_str(), key) {
            proof {
                lemma_entry_at(before, p as int);
            }
            self.entries.set(p, entry);
            proof {
                let after = self.entries();
                assert(after =~= before.update(p as int, x));
                assert forall|a: int, c: int| 0 <= a < c < after.len() implies seq_lt(
                    #[trigger] after[a].key,
                    #[trigger] after[c].key,
                ) by {
                    assert(after[a].key == before[a].key && after[c].key == before[c].key);
                }
                lemma_entry_at(after, p as int);
                assert forall|k: Seq<char>| k != key@ implies #[trigger] entry_of(after, k) == entry_of(
                    before,
                    k,
                ) by {
                    if entry_keys(after).contains(k) {
                        let j = entry_keys(after).index_of(k);
                        assert(entry_keys(after)[j] == after[j].key);
                        lemma_entry_at(after, j);
                        lemma_entry_at(before, j);
                    } else {
                        assert forall|j: int| 0 <= j < before.len() implies (#[trigger] before[j]).key != k by {
                            assert(entry_keys(after)[j] == after[j].key);
                        }
                        lemma_entry_absent(before, k);
                    }
                }
            }
            return Ok(());
        }
        proof {
            assert forall|j: int| p <= j < before.len() implies seq_lt(key@, #[trigger] before[j].key) by {
                lemma_seq_lt_order(key@, before[j].key, key@);
                if j > p {
                    assert(seq_lt(before[p as int].key, before[j].key));
                    lemma_seq_lt_order(before[p as int].key, key@, before[p as int].key);
                    if before[j].key == key@ {
                        lemma_seq_lt_order(before[p as int].key, before[j].key, before[p as int].key);
                    }
                }
            }
            assert forall|j: int| 0 <= j < before.len() implies (#[trigger] before[j]).key != key@ by {
                if j < p {
                    lemma_seq_lt_order(before[j].key, key@, key@);
                }
            }
            lemma_entry_absent(before, key@);
        }
        if self.entries.len() >= self.capacity {
            return Err(QueryClientError::Capacity);
        }
        self.entries.insert(p, entry);
        proof {
            let after = self.entries();
            assert(after =~= before.insert(p as int, x));
            lemma_insert_ordered(before, x, p as int);
            lemma_entry_at(after, p as int);
            assert forall|k: Seq<char>| k != key@ implies #[trigger] entry_of(after, k) == entry_of(before, k) by {
                if entry_keys(after).contains(k) {
                    let j = entry_keys(after).index_of(k);
                    assert(entry_keys(after)[j] == after[j].key);
                    lemma_entry_at(after, j);
                    if j < p {
                        assert(after[j] == before[j]);
                        lemma_entry_at(before, j);
                    } else if j > p {
                        assert(after[j] == before[j - 1]);
                        lemma_entry_at(before, j - 1);
                    }
                } else {
                    assert forall|j: int| 0 <= j < before.len() implies (#[trigger] before[j]).key != k by {
                        if j < p {
                            assert(after[j] == before[j]);
                            assert(entry_keys(after)[j] == after[j].key);
                        } else {
                            assert(after[j + 1] == before[j]);
                            assert(entry_keys(after)[j + 1] == after[j + 1].key);
                        }
                    }
                    lemma_entry_absent(before, k);
                }
            }
        }
        Ok(())
    }

    /// The entry under `key` while it is fresh at `now`.
    pub fn get(&self, key: &str, now: u64) -> (r: Option<&QueryEntry>)
        requires
            self.wf(),
        ensures
            match entry_of(self.entries(), key@) {
                Some(e) => if fresh(e, now) {
                    r matches Some(x) && x@ == e
                } else {
                    r is None
                },
                None => r is None,
            },
    {
        match self.find(key) {
            None => None,
            Some(i) => {
                let e = &self.entries[i];
                if now.saturating_sub(e.stored_at) <= e.ttl {
                    Some(e)
                } else {
                    None
                }
            },
        }
    }

    /// Drops the entry under `key`; whether there was one.
    pub fn invalidate(&mut self, key: &str) -> (r: bool)
        requires
            old(self).wf(),
        ensures
            final(self).wf(),
            final(self).capacity() == old(self).capacity(),
            r == (entry_of(old(self).entries(), key@) is Some),
            r ==> final(self).entries() == old(self).entries().remove(
                entry_keys(old(self).entries()).index_of(key@),
            ),
            !r ==> final(self).entries() == old(self).entries(),
            entry_of(final(self).entries(), key@) is None,
    {
        match self.find(key) {
            None => false,
            Some(i) => {
                let ghost before = self.entries();
                self.entries.remove(i);
                proof {
                    let after = self.entries();
                    assert(after =~= before.remove(i as int));
                    assert forall|a: int, c: int| 0 <= a < c < after.len() implies seq_lt(
                        #[trigger] after[a].key,
                        #[trigger] after[c].key,
                    ) by {
                        let a0 = if a < i { a } else { a + 1 };
                        let c0 = if c < i { c } else { c + 1 };
                        assert(after[a] == before[a0] && after[c] == before[c0]);
                    }
                    assert forall|j: int| 0 <= j < after.len() implies (#[trigger] after[j]).key != key@ by {
                        let j0 = if j < i { j } else { j + 1 };
                        assert(after[j] == before[j0]);
                        if before[j0].key == key@ {
                            lemma_entry_at(before, j0);
                        }
                    }
                    lemma_entry_absent(after, key@);
                }
                true
            },
        }
    }

    /// Drops every entry whose key starts with `prefix`; how many were dropped.
    pub fn invalidate_prefix(&mut self, prefix: &str) -> (n: usize)
        requires
            old(self).wf(),
        ensures
            final(self).wf(),
            final(self).capacity() == old(self).capacity(),
            final(self).entries() == without_prefix(old(self).entries(), prefix@),
            n == old(self).entries().len() - final(self).entries().len(),
    {
        let ghost before = self.entries();
        let mut kept: Vec<QueryEntry> = Vec::new();
        let mut removed: usize = 0;
        let mut i: usize = 0;
        while i < self.entries.len()
            invariant
                before == self.entries(),
                i <= before.len(),
                entry_views(kept@) == without_prefix(before.take(i as int), prefix@),
                removed + kept@.len() == i,
            decreases before.len() - i,
        {
            proof {
                assert(before.take(i + 1).drop_last() =~= before.take(i as int));
                assert(before.take(i + 1).last() == before[i as int]);
            }
            if str_starts_with(self.entries[i].key.as_str(), prefix) {
                removed = removed + 1;
            } else {
                let ghost k0 = kept@;
                kept.push(copy_entry(&self.entries[i]));
                assert(entry_views(kept@) =~= entry_views(k0).push(before[i as int]));
            }
            i = i + 1;
        }
        assert(before.take(before.len() as int) =~= before);
        proof {
            lemma_without_prefix_ordered(before, prefix@);
        }
        self.entries = kept;
        removed
    }

    /// Every entry, in key order.
    pub fn snapshot(&self) -> (v: Vec<QueryEntry>)
        ensures
            entry_views(v@) == self.entries(),
    {
        let mut v: Vec<QueryEntry> = Vec::new();
        let mut i: usize = 0;
        while i < self.entries.len()
            invariant
                i <= self.entries@.len(),
                v@.len() == i,
                forall|j: int| 0 <= j < i ==> (#[trigger] v@[j])@ == self.entries@[j]@,
            decreases self.entries@.len() - i,
        {
            v.push(copy_entry(&self.entries[i]));
            i = i + 1;
        }
        assert(entry_views(v@) =~= self.entries());
        v
    }
}

/// Dropping entries keeps the rest in key order, each one from the original.
proof fn lemma_without_prefix_ordered(s: Seq<EntryView>, prefix: Seq<char>)
    requires
        key_ordered(s),
    ensures
        key_ordered(without_prefix(s, prefix)),
        forall|i: int|
            0 <= i < without_prefix(s, prefix).len() ==> s.contains(#[trigger] without_prefix(s, prefix)[i]),
    decreases s.len(),
{
    if s.len() > 0 {
        let t = s.drop_last();
        assert(key_ordered(t)) by {
            assert forall|a: int, c: int| 0 <= a < c < t.len() implies seq_lt(
                #[trigger] t[a].key,
                #[trigger] t[c].key,
            ) by {
                assert(t[a] == s[a] && t[c] == s[c]);
            }
        }
        lemma_without_prefix_ordered(t, prefix);
        let w = without_prefix(t, prefix);
        assert forall|i: int| 0 <= i < w.len() implies s.contains(#[trigger] w[i]) by {
            let j = choose|j: int| 0 <= j < t.len() && t[j] == w[i];
            assert(s[j] == t[j]);
        }
        if !starts_with(s.last().key, prefix) {
            let r = w.push(s.last());
            assert forall|i: int| 0 <= i < r.len() implies s.contains(#[trigger] r[i]) by {
                if i == w.len() {
                    assert(s[s.len() - 1] == r[i]);
                } else {
                    assert(r[i] == w[i]);
                }
            }
            assert forall|a: int, c: int| 0 <= a < c < r.len() implies seq_lt(
                #[trigger] r[a].key,
                #[trigger] r[c].key,
            ) by {
                if c == w.len() {
                    assert(r[a] == w[a]);
                    assert(s.contains(w[a]));
                    let j = choose|j: int| 0 <= j < t.len() && t[j] == w[a];
                    assert(s[j] == t[j]);
                } else {
                    assert(r[a] == w[a] && r[c] == w[c]);
                }
            }
        }
    }
}

impl Default for QueryClient {
    fn default() -> (c: Self)
        ensures
            c.wf(),
            c.entries() == Seq::<EntryView>::empty(),
            c.capacity() == 1024,
    {
        QueryClient::new(1024)
    }
}

} // verus!
