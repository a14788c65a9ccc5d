//! Scoped notification preferences for media workflows.
use vstd::prelude::*;
use crate::text::{is_plain_name, lemma_seq_lt_order, owned, plain_name, seq_lt, str_eq, str_lt};

verus! {

#[derive(Debug, Clone, Copy, PartialEq, Eq, Structural)]
pub enum NotificationChannel {
    Email,
    Webhook,
    InApp,
}

#[derive(Debug, Clone, Copy, PartialEq, Eq, Structural)]
pub enum DigestMode {
    Immediate,
    Hourly,
    Daily,
}

#[derive(Debug, Clone, Copy, PartialEq, Eq, Structural)]
pub enum NotificationPreferenceError {
    Invalid,
    Missing,
    Duplicate,
    Capacity,
    ScopeMismatch,
}

#[derive(Debug, Clone, PartialEq, Eq)]
pub struct MediaNotificationPreference {
    pub id: String,
    pub scope: String,
    pub owner: String,
    pub channel: NotificationChannel,
    pub event: String,
    pub digest: DigestMode,
    pub enabled: bool,
}

/// The mathematical value of a preference.
pub struct PrefView {
    pub id: Seq<char>,
    pub scope: Seq<char>,
    pub owner: Seq<char>,
    pub channel: NotificationChannel,
    pub event: Seq<char>,
    pub digest: DigestMode,
    pub enabled: bool,
}

impl View for MediaNotificationPreference {
    type V = PrefView;

    open spec fn view(&self) -> PrefView {
        PrefView {
            id: self.id@,
            scope: self.scope@,
            owner: self.owner@,
            channel: self.channel,
            event: self.event@,
            digest: self.digest,
            enabled: self.enabled,
        }
    }
}

pub open spec fn pref_views(v: Seq<MediaNotificationPreference>) -> Seq<PrefView> {
    v.map_values(|p: MediaNotificationPreference| p@)
}

/// One scope's preferences, ordered by id.
pub struct ScopePrefs {
    pub scope: Seq<char>,
    pub prefs: Seq<PrefView>,
}

/// Largest id, scope, owner or event, in bytes.
pub const MAX_FIELD_BYTES: usize = 128;

pub open spec fn valid_field(s: Seq<char>) -> bool {
    plain_name(s, MAX_FIELD_BYTES as nat)
}

pub open spec fn id_ordered(ps: Seq<PrefView>) -> bool {
    forall|i: int, j: int| 0 <= i < j < ps.len() ==> seq_lt(#[trigger] ps[i].id, #[trigger] ps[j].id)
}

/// `x` inserted into `ps` by id.
pub open spec fn insert_by_id(ps: Seq<PrefView>, x: PrefView) -> Seq<PrefView>
    decreases ps.len(),
{
    if ps.len() == 0 || seq_lt(ps.last().id, x.id) {
        ps.push(x)
    } else {
        insert_by_id(ps.drop_last(), x).push(ps.last())
    }
}

/// Whether a preference is enabled and applies to `owner` and `event` (`*` applies to all).
pub open spec fn applies(p: PrefView, owner: Seq<char>, event: Seq<char>) -> bool {
    p.owner == owner && p.enabled && (p.event == event || p.event == seq!['*'])
}

/// The preferences that apply, in order.
pub open spec fn applicable(ps: Seq<PrefView>, owner: Seq<char>, event: Seq<char>) -> Seq<PrefView>
    decreases ps.len(),
{
    if ps.len() == 0 {
        ps
    } else if applies(ps.last(), owner, event) {
        applicable(ps.drop_last(), owner, event).push(ps.last())
    } else {
        applicable(ps.drop_last(), owner, event)
    }
}

pub open spec fn scope_names(ss: Seq<ScopePrefs>) -> Seq<Seq<char>> {
    ss.map_values(|s: ScopePrefs| s.scope)
}

/// The preferences of `scope`, if it has any entry.
pub open spec fn prefs_of(ss: Seq<ScopePrefs>, scope: Seq<char>) -> Option<Seq<PrefView>> {
    if scope_names(ss).contains(scope) {
        Some(ss[scope_names(ss).index_of(scope)].prefs)
    } else {
        None
    }
}

pub open spec fn pref_ids(ps: Seq<PrefView>) -> Seq<Seq<char>> {
    ps.map_values(|p: PrefView| p.id)
}

pub open spec fn scopes_wf(ss: Seq<ScopePrefs>, max_preferences: nat) -> bool {
    &&& forall|i: int, j: int|
        0 <= i < ss.len() && 0 <= j < ss.len() && i != j ==> #[trigger] ss[i].scope
            != #[trigger] ss[j].scope
    &&& forall|i: int|
        0 <= i < ss.len() ==> id_ordered(#[trigger] ss[i].prefs) && ss[i].prefs.len()
            <= max_preferences
}

#[derive(Debug, Clone)]
struct ScopeEntry {
    scope: String,
    prefs: Vec<MediaNotificationPreference>,
}

spec fn entry_view(e: ScopeEntry) -> ScopePrefs {
    ScopePrefs { scope: e.scope@, prefs: pref_views(e.prefs@) }
}

proof fn lemma_scope_at(ss: Seq<ScopePrefs>, m: nat, i: int)
    requires
        scopes_wf(ss, m),
        0 <= i < ss.len(),
    ensures
        prefs_of(ss, ss[i].scope) == Some(ss[i].prefs),
{
    let ids = scope_names(ss);
    assert(ids[i] == ss[i].scope);
    let k = ids.index_of(ss[i].scope);
    assert(ids[k] == ss[k].scope);
}

proof fn lemma_scope_absent(ss: Seq<ScopePrefs>, scope: Seq<char>)
    requires
        forall|i: int| 0 <= i < ss.len() ==> (#[trigger] ss[i]).scope != scope,
    ensures
        prefs_of(ss, scope) is None,
{
    let ids = scope_names(ss);
    if ids.contains(scope) {
        let k = ids.index_of(scope);
        assert(ids[k] == ss[k].scope);
    }
}

/// After `after` replaces `before` at `i` (or appends at `i == before.len()`) keeping every
/// other entry, only `after[i].scope` may map to new preferences.
proof fn lemma_others_kept(before: Seq<ScopePrefs>, after: Seq<ScopePrefs>, m: nat, i: int)
    requires
        scopes_wf(before, m),
        scopes_wf(after, m),
        0 <= i < after.len(),
        after.len() == before.len() || (after.len() == before.len() + 1 && i == before.len()),
        forall|j: int| 0 <= j < before.len() && j != i ==> after[j] == before[j],
        i < before.len() ==> after[i].scope == before[i].scope,
    ensures
        prefs_of(after, after[i].scope) == Some(after[i].prefs),
        forall|k: Seq<char>| k != after[i].scope ==> prefs_of(after, k) == prefs_of(before, k),
{
    lemma_scope_at(after, m, i);
    assert forall|k: Seq<char>| k != after[i].scope implies prefs_of(after, k) == prefs_of(before, k) by {
        let ids = scope_names(after);
        if ids.contains(k) {
            let j = ids.index_of(k);
            assert(ids[j] == after[j].scope);
            lemma_scope_at(after, m, j);
            lemma_scope_at(before, m, j);
        } else {
            assert forall|j: int| 0 <= j < before.len() implies (#[trigger] before[j]).scope != k by {
                assert(ids[j] == after[j].scope);
            }
            lemma_scope_absent(before, k);
        }
    }
}

proof fn lemma_insert_by_id(ps: Seq<PrefView>, x: PrefView, p: int)
    requires
        id_ordered(ps),
        0 <= p <= ps.len(),
        forall|j: int| 0 <= j < p ==> seq_lt(#[trigger] ps[j].id, x.id),
        forall|j: int| p <= j < ps.len() ==> seq_lt(x.id, #[trigger] ps[j].id),
    ensures
        insert_by_id(ps, x) == ps.insert(p, x),
        id_ordered(ps.insert(p, x)),
    decreases ps.len(),
{
    let r = ps.insert(p, x);
    if ps.len() == 0 || seq_lt(ps.last().id, x.id) {
        if ps.len() > 0 && p < ps.len() {
            lemma_seq_lt_order(ps.last().id, x.id, ps.last().id);
        }
        assert(r =~= ps.push(x));
    } else {
        let t = ps.drop_last();
        assert forall|j: int| p <= j < t.len() implies seq_lt(x.id, #[trigger] t[j].id) by {
            assert(t[j] == ps[j]);
        }
        assert forall|j: int| 0 <= j < p implies seq_lt(#[trigger] t[j].id, x.id) by {
            assert(t[j] == ps[j]);
        }
        if p == ps.len() {
            lemma_seq_lt_order(ps.last().id, x.id, ps.last().id);
        }
        lemma_insert_by_id(t, x, p);
        assert(r =~= t.insert(p, x).push(ps.last()));
    }
    assert forall|a: int, c: int| 0 <= a < c < r.len() implies seq_lt(#[trigger] r[a].id, #[trigger] r[c].id) by {
        if c < p {
            assert(r[a] == ps[a] && r[c] == ps[c]);
        } else if c == p {
            assert(r[a] == ps[a]);
        } else if a < p {
            assert(r[a] == ps[a] && r[c] == ps[c - 1]);
            lemma_seq_lt_order(r[a].id, x.id, r[c].id);
        } else if a == p {
            assert(r[c] == ps[c - 1]);
        } else {
            assert(r[a] == ps[a - 1] && r[c] == ps[c - 1]);
        }
    }
}

fn copy_pref(p: &MediaNotificationPreference) -> (c: MediaNotificationPreference)
    ensures
        c@ == p@,
{
    MediaNotificationPreference {
        id: p.id.clone(),
        scope: p.scope.clone(),
        owner: p.owner.clone(),
        channel: p.channel,
        event: p.event.clone(),
        digest: p.digest,
        enabled: p.enabled,
    }
}

fn position_of_id(v: &Vec<MediaNotificationPreference>, id: &str) -> (r: Option<usize>)
    ensures
        r matches Some(k) ==> k < v@.len() && v@[k as int].id@ == id@,
        r is None ==> forall|j: int| 0 <= j < v@.len() ==> (#[trigger] v@[j]).id@ != id@,
{
    let mut k: usize = 0;
    while k < v.len()
        invariant
            k <= v@.len(),
            forall|j: int| 0 <= j < k ==> (#[trigger] v@[j]).id@ != id@,
        decreases v@.len() - k,
    {
        if str_eq(v[k].id.as_str(), id) {
            return Some(k);
        }
        k = k + 1;
    }
    None
}

/// Preferences of up to `max_scopes` scopes, each with up to `max_preferences` entries.
#[derive(Debug)]
pub struct MediaNotificationPreferenceStore {
    scopes: Vec<ScopeEntry>,
    max_scopes: usize,
    max_preferences: usize,
}

impl MediaNotificationPreferenceStore {
    /// The scopes with an entry, in the order they were first used.
    pub closed spec fn scopes(&self) -> Seq<ScopePrefs> {
        self.scopes@.map_values(|e: ScopeEntry| entry_view(e))
    }

    pub closed spec fn max_scopes(&self) -> nat {
        self.max_scopes as nat
    }

    pub closed spec fn max_preferences(&self) -> nat {
        self.max_preferences as nat
    }

    pub closed spec fn wf(&self) -> bool {
        &&& self.max_scopes >= 1
        &&& self.max_preferences >= 1
        &&& scopes_wf(self.scopes(), self.max_preferences as nat)
    }

    /// An empty store; both bounds are raised to at least one.
    pub fn new(max_scopes: usize, max_preferences: usize) -> (s: Self)
        ensures
            s.wf(),
            s.scopes() == Seq::<ScopePrefs>::empty(),
            s.max_scopes() == if max_scopes >= 1 { max_scopes as nat } else { 1 },
            s.max_preferences() == if max_preferences >= 1 { max_preferences as nat } else { 1 },
    {
        let s = MediaNotificationPreferenceStore {
            scopes: Vec::new(),
            max_scopes: if max_scopes >= 1 { max_scopes } else { 1 },
            max_preferences: if max_preferences >= 1 { max_preferences } else { 1 },
        };
        assert(s.scopes() =~= Seq::<ScopePrefs>::empty());
        s
    }

    fn find(&self, scope: &str) -> (r: Option<usize>)
        requires
            self.wf(),
        ensures
            r matches Some(i) ==> i < self.scopes().len() && self.scopes()[i as int].scope == scope@
                && prefs_of(self.scopes(), scope@) == Some(self.scopes()[i as int].prefs),
            r is None ==> prefs_of(self.scopes(), scope@) is None,
    {
        let mut i: usize = 0;
        while i < self.scopes.len()
            invariant
                self.wf(),
                i <= self.scopes@.len(),
                forall|j: int| 0 <= j < i ==> (#[trigger] self.scopes()[j]).scope != scope@,
            decreases self.scopes@.len() - i,
        {
            if str_eq(self.scopes[i].scope.as_str(), scope) {
                proof {
                    lemma_scope_at(self.scopes(), self.max_preferences as nat, i as int);
                }
                return Some(i);
            }
            i = i + 1;
        }
        proof {
            lemma_scope_absent(self.scopes(), scope@);
        }
        None
    }

    /// Adds an enabled preference; its id must be new within the scope.
    pub fn add(
        &mut self,
        id: &str,
        scope: &str,
        owner: &str,
        channel: NotificationChannel,
        event: &str,
        digest: DigestMode,
    ) -> (r: Result<MediaNotificationPreference, NotificationPreferenceError>)
        requires
            old(self).wf(),
        ensures
            final(self).wf(),
            final(self).max_scopes() == old(self).max_scopes(),
            final(self).max_preferences() == old(self).max_preferences(),
            r is Err ==> final(self).scopes() == old(self).scopes(),
            ({
                let ss = old(self).scopes();
                let x = PrefView {
                    id: id@,
                    scope: scope@,
                    owner: owner@,
                    channel,
                    event: event@,
                    digest,
                    enabled: true,
                };
                if !(valid_field(id@) && valid_field(scope@) && valid_field(owner@) && valid_field(
                    event@,
                )) {
                    r == Err::<MediaNotificationPreference, _>(NotificationPreferenceError::Invalid)
                } else {
                    match prefs_of(ss, scope@) {
                        None => if ss.len() >= old(self).max_scopes() {
                            r == Err::<MediaNotificationPreference, _>(
                                NotificationPreferenceError::Capacity,
                            )
                        } else {
                            (r matches Ok(p) && p@ == x) && prefs_of(final(self).scopes(), scope@)
                                == Some(seq![x]) && final(self).scopes().len() == ss.len() + 1
                                && forall|k: Seq<char>|
                                k != scope@ ==> #[trigger] prefs_of(final(self).scopes(), k)
                                    == prefs_of(ss, k)
                        },
                        Some(ps) => if ps.len() >= old(self).max_preferences() {
                            r == Err::<MediaNotificationPreference, _>(
                                NotificationPreferenceError::Capacity,
                            )
                        } else if pref_ids(ps).contains(id@) {
                            r == Err::<MediaNotificationPreference, _>(
                                NotificationPreferenceError::Duplicate,
                            )
                        } else {
                            (r matches Ok(p) && p@ == x) && prefs_of(final(self).scopes(), scope@)
                                == Some(insert_by_id(ps, x)) && final(self).scopes().len()
                                == ss.len() && forall|k: Seq<char>|
                                k != scope@ ==> #[trigger] prefs_of(final(self).scopes(), k)
                                    == prefs_of(ss, k)
                        },
                    }
                }
            }),
    {
        if !is_plain_name(id, MAX_FIELD_BYTES) || !is_plain_name(scope, MAX_FIELD_BYTES)
            || !is_plain_name(owner, MAX_FIELD_BYTES) || !is_plain_name(event, MAX_FIELD_BYTES) {
            return Err(NotificationPreferenceError::Invalid);
        }
        let x = MediaNotificationPreference {
            id: owned(id),
            scope: owned(scope),
            owner: owned(owner),
            channel,
            event: owned(event),
            digest,
            enabled: true,
        };
        let ghost before = self.scopes();
        let ghost m = self.max_preferences as nat;
        match self.find(scope) {
            None => {
                if self.scopes.len() >= self.max_scopes {
                    return Err(NotificationPreferenceError::Capacity);
                }
                let mut prefs: Vec<MediaNotificationPreference> = Vec::new();
                prefs.push(copy_pref(&x));
                self.scopes.push(ScopeEntry { scope: owned(scope), prefs });
                proof {
                    let after = self.scopes();
                    assert(pref_views(prefs@) =~= seq![x@]);
                    assert(after =~= before.push(ScopePrefs { scope: scope@, prefs: seq![x@] }));
                    assert forall|a: int, c: int|
                        0 <= a < after.len() && 0 <= c < after.len() && a != c implies #[trigger] after[a].scope
                        != #[trigger] after[c].scope by {
                        if a < before.len() {
                            lemma_scope_at(before, m, a);
                        }
                        if c < before.len() {
                            lemma_scope_at(before, m, c);
                        }
                    }
                    assert forall|a: int| 0 <= a < after.len() implies id_ordered(
                        #[trigger] after[a].prefs,
                    ) && after[a].prefs.len() <= m by {
                        if a < before.len() {
                            assert(after[a] == before[a]);
                        }
                    }
                    lemma_others_kept(before, after, m, before.len() as int);
                }
                Ok(x)
            },
            Some(i) => {
                let n = self.scopes[i].prefs.len();
                if n >= self.max_preferences {
                    return Err(NotificationPreferenceError::Capacity);
                }
                let ghost ps = before[i as int].prefs;
                assert(ps == pref_views(self.scopes@[i as int].prefs@));
                match position_of_id(&self.scopes[i].prefs, id) {
                    Some(k) => {
                        proof {
                            assert(ps[k as int] == self.scopes@[i as int].prefs@[k as int]@);
                            assert(pref_ids(ps)[k as int] == id@);
                        }
                        return Err(NotificationPreferenceError::Duplicate);
                    },
                    None => {},
                }
                proof {
                    if pref_ids(ps).contains(id@) {
                        let j = choose|j: int| 0 <= j < pref_ids(ps).len() && pref_ids(ps)[j] == id@;
                        assert(ps[j] == self.scopes@[i as int].prefs@[j]@);
                    }
                }
                let mut p: usize = 0;
                while p < n && str_lt(self.scopes[i].prefs[p].id.as_str(), id)
                    invariant
                        i < self.scopes@.len(),
                        n == ps.len(),
                        ps == pref_views(self.scopes@[i as int].prefs@),
                        p <= n,
                        forall|j: int| 0 <= j < p ==> seq_lt(#[trigger] ps[j].id, id@),
                    decreases n - p,
                {
                    p = p + 1;
                }
                proof {
                    assert(id_ordered(ps));
                    assert forall|j: int| p <= j < ps.len() implies seq_lt(id@, #[trigger] ps[j].id) by {
                        assert(ps[j].id != id@);
                        lemma_seq_lt_order(id@, ps[p as int].id, ps[j].id);
                        lemma_seq_lt_order(ps[p as int].id, id@, ps[p as int].id);
                        if j > p {
                            assert(seq_lt(ps[p as int].id, ps[j].id));
                        }
                    }
                    lemma_insert_by_id(ps, x@, p as int);
                }
                let ghost before_entries = self.scopes@;
                self.scopes[i].prefs.insert(p, copy_pref(&x));
                proof {
                    let after = self.scopes();
                    assert(pref_views(self.scopes@[i as int].prefs@) =~= ps.insert(p as int, x@));
                    assert(after =~= before.update(
                        i as int,
                        ScopePrefs { scope: scope@, prefs: ps.insert(p as int, x@) },
                    ));
                    assert forall|a: int, c: int|
                        0 <= a < after.len() && 0 <= c < after.len() && a != c implies #[trigger] after[a].scope
                        != #[trigger] after[c].scope by {
                        assert(after[a].scope == before[a].scope && after[c].scope == before[c].scope);
                    }
                    assert forall|a: int| 0 <= a < after.len() implies id_ordered(
                        #[trigger] after[a].prefs,
                    ) && after[a].prefs.len() <= m by {
                        if a != i {
                            assert(after[a] == before[a]);
                        }
                    }
                    lemma_others_kept(before, after, m, i as int);
                }
                Ok(x)
            },
        }
    }

    /// The enabled preferences of `owner` in `scope` that apply to `event`, ordered by id.
    pub fn matches(&self, scope: &str, owner: &str, event: &str) -> (r: Result<
        Vec<MediaNotificationPreference>,
        NotificationPreferenceError,
    >)
        requires
            self.wf(),
        ensures
            match prefs_of(self.scopes(), scope@) {
                None => r == Err::<Vec<MediaNotificationPreference>, _>(
                    NotificationPreferenceError::Missing,
                ),
                Some(ps) => r matches Ok(v) && pref_views(v@) == applicable(ps, owner@, event@),
            },
    {
        let i = match self.find(scope) {
            None => {
                return Err(NotificationPreferenceError::Missing);
            },
            Some(i) => i,
        };
        let ghost ps = self.scopes()[i as int].prefs;
        let prefs = &self.scopes[i].prefs;
        let mut out: Vec<MediaNotificationPreference> = Vec::new();
        let mut k: usize = 0;
        while k < prefs.len()
            invariant
                ps == pref_views(prefs@),
                k <= ps.len(),
                pref_views(out@) == applicable(ps.take(k as int), owner@, event@),
            decreases ps.len() - k,
        {
            let x = &prefs[k];
            proof {
                assert(ps.take(k + 1).drop_last() =~= ps.take(k as int));
                assert(ps.take(k + 1).last() == x@);
            }
            let star = str_eq(x.event.as_str(), "*");
            proof {
                reveal_strlit("*");
                assert("*"@ =~= seq!['*']);
            }
            if str_eq(x.owner.as_str(), owner) && x.enabled && (str_eq(x.event.as_str(), event)
                || star) {
                let ghost before = out@;
                out.push(copy_pref(x));
                proof {
                    assert(pref_views(out@) =~= pref_views(before).push(x@));
                }
            }
            k = k + 1;
        }
        assert(ps.take(ps.len() as int) =~= ps);
        Ok(out)
    }

    /// Turns preference `id` of `scope` on or off.
    pub fn set_enabled(&mut self, scope: &str, id: &str, enabled: bool) -> (r: Result<
        (),
        NotificationPreferenceError,
    >)
        requires
            old(self).wf(),
        ensures
            final(self).wf(),
            final(self).max_scopes() == old(self).max_scopes(),
            final(self).max_preferences() == old(self).max_preferences(),
            r is Err ==> final(self).scopes() == old(self).scopes(),
            match prefs_of(old(self).scopes(), scope@) {
                None => r == Err::<(), _>(NotificationPreferenceError::Missing),
                Some(ps) => if !pref_ids(ps).contains(id@) {
                    r == Err::<(), _>(NotificationPreferenceError::Missing)
                } else {
                    let k = pref_ids(ps).index_of(id@);
                    r is Ok && prefs_of(final(self).scopes(), scope@) == Some(
                        ps.update(k, PrefView { enabled, ..ps[k] }),
                    ) && final(self).scopes().len() == old(self).scopes().len() && forall|
                        q: Seq<char>,
                    |
                        q != scope@ ==> #[trigger] prefs_of(final(self).scopes(), q) == prefs_of(
                            old(self).scopes(),
                            q,
                        )
                },
            },
    {
        let i = match self.find(scope) {
            None => {
                return Err(NotificationPreferenceError::Missing);
            },
            Some(i) => i,
        };
        let ghost before = self.scopes();
        let ghost m = self.max_preferences as nat;
        let ghost ps = before[i as int].prefs;
        assert(ps == pref_views(self.scopes@[i as int].prefs@));
        let k = match position_of_id(&self.scopes[i].prefs, id) {
            Some(k) => k,
            None => {
                proof {
                    if pref_ids(ps).contains(id@) {
                        let j = choose|j: int| 0 <= j < pref_ids(ps).len() && pref_ids(ps)[j] == id@;
                        assert(ps[j] == self.scopes@[i as int].prefs@[j]@);
                    }
                }
                return Err(NotificationPreferenceError::Missing);
            },
        };
        assert(ps[k as int] == self.scopes@[i as int].prefs@[k as int]@);
        let ghost kk = pref_ids(ps).index_of(id@);
        proof {
            assert(ps[k as int].id == id@);
            assert(pref_ids(ps)[k as int] == id@);
            assert(pref_ids(ps)[kk] == id@);
            if kk != k {
                if kk < k {
                    assert(seq_lt(ps[kk].id, ps[k as int].id));
                    lemma_seq_lt_order(id@, id@, id@);
                } else {
                    assert(seq_lt(ps[k as int].id, ps[kk].id));
                    lemma_seq_lt_order(id@, id@, id@);
                }
            }
        }
        let mut p = copy_pref(&self.scopes[i].prefs[k]);
        p.enabled = enabled;
        self.scopes[i].prefs.set(k, p);
        proof {
            let after = self.scopes();
            let nps = ps.update(k as int, PrefView { enabled, ..ps[k as int] });
            assert(pref_views(self.scopes@[i as int].prefs@) =~= nps);
            assert(after =~= before.update(i as int, ScopePrefs { scope: scope@, prefs: nps }));
            assert(id_ordered(nps)) by {
                assert forall|a: int, c: int| 0 <= a < c < nps.len() implies seq_lt(
                    #[trigger] nps[a].id,
                    #[trigger] nps[c].id,
                ) by {
                    assert(nps[a].id == ps[a].id && nps[c].id == ps[c].id);
                }
            }
            assert forall|a: int, c: int|
                0 <= a < after.len() && 0 <= c < after.len() && a != c implies #[trigger] after[a].scope
                != #[trigger] after[c].scope by {
                assert(after[a].scope == before[a].scope && after[c].scope == before[c].scope);
            }
            assert forall|a: int| 0 <= a < after.len() implies id_ordered(#[trigger] after[a].prefs)
                && after[a].prefs.len() <= m by {
                if a != i {
                    assert(after[a] == before[a]);
                }
            }
            lemma_others_kept(before, after, m, i as int);
        }
        Ok(())
    }
}

/// Every preference that `matches` returns is enabled, belongs to the owner and applies
/// to the event, and they come ordered by id.
pub proof fn lemma_applicable_sound(ps: Seq<PrefView>, owner: Seq<char>, event: Seq<char>)
    requires
        id_ordered(ps),
    ensures
        forall|i: int|
            0 <= i < applicable(ps, owner, event).len() ==> applies(
                #[trigger] applicable(ps, owner, event)[i],
                owner,
                event,
            ),
        id_ordered(applicable(ps, owner, event)),
        forall|i: int|
            0 <= i < applicable(ps, owner, event).len() ==> ps.contains(
                #[trigger] applicable(ps, owner, event)[i],
            ),
    decreases ps.len(),
{
    if ps.len() > 0 {
        let t = ps.drop_last();
        assert(id_ordered(t)) by {
            assert forall|a: int, c: int| 0 <= a < c < t.len() implies seq_lt(
                #[trigger] t[a].id,
                #[trigger] t[c].id,
            ) by {
                assert(t[a] == ps[a] && t[c] == ps[c]);
            }
        }
        lemma_applicable_sound(t, owner, event);
        let r = applicable(ps, owner, event);
        let rt = applicable(t, owner, event);
        assert forall|i: int| 0 <= i < rt.len() implies ps.contains(#[trigger] rt[i]) by {
            let j = choose|j: int| 0 <= j < t.len() && t[j] == rt[i];
            assert(ps[j] == t[j]);
        }
        if applies(ps.last(), owner, event) {
            assert forall|i: int| 0 <= i < r.len() implies ps.contains(#[trigger] r[i]) by {
                if i == r.len() - 1 {
                    assert(ps[ps.len() - 1] == r[i]);
                } else {
                    assert(r[i] == rt[i]);
                }
            }
            assert forall|a: int, c: int| 0 <= a < c < r.len() implies seq_lt(
                #[trigger] r[a].id,
                #[trigger] r[c].id,
            ) by {
                if c == r.len() - 1 {
                    assert(r[a] == rt[a]);
                    assert(ps.contains(rt[a]));
                    let j = choose|j: int| 0 <= j < t.len() && t[j] == rt[a];
                    assert(ps[j] == t[j]);
                } else {
                    assert(r[a] == rt[a] && r[c] == rt[c]);
                }
            }
        }
    }
}

} // verus!
