//! Scoped timeline-region selection locks for collaborative media editing.
use vstd::prelude::*;
use crate::text::{is_plain_name, lemma_seq_lt_order, owned, plain_name, seq_lt, str_eq, str_lt};
use crate::time::{Duration, SystemTime, MAX_NANOS};

verus! {

#[derive(Debug, Clone, Copy, PartialEq, Eq, Structural)]
pub enum SelectionLockError {
    InvalidId,
    InvalidRange,
    NotFound,
    ScopeMismatch,
    Conflict,
    Ownership,
    Expired,
    Capacity,
}

#[derive(Debug, Clone, PartialEq, Eq)]
pub struct SelectionLock {
    pub id: String,
    pub project_id: String,
    pub scope: String,
    pub owner: String,
    pub start_ms: u64,
    pub end_ms: u64,
    pub token: String,
    pub expires_at: SystemTime,
}

#[derive(Debug, Clone, PartialEq, Eq)]
pub struct SelectionLockSnapshot {
    pub project_id: String,
    pub scope: String,
    pub locks: Vec<SelectionLock>,
}

#[derive(Debug, Clone)]
struct ProjectLocks {
    project_id: String,
    locks: Vec<SelectionLock>,
}

/// The mathematical value of one project's locks.
pub struct LockSet {
    pub project_id: Seq<char>,
    pub locks: Seq<SelectionLock>,
}

/// Locks on regions of project timelines, each held until it expires or is released.
#[derive(Debug)]
pub struct MediaSelectionLockStore {
    projects: Vec<ProjectLocks>,
    max_locks_per_project: usize,
    ttl: Duration,
}

spec fn lock_set(p: ProjectLocks) -> LockSet {
    LockSet { project_id: p.project_id@, locks: p.locks@ }
}

pub open spec fn lock_project_ids(ps: Seq<LockSet>) -> Seq<Seq<char>> {
    ps.map_values(|p: LockSet| p.project_id)
}

pub open spec fn lock_project_index(ps: Seq<LockSet>, id: Seq<char>) -> int {
    lock_project_ids(ps).index_of(id)
}

pub open spec fn unique_lock_projects(ps: Seq<LockSet>) -> bool {
    forall|i: int, j: int|
        0 <= i < ps.len() && 0 <= j < ps.len() && i != j ==> #[trigger] ps[i].project_id
            != #[trigger] ps[j].project_id
}

/// The locks that have not expired at `now`.
pub open spec fn live_locks(locks: Seq<SelectionLock>, now: SystemTime) -> Seq<SelectionLock>
    decreases locks.len(),
{
    if locks.len() == 0 {
        locks
    } else if locks.last().expires_at@ > now@ {
        live_locks(locks.drop_last(), now).push(locks.last())
    } else {
        live_locks(locks.drop_last(), now)
    }
}

/// `a` sorts after `b`: by start, then by id.
pub open spec fn lock_after(a: SelectionLock, b: SelectionLock) -> bool {
    b.start_ms < a.start_ms || (b.start_ms == a.start_ms && seq_lt(b.id@, a.id@))
}

/// `sorted` with `x` placed after every lock that does not sort after it.
pub open spec fn insert_lock(sorted: Seq<SelectionLock>, x: SelectionLock) -> Seq<SelectionLock>
    decreases sorted.len(),
{
    if sorted.len() == 0 || !lock_after(sorted.last(), x) {
        sorted.push(x)
    } else {
        insert_lock(sorted.drop_last(), x).push(sorted.last())
    }
}

/// The locks ordered by start, then id, equal keys kept in their order.
pub open spec fn sort_locks(s: Seq<SelectionLock>) -> Seq<SelectionLock>
    decreases s.len(),
{
    if s.len() == 0 {
        s
    } else {
        insert_lock(sort_locks(s.drop_last()), s.last())
    }
}

/// The half-open regions `[a_start, a_end)` and `[b_start, b_end)` share an instant.
pub open spec fn share_point(a_start: u64, a_end: u64, b_start: u64, b_end: u64) -> bool {
    exists|x: int| #[trigger] within(x, a_start, a_end) && within(x, b_start, b_end)
}

/// The instant `x` lies in the half-open region `[start, end)`.
pub open spec fn within(x: int, start: u64, end: u64) -> bool {
    start <= x < end
}

/// The locks of one scope never share an instant.
pub open spec fn scope_disjoint(locks: Seq<SelectionLock>) -> bool {
    forall|i: int, j: int|
        0 <= i < locks.len() && 0 <= j < locks.len() && i != j && locks[i].scope@ == locks[j].scope@
            ==> !share_point(
            #[trigger] locks[i].start_ms,
            locks[i].end_ms,
            #[trigger] locks[j].start_ms,
            locks[j].end_ms,
        )
}

/// `acquire` refuses a region with `Conflict` exactly when some lock of the scope shares
/// an instant with it.
pub proof fn lemma_overlap_is_shared_instant(locks: Seq<SelectionLock>, scope: Seq<char>, start: u64, end: u64)
    requires
        start < end,
        forall|i: int| 0 <= i < locks.len() ==> (#[trigger] locks[i]).start_ms < locks[i].end_ms,
    ensures
        overlaps(locks, scope, start, end) <==> exists|i: int|
            0 <= i < locks.len() && (#[trigger] locks[i]).scope@ == scope && share_point(
                locks[i].start_ms,
                locks[i].end_ms,
                start,
                end,
            ),
{
    if overlaps(locks, scope, start, end) {
        let i = choose|i: int|
            0 <= i < locks.len() && (#[trigger] locks[i]).scope@ == scope && locks[i].start_ms < end && start
                < locks[i].end_ms;
        let x: int = if locks[i].start_ms >= start {
            locks[i].start_ms as int
        } else {
            start as int
        };
        assert(within(x, locks[i].start_ms, locks[i].end_ms) && within(x, start, end));
        assert(share_point(locks[i].start_ms, locks[i].end_ms, start, end));
    }
    if exists|i: int|
        0 <= i < locks.len() && (#[trigger] locks[i]).scope@ == scope && share_point(
            locks[i].start_ms,
            locks[i].end_ms,
            start,
            end,
        ) {
        let i = choose|i: int|
            0 <= i < locks.len() && (#[trigger] locks[i]).scope@ == scope && share_point(
                locks[i].start_ms,
                locks[i].end_ms,
                start,
                end,
            );
        let x = choose|x: int| #[trigger] within(x, locks[i].start_ms, locks[i].end_ms) && within(x, start, end);
        assert(locks[i].start_ms < end && start < locks[i].end_ms);
    }
}

/// A lock granted because it overlaps no lock of its scope keeps the locks of every scope
/// free of shared instants.
pub proof fn lemma_grant_keeps_disjoint(live: Seq<SelectionLock>, l: SelectionLock)
    requires
        scope_disjoint(live),
        l.start_ms < l.end_ms,
        forall|i: int| 0 <= i < live.len() ==> (#[trigger] live[i]).start_ms < live[i].end_ms,
        !overlaps(live, l.scope@, l.start_ms, l.end_ms),
    ensures
        scope_disjoint(live.push(l)),
{
    lemma_overlap_is_shared_instant(live, l.scope@, l.start_ms, l.end_ms);
    let w = live.push(l);
    assert forall|i: int, j: int|
        0 <= i < w.len() && 0 <= j < w.len() && i != j && w[i].scope@ == w[j].scope@ implies !share_point(
        #[trigger] w[i].start_ms,
        w[i].end_ms,
        #[trigger] w[j].start_ms,
        w[j].end_ms,
    ) by {
        if i == live.len() {
            assert(w[j] == live[j]);
            if share_point(w[i].start_ms, w[i].end_ms, w[j].start_ms, w[j].end_ms) {
                let x = choose|x: int| #[trigger] within(x, w[i].start_ms, w[i].end_ms) && within(x, w[j].start_ms, w[j].end_ms);
                assert(within(x, live[j].start_ms, live[j].end_ms) && within(x, l.start_ms, l.end_ms));
                assert(share_point(live[j].start_ms, live[j].end_ms, l.start_ms, l.end_ms));
            }
        } else if j == live.len() {
            assert(w[i] == live[i]);
        } else {
            assert(w[i] == live[i] && w[j] == live[j]);
        }
    }
}

/// Each lock sorts no later than the ones after it.
pub open spec fn locks_sorted(s: Seq<SelectionLock>) -> bool {
    forall|i: int, j: int| 0 <= i < j < s.len() ==> !lock_after(#[trigger] s[i], #[trigger] s[j])
}

proof fn lemma_not_after_transitive(a: SelectionLock, b: SelectionLock, c: SelectionLock)
    requires
        !lock_after(a, b),
        !lock_after(b, c),
    ensures
        !lock_after(a, c),
{
    lemma_seq_lt_order(c.id@, b.id@, a.id@);
    lemma_seq_lt_order(a.id@, b.id@, c.id@);
    lemma_seq_lt_order(b.id@, a.id@, c.id@);
    lemma_seq_lt_order(c.id@, a.id@, b.id@);
}

proof fn lemma_after_asymmetric(a: SelectionLock, b: SelectionLock)
    requires
        lock_after(a, b),
    ensures
        !lock_after(b, a),
{
    lemma_seq_lt_order(b.id@, a.id@, b.id@);
}

proof fn lemma_insert_lock(s: Seq<SelectionLock>, x: SelectionLock)
    requires
        locks_sorted(s),
    ensures
        locks_sorted(insert_lock(s, x)),
        insert_lock(s, x).to_multiset() =~= s.to_multiset().insert(x),
    decreases s.len(),
{
    broadcast use vstd::seq_lib::group_to_multiset_ensures;

    if s.len() == 0 || !lock_after(s.last(), x) {
        let r = s.push(x);
        assert forall|i: int, j: int| 0 <= i < j < r.len() implies !lock_after(#[trigger] r[i], #[trigger] r[j]) by {
            if j == s.len() as int && s.len() > 0 && i < s.len() - 1 {
                lemma_not_after_transitive(s[i], s.last(), x);
            }
        }
    } else {
        let t = s.drop_last();
        assert(locks_sorted(t));
        lemma_insert_lock(t, x);
        let u = insert_lock(t, x);
        let last = s.last();
        assert(s =~= t.push(last));
        lemma_after_asymmetric(last, x);
        assert forall|k: int| 0 <= k < u.len() implies !lock_after(#[trigger] u[k], last) by {
            assert(u.to_multiset().count(u[k]) > 0);
            if u[k] != x {
                assert(t.contains(u[k]));
                let j = choose|j: int| 0 <= j < t.len() && t[j] == u[k];
                assert(s[j] == t[j]);
                assert(!lock_after(s[j], s[s.len() - 1]));
            }
        }
        let r = u.push(last);
        assert forall|i: int, j: int| 0 <= i < j < r.len() implies !lock_after(#[trigger] r[i], #[trigger] r[j]) by {
            if j == u.len() as int {
                assert(r[i] == u[i]);
            } else {
                assert(r[i] == u[i] && r[j] == u[j]);
            }
        }
        assert(r.to_multiset() =~= u.to_multiset().insert(last));
        assert(s.to_multiset() =~= t.to_multiset().insert(last));
    }
}

/// Sorting keeps exactly the locks given, and orders them by start, then by id.
pub proof fn lemma_sort_locks(s: Seq<SelectionLock>)
    ensures
        locks_sorted(sort_locks(s)),
        sort_locks(s).to_multiset() =~= s.to_multiset(),
    decreases s.len(),
{
    broadcast use vstd::seq_lib::group_to_multiset_ensures;

    if s.len() > 0 {
        lemma_sort_locks(s.drop_last());
        lemma_insert_lock(sort_locks(s.drop_last()), s.last());
        assert(s =~= s.drop_last().push(s.last()));
    }
}

/// The index of the first lock named `id`.
pub open spec fn first_lock(locks: Seq<SelectionLock>, id: Seq<char>) -> Option<int>
    decreases locks.len(),
{
    if locks.len() == 0 {
        None
    } else if locks[0].id@ == id {
        Some(0)
    } else {
        match first_lock(locks.drop_first(), id) {
            Some(i) => Some(i + 1),
            None => None,
        }
    }
}

/// Whether a lock of `scope` overlaps `[start, end)`.
pub open spec fn overlaps(locks: Seq<SelectionLock>, scope: Seq<char>, start: u64, end: u64) -> bool {
    exists|i: int|
        0 <= i < locks.len() && (#[trigger] locks[i]).scope@ == scope && locks[i].start_ms < end
            && start < locks[i].end_ms
}

/// The locks a project has, none when it has no entry.
pub open spec fn locks_of(ps: Seq<LockSet>, id: Seq<char>) -> Seq<SelectionLock> {
    if lock_project_ids(ps).contains(id) {
        ps[lock_project_index(ps, id)].locks
    } else {
        Seq::empty()
    }
}

/// The entries with the locks of project `id` replaced by `locks` (the entry is added when
/// missing).
pub open spec fn with_locks(ps: Seq<LockSet>, id: Seq<char>, locks: Seq<SelectionLock>) -> Seq<
    LockSet,
> {
    if lock_project_ids(ps).contains(id) {
        ps.update(lock_project_index(ps, id), LockSet { project_id: id, locks })
    } else {
        ps.push(LockSet { project_id: id, locks })
    }
}

/// The projects after dropping expired locks and then empty projects.
pub open spec fn after_expiry(ps: Seq<LockSet>, now: SystemTime) -> Seq<LockSet>
    decreases ps.len(),
{
    if ps.len() == 0 {
        ps
    } else {
        let p = ps.last();
        let kept = live_locks(p.locks, now);
        let rest = after_expiry(ps.drop_last(), now);
        if kept.len() > 0 {
            rest.push(LockSet { project_id: p.project_id, locks: kept })
        } else {
            rest
        }
    }
}

pub open spec fn lock_count(ps: Seq<LockSet>) -> nat
    decreases ps.len(),
{
    if ps.len() == 0 {
        0
    } else {
        lock_count(ps.drop_last()) + ps.last().locks.len()
    }
}

fn copy_lock(l: &SelectionLock) -> (r: SelectionLock)
    ensures
        r == *l,
{
    SelectionLock {
        id: l.id.clone(),
        project_id: l.project_id.clone(),
        scope: l.scope.clone(),
        owner: l.owner.clone(),
        start_ms: l.start_ms,
        end_ms: l.end_ms,
        token: l.token.clone(),
        expires_at: l.expires_at,
    }
}

fn lock_after_exec(a: &SelectionLock, b: &SelectionLock) -> (r: bool)
    ensures
        r == lock_after(*a, *b),
{
    b.start_ms < a.start_ms || (b.start_ms == a.start_ms && str_lt(b.id.as_str(), a.id.as_str()))
}

proof fn lemma_insert_lock_len(sorted: Seq<SelectionLock>, x: SelectionLock)
    ensures
        insert_lock(sorted, x).len() == sorted.len() + 1,
    decreases sorted.len(),
{
    if sorted.len() > 0 && lock_after(sorted.last(), x) {
        lemma_insert_lock_len(sorted.drop_last(), x);
    }
}

proof fn lemma_insert_lock_at(sorted: Seq<SelectionLock>, x: SelectionLock, p: int)
    requires
        0 <= p <= sorted.len(),
        forall|j: int| p <= j < sorted.len() ==> lock_after(#[trigger] sorted[j], x),
        p == 0 || !lock_after(sorted[p - 1], x),
    ensures
        insert_lock(sorted, x) == sorted.insert(p, x),
    decreases sorted.len(),
{
    if sorted.len() == 0 || !lock_after(sorted.last(), x) {
        assert(p == sorted.len());
        assert(sorted.insert(p, x) =~= sorted.push(x));
    } else {
        let t = sorted.drop_last();
        assert forall|j: int| p <= j < t.len() implies lock_after(#[trigger] t[j], x) by {
            assert(t[j] == sorted[j]);
        }
        if p > 0 {
            assert(t[p - 1] == sorted[p - 1]);
        }
        lemma_insert_lock_at(t, x, p);
        assert(sorted.insert(p, x) =~= t.insert(p, x).push(sorted.last()));
    }
}

/// The locks sorted by start, then id, in a stable way.
fn sorted_locks(v: &Vec<SelectionLock>) -> (r: Vec<SelectionLock>)
    ensures
        r@ == sort_locks(v@),
{
    let mut sorted: Vec<SelectionLock> = Vec::new();
    let mut k: usize = 0;
    while k < v.len()
        invariant
            k <= v@.len(),
            sorted@ == sort_locks(v@.take(k as int)),
        decreases v@.len() - k,
    {
        let x = copy_lock(&v[k]);
        let mut p = sorted.len();
        while p > 0 && lock_after_exec(&sorted[p - 1], &x)
            invariant
                p <= sorted@.len(),
                forall|j: int| p <= j < sorted@.len() ==> lock_after(#[trigger] sorted@[j], x),
            decreases p,
        {
            p = p - 1;
        }
        proof {
            lemma_insert_lock_at(sorted@, x, p as int);
            let t = v@.take(k + 1);
            assert(t.drop_last() =~= v@.take(k as int));
            assert(t.last() == x);
        }
        sorted.insert(p, x);
        k = k + 1;
    }
    assert(v@.take(v@.len() as int) =~= v@);
    sorted
}

fn snapshot_of(project_id: &str, scope: &str, locks: &Vec<SelectionLock>) -> (s: SelectionLockSnapshot)
    ensures
        s.project_id@ == project_id@,
        s.scope@ == scope@,
        s.locks@ == sort_locks(locks@),
{
    SelectionLockSnapshot {
        project_id: owned(project_id),
        scope: owned(scope),
        locks: sorted_locks(locks),
    }
}

fn prune(locks: &Vec<SelectionLock>, now: SystemTime) -> (r: Vec<SelectionLock>)
    ensures
        r@ == live_locks(locks@, now),
{
    let mut r: Vec<SelectionLock> = Vec::new();
    let mut i: usize = 0;
    while i < locks.len()
        invariant
            i <= locks@.len(),
            r@ == live_locks(locks@.take(i as int), now),
        decreases locks@.len() - i,
    {
        proof {
            let t = locks@.take(i + 1);
            assert(t.drop_last() =~= locks@.take(i as int));
            assert(t.last() == locks@[i as int]);
        }
        if now.before(&locks[i].expires_at) {
            r.push(copy_lock(&locks[i]));
        }
        i = i + 1;
    }
    assert(locks@.take(locks@.len() as int) =~= locks@);
    r
}

fn has_overlap(live: &Vec<SelectionLock>, scope: &str, start_ms: u64, end_ms: u64) -> (r: bool)
    ensures
        r == overlaps(live@, scope@, start_ms, end_ms),
{
    let mut k: usize = 0;
    while k < live.len()
        invariant
            k <= live@.len(),
            forall|j: int|
                0 <= j < k ==> !((#[trigger] live@[j]).scope@ == scope@ && live@[j].start_ms < end_ms
                    && start_ms < live@[j].end_ms),
        decreases live@.len() - k,
    {
        if str_eq(live[k].scope.as_str(), scope) && live[k].start_ms < end_ms && start_ms
            < live[k].end_ms {
            assert(overlaps(live@, scope@, start_ms, end_ms));
            return true;
        }
        k = k + 1;
    }
    false
}

proof fn lemma_live_len(locks: Seq<SelectionLock>, now: SystemTime)
    ensures
        live_locks(locks, now).len() <= locks.len(),
    decreases locks.len(),
{
    if locks.len() > 0 {
        lemma_live_len(locks.drop_last(), now);
    }
}

fn find_lock(locks: &Vec<SelectionLock>, id: &str) -> (r: Option<usize>)
    ensures
        r matches Some(i) ==> first_lock(locks@, id@) == Some(i as int) && i < locks@.len(),
        r is None ==> first_lock(locks@, id@) is None,
{
    let mut i: usize = 0;
    assert(locks@.skip(0) =~= locks@);
    while i < locks.len()
        invariant
            i <= locks@.len(),
            first_lock(locks@, id@) == match first_lock(locks@.skip(i as int), id@) {
                Some(k) => Some(k + i),
                None => None::<int>,
            },
        decreases locks@.len() - i,
    {
        proof {
            let s = locks@.skip(i as int);
            assert(s.drop_first() =~= locks@.skip(i + 1));
            assert(s[0] == locks@[i as int]);
        }
        if str_eq(locks[i].id.as_str(), id) {
            return Some(i);
        }
        i = i + 1;
    }
    assert(locks@.skip(i as int).len() == 0);
    None
}

proof fn lemma_first_lock(locks: Seq<SelectionLock>, id: Seq<char>)
    ensures
        first_lock(locks, id) matches Some(i) ==> 0 <= i < locks.len() && locks[i].id@ == id,
    decreases locks.len(),
{
    if locks.len() > 0 {
        lemma_first_lock(locks.drop_first(), id);
    }
}

impl MediaSelectionLockStore {
    pub closed spec fn projects(&self) -> Seq<LockSet> {
        self.projects@.map_values(|p: ProjectLocks| lock_set(p))
    }

    pub closed spec fn max_locks(&self) -> nat {
        self.max_locks_per_project as nat
    }

    pub closed spec fn ttl(&self) -> Duration {
        self.ttl
    }

    pub closed spec fn wf(&self) -> bool {
        &&& self.max_locks_per_project >= 1
        &&& unique_lock_projects(self.projects())
    }

    /// A store allowing up to `max_locks_per_project` live locks per project (at least one),
    /// each held for `ttl` after it is taken or renewed.
    pub fn new(max_locks_per_project: usize, ttl: Duration) -> (s: MediaSelectionLockStore)
        ensures
            s.wf(),
            s.projects().len() == 0,
            s.max_locks() == if max_locks_per_project < 1 {
                1
            } else {
                max_locks_per_project as nat
            },
            s.ttl() == ttl,
    {
        let s = MediaSelectionLockStore {
            projects: Vec::new(),
            max_locks_per_project: if max_locks_per_project < 1 {
                1
            } else {
                max_locks_per_project
            },
            ttl,
        };
        assert(s.projects() =~= Seq::<LockSet>::empty());
        s
    }

    fn find(&self, id: &str) -> (r: Option<usize>)
        requires
            self.wf(),
        ensures
            r matches Some(i) ==> i < self.projects().len() && self.projects()[i as int].project_id
                == id@ && lock_project_ids(self.projects()).contains(id@) && lock_project_index(
                self.projects(),
                id@,
            ) == i,
            r is None ==> !lock_project_ids(self.projects()).contains(id@),
    {
        let ghost ids = lock_project_ids(self.projects());
        let mut i: usize = 0;
        while i < self.projects.len()
            invariant
                self.wf(),
                ids == lock_project_ids(self.projects()),
                i <= self.projects@.len(),
                forall|j: int| 0 <= j < i ==> self.projects@[j].project_id@ != id@,
            decreases self.projects@.len() - i,
        {
            if str_eq(self.projects[i].project_id.as_str(), id) {
                proof {
                    assert(ids[i as int] == id@);
                    let k = ids.index_of(id@);
                    assert(ids[k] == self.projects()[k].project_id);
                }
                return Some(i);
            }
            i = i + 1;
        }
        proof {
            if ids.contains(id@) {
                let k = ids.index_of(id@);
                assert(ids[k] == self.projects()[k].project_id);
            }
        }
        None
    }

    /// Replaces the locks of project `id`, adding its entry when missing.
    fn put(&mut self, id: &str, locks: Vec<SelectionLock>, at: Option<usize>)
        requires
            old(self).wf(),
            at matches Some(i) ==> i < old(self).projects().len() && i == lock_project_index(
                old(self).projects(),
                id@,
            ) && lock_project_ids(old(self).projects()).contains(id@),
            at is None ==> !lock_project_ids(old(self).projects()).contains(id@),
        ensures
            final(self).wf(),
            final(self).max_locks() == old(self).max_locks(),
            final(self).ttl() == old(self).ttl(),
            final(self).projects() == with_locks(old(self).projects(), id@, locks@),
    {
        let ghost before = self.projects();
        match at {
            Some(i) => {
                proof {
                    assert(before[i as int].project_id == id@);
                }
                self.projects.set(i, ProjectLocks { project_id: owned(id), locks });
                proof {
                    let ps = self.projects();
                    assert(ps =~= before.update(i as int, LockSet { project_id: id@, locks: locks@ }));
                    assert forall|a: int, b: int|
                        0 <= a < ps.len() && 0 <= b < ps.len() && a != b implies #[trigger] ps[a].project_id
                        != #[trigger] ps[b].project_id by {
                        assert(ps[a].project_id == before[a].project_id && ps[b].project_id
                            == before[b].project_id);
                    }
                }
            },
            None => {
                self.projects.push(ProjectLocks { project_id: owned(id), locks });
                proof {
                    let ps = self.projects();
                    assert(ps =~= before.push(LockSet { project_id: id@, locks: locks@ }));
                    assert forall|a: int, b: int|
                        0 <= a < ps.len() && 0 <= b < ps.len() && a != b implies #[trigger] ps[a].project_id
                        != #[trigger] ps[b].project_id by {
                        if a == before.len() {
                            assert(lock_project_ids(before)[b] == before[b].project_id);
                        } else if b == before.len() {
                            assert(lock_project_ids(before)[a] == before[a].project_id);
                        }
                    }
                }
            },
        }
    }

    /// Locks `[start_ms, end_ms)` of a project for `owner`, after dropping the project's
    /// expired locks; refused when the region overlaps a live lock of the same scope.
    pub fn acquire(
        &mut self,
        project_id: &str,
        scope: &str,
        owner: &str,
        id: &str,
        start_ms: u64,
        end_ms: u64,
        token: &str,
        now: SystemTime,
    ) -> (r: Result<SelectionLockSnapshot, SelectionLockError>)
        requires
            old(self).wf(),
            now@ + old(self).ttl()@ <= MAX_NANOS,
        ensures
            final(self).wf(),
            final(self).max_locks() == old(self).max_locks(),
            final(self).ttl() == old(self).ttl(),
            !(plain_name(project_id@, 128) && plain_name(scope@, 128) && plain_name(owner@, 128)
                && plain_name(id@, 128) && plain_name(token@, 128)) ==> r == Err::<
                SelectionLockSnapshot,
                _,
            >(SelectionLockError::InvalidId) && final(self).projects() == old(self).projects(),
            plain_name(project_id@, 128) && plain_name(scope@, 128) && plain_name(owner@, 128)
                && plain_name(id@, 128) && plain_name(token@, 128) && end_ms <= start_ms ==> r
                == Err::<SelectionLockSnapshot, _>(SelectionLockError::InvalidRange) && final(
                self).projects() == old(self).projects(),
            plain_name(project_id@, 128) && plain_name(scope@, 128) && plain_name(owner@, 128)
                && plain_name(id@, 128) && plain_name(token@, 128) && end_ms > start_ms ==> ({
                let live = live_locks(locks_of(old(self).projects(), project_id@), now);
                if live.len() >= old(self).max_locks() {
                    r == Err::<SelectionLockSnapshot, _>(SelectionLockError::Capacity) && final(
                        self).projects() == with_locks(old(self).projects(), project_id@, live)
                } else if overlaps(live, scope@, start_ms, end_ms) {
                    r == Err::<SelectionLockSnapshot, _>(SelectionLockError::Conflict) && final(
                        self).projects() == with_locks(old(self).projects(), project_id@, live)
                } else {
                    exists|l: SelectionLock|
                        l.id@ == id@ && l.project_id@ == project_id@ && l.scope@ == scope@
                            && l.owner@ == owner@ && l.start_ms == start_ms && l.end_ms == end_ms
                            && l.token@ == token@ && l.expires_at@ == now@ + old(self).ttl()@
                            && final(self).projects() == with_locks(
                            old(self).projects(),
                            project_id@,
                            live.push(l),
                        ) && (r matches Ok(s) && s.project_id@ == project_id@ && s.scope@ == scope@
                            && s.locks@ == sort_locks(live.push(l)))
                }
            }),
    {
        if !is_plain_name(project_id, 128) || !is_plain_name(scope, 128) || !is_plain_name(
            owner,
            128,
        ) || !is_plain_name(id, 128) || !is_plain_name(token, 128) {
            return Err(SelectionLockError::InvalidId);
        }
        if end_ms <= start_ms {
            return Err(SelectionLockError::InvalidRange);
        }
        let at = self.find(project_id);
        let empty: Vec<SelectionLock> = Vec::new();
        let current = match at {
            Some(i) => prune(&self.projects[i].locks, now),
            None => prune(&empty, now),
        };
        proof {
            if let Some(i) = at {
                assert(self.projects()[i as int] == lock_set(self.projects@[i as int]));
            }
            assert(current@ == live_locks(locks_of(self.projects(), project_id@), now));
        }
        let mut live = current;
        if live.len() >= self.max_locks_per_project {
            self.put(project_id, live, at);
            return Err(SelectionLockError::Capacity);
        }
        if has_overlap(&live, scope, start_ms, end_ms) {
            self.put(project_id, live, at);
            return Err(SelectionLockError::Conflict);
        }
        let expires = match now.checked_add(self.ttl) {
            Some(t) => t,
            None => now,
        };
        let lock = SelectionLock {
            id: owned(id),
            project_id: owned(project_id),
            scope: owned(scope),
            owner: owned(owner),
            start_ms,
            end_ms,
            token: owned(token),
            expires_at: expires,
        };
        live.push(lock);
        let snap = snapshot_of(project_id, scope, &live);
        self.put(project_id, live, at);
        Ok(snap)
    }

    /// Extends lock `id` of a project by the time-to-live, for the holder of its token.
    pub fn renew(&mut self, project_id: &str, scope: &str, id: &str, token: &str, now: SystemTime) -> (r:
        Result<SelectionLockSnapshot, SelectionLockError>)
        requires
            old(self).wf(),
            now@ + old(self).ttl()@ <= MAX_NANOS,
        ensures
            final(self).wf(),
            final(self).max_locks() == old(self).max_locks(),
            final(self).ttl() == old(self).ttl(),
            !lock_project_ids(old(self).projects()).contains(project_id@) ==> r == Err::<
                SelectionLockSnapshot,
                _,
            >(SelectionLockError::NotFound),
            lock_project_ids(old(self).projects()).contains(project_id@) ==> ({
                let locks = locks_of(old(self).projects(), project_id@);
                match first_lock(locks, id@) {
                    None => r == Err::<SelectionLockSnapshot, _>(SelectionLockError::NotFound),
                    Some(k) => if locks[k].scope@ != scope@ {
                        r == Err::<SelectionLockSnapshot, _>(SelectionLockError::ScopeMismatch)
                    } else if locks[k].token@ != token@ {
                        r == Err::<SelectionLockSnapshot, _>(SelectionLockError::Ownership)
                    } else if locks[k].expires_at@ <= now@ {
                        r == Err::<SelectionLockSnapshot, _>(SelectionLockError::Expired)
                    } else {
                        exists|t: SystemTime|
                            #![trigger t@]
                            t@ == now@ + old(self).ttl()@ && ({
                                let updated = locks.update(
                                    k,
                                    SelectionLock { expires_at: t, ..locks[k] },
                                );
                                final(self).projects() == with_locks(
                                    old(self).projects(),
                                    project_id@,
                                    updated,
                                ) && (r matches Ok(s) && s.project_id@ == project_id@ && s.scope@
                                    == scope@ && s.locks@ == sort_locks(updated))
                            })
                    },
                }
            }),
            r is Err ==> final(self).projects() == old(self).projects(),
    {
        let i = match self.find(project_id) {
            None => {
                return Err(SelectionLockError::NotFound);
            },
            Some(i) => i,
        };
        assert(self.projects()[i as int] == lock_set(self.projects@[i as int]));
        let k = match find_lock(&self.projects[i].locks, id) {
            None => {
                return Err(SelectionLockError::NotFound);
            },
            Some(k) => k,
        };
        if !str_eq(self.projects[i].locks[k].scope.as_str(), scope) {
            return Err(SelectionLockError::ScopeMismatch);
        }
        if !str_eq(self.projects[i].locks[k].token.as_str(), token) {
            return Err(SelectionLockError::Ownership);
        }
        if !now.before(&self.projects[i].locks[k].expires_at) {
            return Err(SelectionLockError::Expired);
        }
        let expires = match now.checked_add(self.ttl) {
            Some(t) => t,
            None => now,
        };
        let ghost before = self.projects();
        let ghost old_locks = self.projects@[i as int].locks@;
        self.projects[i].locks[k].expires_at = expires;
        proof {
            let ps = self.projects();
            assert(self.projects@[i as int].locks@ =~= old_locks.update(
                k as int,
                SelectionLock { expires_at: expires, ..old_locks[k as int] },
            ));
            assert(ps =~= before.update(i as int, lock_set(self.projects@[i as int])));
            assert forall|a: int, b: int|
                0 <= a < ps.len() && 0 <= b < ps.len() && a != b implies #[trigger] ps[a].project_id
                != #[trigger] ps[b].project_id by {
                assert(ps[a].project_id == before[a].project_id && ps[b].project_id
                    == before[b].project_id);
            }
        }
        Ok(snapshot_of(project_id, scope, &self.projects[i].locks))
    }

    /// Releases lock `id` of a project for the holder of its token; a project left without
    /// locks is dropped.
    pub fn release(&mut self, project_id: &str, scope: &str, id: &str, token: &str) -> (r: Result<
        SelectionLockSnapshot,
        SelectionLockError,
    >)
        requires
            old(self).wf(),
        ensures
            final(self).wf(),
            final(self).max_locks() == old(self).max_locks(),
            final(self).ttl() == old(self).ttl(),
            !lock_project_ids(old(self).projects()).contains(project_id@) ==> r == Err::<
                SelectionLockSnapshot,
                _,
            >(SelectionLockError::NotFound),
            lock_project_ids(old(self).projects()).contains(project_id@) ==> ({
                let locks = locks_of(old(self).projects(), project_id@);
                match first_lock(locks, id@) {
                    None => r == Err::<SelectionLockSnapshot, _>(SelectionLockError::NotFound),
                    Some(k) => if locks[k].scope@ != scope@ {
                        r == Err::<SelectionLockSnapshot, _>(SelectionLockError::ScopeMismatch)
                    } else if locks[k].token@ != token@ {
                        r == Err::<SelectionLockSnapshot, _>(SelectionLockError::Ownership)
                    } else {
                        let rest = locks.remove(k);
                        (r matches Ok(s) && s.project_id@ == project_id@ && s.scope@ == scope@
                            && s.locks@ == sort_locks(rest)) && final(self).projects() == if rest.len()
                            == 0 {
                            old(self).projects().remove(
                                lock_project_index(old(self).projects(), project_id@),
                            )
                        } else {
                            with_locks(old(self).projects(), project_id@, rest)
                        }
                    },
                }
            }),
            r is Err ==> final(self).projects() == old(self).projects(),
    {
        let i = match self.find(project_id) {
            None => {
                return Err(SelectionLockError::NotFound);
            },
            Some(i) => i,
        };
        assert(self.projects()[i as int] == lock_set(self.projects@[i as int]));
        let k = match find_lock(&self.projects[i].locks, id) {
            None => {
                return Err(SelectionLockError::NotFound);
            },
            Some(k) => k,
        };
        if !str_eq(self.projects[i].locks[k].scope.as_str(), scope) {
            return Err(SelectionLockError::ScopeMismatch);
        }
        if !str_eq(self.projects[i].locks[k].token.as_str(), token) {
            return Err(SelectionLockError::Ownership);
        }
        let ghost before = self.projects();
        let ghost old_locks = self.projects@[i as int].locks@;
        self.projects[i].locks.remove(k);
        let snap = snapshot_of(project_id, scope, &self.projects[i].locks);
        if self.projects[i].locks.len() == 0 {
            self.projects.remove(i);
            proof {
                let ps = self.projects();
                assert(ps =~= before.remove(i as int));
                assert forall|a: int, b: int|
                    0 <= a < ps.len() && 0 <= b < ps.len() && a != b implies #[trigger] ps[a].project_id
                    != #[trigger] ps[b].project_id by {
                    let a2 = if a < i { a } else { a + 1 };
                    let b2 = if b < i { b } else { b + 1 };
                    assert(ps[a] == before[a2] && ps[b] == before[b2]);
                }
            }
        } else {
            proof {
                let ps = self.projects();
                assert(ps =~= before.update(i as int, lock_set(self.projects@[i as int])));
                assert(lock_set(self.projects@[i as int]) == (LockSet {
                    project_id: project_id@,
                    locks: old_locks.remove(k as int),
                }));
                assert forall|a: int, b: int|
                    0 <= a < ps.len() && 0 <= b < ps.len() && a != b implies #[trigger] ps[a].project_id
                    != #[trigger] ps[b].project_id by {
                    assert(ps[a].project_id == before[a].project_id && ps[b].project_id
                        == before[b].project_id);
                }
            }
        }
        Ok(snap)
    }

    /// Drops every expired lock, then every project left without locks; answers how many
    /// locks were dropped.
    pub fn cleanup_expired(&mut self, now: SystemTime) -> (removed: usize)
        requires
            old(self).wf(),
            lock_count(old(self).projects()) <= usize::MAX,
        ensures
            final(self).wf(),
            final(self).max_locks() == old(self).max_locks(),
            final(self).ttl() == old(self).ttl(),
            final(self).projects() == after_expiry(old(self).projects(), now),
            removed == lock_count(old(self).projects()) - lock_count(final(self).projects()),
    {
        let ghost orig = self.projects();
        let mut kept: Vec<ProjectLocks> = Vec::new();
        let mut removed: usize = 0;
        let mut i: usize = 0;
        let n = self.projects.len();
        while i < n
            invariant
                n == self.projects@.len(),
                i <= n,
                self.wf(),
                orig == self.projects(),
                lock_count(orig) <= usize::MAX,
                kept@.map_values(|p: ProjectLocks| lock_set(p)) == after_expiry(
                    orig.take(i as int),
                    now,
                ),
                forall|q: int|
                    0 <= q < kept@.len() ==> exists|w: int|
                        0 <= w < i && (#[trigger] kept@[q]).project_id@ == orig[w].project_id,
                unique_lock_projects(kept@.map_values(|p: ProjectLocks| lock_set(p))),
                lock_count(after_expiry(orig.take(i as int), now)) <= lock_count(orig.take(i as int)),
                lock_count(orig.take(i as int)) <= lock_count(orig),
                removed == lock_count(orig.take(i as int)) - lock_count(
                    after_expiry(orig.take(i as int), now),
                ),
            decreases n - i,
        {
            let p = &self.projects[i];
            let ghost ps = orig[i as int];
            assert(ps == lock_set(*p));
            let live = prune(&p.locks, now);
            proof {
                lemma_live_len(ps.locks, now);
            }
            let dropped = p.locks.len() - live.len();
            let ghost before_kept = kept@.map_values(|x: ProjectLocks| lock_set(x));
            proof {
                lemma_live_len(ps.locks, now);
                let t = orig.take(i + 1);
                assert(t.drop_last() =~= orig.take(i as int));
                assert(t.last() == ps);
                lemma_count_prefix(orig, i as int);
            }
            if live.len() > 0 {
                let np = ProjectLocks { project_id: p.project_id.clone(), locks: live };
                kept.push(np);
                proof {
                    let ks = kept@.map_values(|x: ProjectLocks| lock_set(x));
                    assert(ks =~= before_kept.push(lock_set(np)));
                    assert forall|a: int, b: int|
                        0 <= a < ks.len() && 0 <= b < ks.len() && a != b implies #[trigger] ks[a].project_id
                        != #[trigger] ks[b].project_id by {
                        assert(ks[a] == lock_set(kept@[a]));
                        assert(ks[b] == lock_set(kept@[b]));
                        if a == before_kept.len() {
                            let w = choose|w: int| 0 <= w < i && kept@[b].project_id@ == orig[w].project_id;
                            assert(orig[w].project_id != orig[i as int].project_id);
                        } else if b == before_kept.len() {
                            let w = choose|w: int| 0 <= w < i && kept@[a].project_id@ == orig[w].project_id;
                            assert(orig[w].project_id != orig[i as int].project_id);
                        } else {
                            assert(ks[a] == before_kept[a] && ks[b] == before_kept[b]);
                        }
                    }
                    assert forall|q: int|
                        0 <= q < kept@.len() implies exists|w: int|
                            0 <= w < i + 1 && (#[trigger] kept@[q]).project_id@ == orig[w].project_id by {
                        if q == before_kept.len() {
                            assert(kept@[q].project_id@ == orig[i as int].project_id);
                        } else {
                            let w = choose|w: int| 0 <= w < i && kept@[q].project_id@ == orig[w].project_id;
                        }
                    }
                    let a = after_expiry(orig.take(i as int), now);
                    let b = a.push(LockSet { project_id: ps.project_id, locks: live_locks(ps.locks, now) });
                    assert(b.drop_last() =~= a);
                    assert(lock_count(b) == lock_count(a) + live_locks(ps.locks, now).len());
                }
            } else {
                proof {
                    assert forall|q: int|
                        0 <= q < kept@.len() implies exists|w: int|
                            0 <= w < i + 1 && (#[trigger] kept@[q]).project_id@ == orig[w].project_id by {
                        let w = choose|w: int| 0 <= w < i && kept@[q].project_id@ == orig[w].project_id;
                    }
                }
            }
            removed = removed + dropped;
            i = i + 1;
        }
        assert(orig.take(n as int) =~= orig);
        self.projects = kept;
        removed
    }
}

proof fn lemma_count_prefix(ps: Seq<LockSet>, i: int)
    requires
        0 <= i < ps.len(),
    ensures
        lock_count(ps.take(i + 1)) <= lock_count(ps),
        lock_count(ps.take(i + 1)) == lock_count(ps.take(i)) + ps[i].locks.len(),
    decreases ps.len(),
{
    let t = ps.take(i + 1);
    assert(t.drop_last() =~= ps.take(i));
    if i + 1 < ps.len() {
        lemma_count_prefix(ps.drop_last(), i);
        assert(ps.drop_last().take(i + 1) =~= ps.take(i + 1));
    } else {
        assert(t =~= ps);
    }
}

} // verus!
