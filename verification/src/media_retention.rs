//! Deterministic retention planning for generated media artifacts.
use vstd::prelude::*;
use crate::media_processing::{MediaPath, media_path_check};
use crate::text::{opt_view, contains_str, is_plain_name, owned, plain_name, str_eq, views};
use crate::time::{Duration, SystemTime};

verus! {

#[derive(Debug, Clone, Copy, PartialEq, Eq, Structural)]
pub enum RetentionError {
    UnsafePath,
    InvalidScope,
    InvalidArtifact,
    TooManyArtifacts,
}

#[derive(Debug, Clone, Copy, PartialEq, Eq, Structural)]
pub struct RetentionPolicy {
    pub max_age: Duration,
    pub max_bytes: u64,
    pub max_artifacts: usize,
}

#[derive(Debug, Clone, PartialEq, Eq)]
pub struct MediaArtifact {
    pub scope: String,
    pub path: MediaPath,
    pub bytes: u64,
    pub created_at: SystemTime,
    pub task_id: Option<String>,
}

#[derive(Debug, Clone, PartialEq, Eq)]
pub struct CleanupReport {
    pub removed: Vec<MediaPath>,
    pub retained: Vec<MediaPath>,
    pub removed_bytes: u64,
}

/// The mathematical value of an artifact; `created_at` in nanoseconds since the epoch.
pub struct ArtifactView {
    pub scope: Seq<char>,
    pub path: Seq<char>,
    pub bytes: u64,
    pub created_at: nat,
    pub task_id: Option<Seq<char>>,
}


impl View for MediaArtifact {
    type V = ArtifactView;

    open spec fn view(&self) -> ArtifactView {
        ArtifactView {
            scope: self.scope@,
            path: self.path@,
            bytes: self.bytes,
            created_at: self.created_at@,
            task_id: opt_view(self.task_id),
        }
    }
}

pub open spec fn artifact_views(v: Seq<MediaArtifact>) -> Seq<ArtifactView> {
    v.map_values(|a: MediaArtifact| a@)
}

pub open spec fn path_views(v: Seq<MediaPath>) -> Seq<Seq<char>> {
    v.map_values(|p: MediaPath| p@)
}

/// Largest scope name or task id, in bytes.
pub const MAX_NAME_BYTES: usize = 128;

/// The artifacts of `scope`, in registration order.
pub open spec fn scope_artifacts(s: Seq<ArtifactView>, scope: Seq<char>) -> Seq<ArtifactView>
    decreases s.len(),
{
    if s.len() == 0 {
        s
    } else if s.last().scope == scope {
        scope_artifacts(s.drop_last(), scope).push(s.last())
    } else {
        scope_artifacts(s.drop_last(), scope)
    }
}

pub open spec fn bytes_sum(s: Seq<ArtifactView>) -> nat
    decreases s.len(),
{
    if s.len() == 0 {
        0
    } else {
        bytes_sum(s.drop_last()) + s.last().bytes as nat
    }
}

/// `x` placed after every element created no later than it.
pub open spec fn insert_by_time(sorted: Seq<ArtifactView>, x: ArtifactView) -> Seq<ArtifactView>
    decreases sorted.len(),
{
    if sorted.len() == 0 || sorted.last().created_at <= x.created_at {
        sorted.push(x)
    } else {
        insert_by_time(sorted.drop_last(), x).push(sorted.last())
    }
}

/// Stable sort by creation time.
pub open spec fn sort_by_time(s: Seq<ArtifactView>) -> Seq<ArtifactView>
    decreases s.len(),
{
    if s.len() == 0 {
        s
    } else {
        insert_by_time(sort_by_time(s.drop_last()), s.last())
    }
}

pub open spec fn time_ordered(s: Seq<ArtifactView>) -> bool {
    forall|i: int, j: int| 0 <= i <= j < s.len() ==> (#[trigger] s[i]).created_at <= (
    #[trigger] s[j]).created_at
}

/// The mathematical value of a cleanup report, with the running byte total.
pub struct Plan {
    pub removed: Seq<Seq<char>>,
    pub retained: Seq<Seq<char>>,
    pub removed_bytes: u64,
    pub total: u64,
}

pub open spec fn sat_add(a: u64, b: u64) -> u64 {
    if a + b > u64::MAX {
        u64::MAX
    } else {
        (a + b) as u64
    }
}

pub open spec fn sat_sub(a: u64, b: u64) -> u64 {
    if a < b {
        0
    } else {
        (a - b) as u64
    }
}

/// An artifact is removed when it is expired, or the bytes still kept exceed the budget,
/// or enough artifacts are retained already; and only if no task still uses it.
pub open spec fn removable(p: Plan, a: ArtifactView, policy: RetentionPolicy, now: nat) -> bool {
    let age: nat = if now >= a.created_at {
        (now - a.created_at) as nat
    } else {
        0
    };
    (age > policy.max_age@ || p.total > policy.max_bytes || p.retained.len()
        >= policy.max_artifacts) && a.task_id is None
}

pub open spec fn plan_step(p: Plan, a: ArtifactView, policy: RetentionPolicy, now: nat) -> Plan {
    if removable(p, a, policy, now) {
        Plan {
            removed: p.removed.push(a.path),
            removed_bytes: sat_add(p.removed_bytes, a.bytes),
            total: sat_sub(p.total, a.bytes),
            ..p
        }
    } else {
        Plan { retained: p.retained.push(a.path), ..p }
    }
}

pub open spec fn plan_over(s: Seq<ArtifactView>, policy: RetentionPolicy, now: nat, start: Plan) -> Plan
    decreases s.len(),
{
    if s.len() == 0 {
        start
    } else {
        plan_step(plan_over(s.drop_last(), policy, now, start), s.last(), policy, now)
    }
}

/// The plan for the artifacts `s` of one scope: oldest first, with the byte total of all
/// of them to start from.
pub open spec fn cleanup_plan(s: Seq<ArtifactView>, policy: RetentionPolicy, now: nat) -> Plan {
    plan_over(
        sort_by_time(s),
        policy,
        now,
        Plan {
            removed: Seq::empty(),
            retained: Seq::empty(),
            removed_bytes: 0,
            total: bytes_sum(s) as u64,
        },
    )
}

proof fn lemma_insert_len(sorted: Seq<ArtifactView>, x: ArtifactView)
    ensures
        insert_by_time(sorted, x).len() == sorted.len() + 1,
    decreases sorted.len(),
{
    if sorted.len() > 0 && sorted.last().created_at > x.created_at {
        lemma_insert_len(sorted.drop_last(), x);
    }
}

proof fn lemma_insert_by_time(sorted: Seq<ArtifactView>, x: ArtifactView, p: int)
    requires
        time_ordered(sorted),
        0 <= p <= sorted.len(),
        forall|j: int| 0 <= j < p ==> (#[trigger] sorted[j]).created_at <= x.created_at,
        forall|j: int| p <= j < sorted.len() ==> (#[trigger] sorted[j]).created_at > x.created_at,
    ensures
        insert_by_time(sorted, x) == sorted.insert(p, x),
        time_ordered(sorted.insert(p, x)),
    decreases sorted.len(),
{
    let r = sorted.insert(p, x);
    if sorted.len() == 0 || sorted.last().created_at <= x.created_at {
        if sorted.len() > 0 {
            assert(p == sorted.len());
        }
        assert(r =~= sorted.push(x));
    } else {
        let t = sorted.drop_last();
        assert forall|j: int| p <= j < t.len() implies (#[trigger] t[j]).created_at > x.created_at by {
            assert(t[j] == sorted[j]);
        }
        assert forall|j: int| 0 <= j < p implies (#[trigger] t[j]).created_at <= x.created_at by {
            assert(t[j] == sorted[j]);
        }
        lemma_insert_by_time(t, x, p);
        assert(r =~= t.insert(p, x).push(sorted.last()));
    }
    assert forall|i: int, j: int| 0 <= i <= j < r.len() implies (#[trigger] r[i]).created_at <= (
    #[trigger] r[j]).created_at by {
        if i < p && j < p {
            assert(r[i] == sorted[i] && r[j] == sorted[j]);
        } else if i < p && j == p {
            assert(r[i] == sorted[i]);
        } else if i < p {
            assert(r[i] == sorted[i] && r[j] == sorted[j - 1]);
        } else if i == p && j > p {
            assert(r[j] == sorted[j - 1]);
        } else if i > p {
            assert(r[i] == sorted[i - 1] && r[j] == sorted[j - 1]);
        }
    }
}

fn insert_position(sorted: &Vec<MediaArtifact>, key: &SystemTime) -> (p: usize)
    requires
        time_ordered(artifact_views(sorted@)),
    ensures
        p <= sorted@.len(),
        forall|j: int| 0 <= j < p ==> (#[trigger] sorted@[j])@.created_at <= key@,
        forall|j: int| p <= j < sorted@.len() ==> (#[trigger] sorted@[j])@.created_at > key@,
{
    let ghost s = artifact_views(sorted@);
    let mut p = sorted.len();
    while p > 0 && key.before(&sorted[p - 1].created_at)
        invariant
            s == artifact_views(sorted@),
            p <= sorted@.len(),
            forall|j: int| p <= j < sorted@.len() ==> (#[trigger] sorted@[j])@.created_at > key@,
        decreases p,
    {
        p = p - 1;
    }
    proof {
        if p > 0 {
            assert forall|j: int| 0 <= j < p implies (#[trigger] sorted@[j])@.created_at <= key@ by {
                assert(s[j].created_at <= s[p - 1].created_at);
            }
        }
    }
    p
}

fn sort_artifacts(artifacts: Vec<MediaArtifact>) -> (r: Vec<MediaArtifact>)
    ensures
        artifact_views(r@) == sort_by_time(artifact_views(artifacts@)),
{
    let ghost original = artifact_views(artifacts@);
    let n = artifacts.len();
    let mut rest = artifacts;
    let mut items: Vec<MediaArtifact> = Vec::new();
    while rest.len() > 0
        invariant
            artifact_views(rest@) + artifact_views(items@).reverse() == original,
            original.len() == n,
        decreases rest.len(),
    {
        let ghost before_rest = rest@;
        let ghost before_items = items@;
        let x = rest.pop().unwrap();
        items.push(x);
        proof {
            assert(before_rest =~= rest@.push(x));
            assert(items@ =~= before_items.push(x));
            assert(artifact_views(before_rest) =~= artifact_views(rest@).push(x@));
            assert(artifact_views(items@).reverse() =~= seq![x@] + artifact_views(before_items).reverse());
            assert(artifact_views(rest@) + artifact_views(items@).reverse() =~= artifact_views(before_rest)
                + artifact_views(before_items).reverse());
        }
    }
    assert(artifact_views(items@).reverse() =~= original);
    let mut sorted: Vec<MediaArtifact> = Vec::new();
    let mut k: usize = 0;
    while items.len() > 0
        invariant
            artifact_views(items@).reverse() == original.skip(k as int),
            k + items@.len() == original.len(),
            original.len() == n,
            k <= original.len(),
            artifact_views(sorted@) == sort_by_time(original.take(k as int)),
            time_ordered(artifact_views(sorted@)),
        decreases items.len(),
    {
        let ghost before = items@;
        let x = items.pop().unwrap();
        proof {
            assert(before =~= items@.push(x));
            assert(artifact_views(before) =~= artifact_views(items@).push(x@));
            assert(artifact_views(before).reverse() =~= seq![x@] + artifact_views(items@).reverse());
            assert(original.skip(k as int)[0] == original[k as int]);
            assert(original[k as int] == x@);
            assert(original.skip(k + 1) =~= original.skip(k as int).drop_first());
            assert((seq![x@] + artifact_views(items@).reverse()).drop_first() =~= artifact_views(
                items@,
            ).reverse());
            assert(original.take(k + 1).drop_last() =~= original.take(k as int));
            assert(original.take(k + 1).last() == x@);
        }
        let p = insert_position(&sorted, &x.created_at);
        let ghost sv = artifact_views(sorted@);
        proof {
            assert forall|j: int| 0 <= j < p implies (#[trigger] sv[j]).created_at <= x@.created_at by {
                assert(sv[j] == sorted@[j]@);
            }
            assert forall|j: int| p <= j < sv.len() implies (#[trigger] sv[j]).created_at
                > x@.created_at by {
                assert(sv[j] == sorted@[j]@);
            }
            lemma_insert_by_time(sv, x@, p as int);
        }
        let ghost xv = x@;
        sorted.insert(p, x);
        k = k + 1;
        proof {
            assert(artifact_views(sorted@) =~= sv.insert(p as int, xv));
            assert(original.skip(k as int) =~= artifact_views(items@).reverse());
        }
    }
    assert(original.take(k as int) =~= original);
    sorted
}

fn copy_artifact(a: &MediaArtifact) -> (c: MediaArtifact)
    ensures
        c@ == a@,
{
    MediaArtifact {
        scope: a.scope.clone(),
        path: a.path.copied(),
        bytes: a.bytes,
        created_at: a.created_at,
        task_id: match &a.task_id {
            Some(t) => Some(t.clone()),
            None => None,
        },
    }
}

/// Registered artifacts, planned for cleanup scope by scope.
#[derive(Debug, Clone)]
pub struct MediaRetention {
    artifacts: Vec<MediaArtifact>,
    scope_names: Vec<String>,
    max_registry_entries: usize,
}

/// The set of scopes that have an artifact.
pub open spec fn scope_set(s: Seq<ArtifactView>) -> Set<Seq<char>> {
    Set::new(|k: Seq<char>| exists|i: int| 0 <= i < s.len() && (#[trigger] s[i]).scope == k)
}

impl MediaRetention {
    /// Every registered artifact, in registration order.
    pub closed spec fn artifacts(&self) -> Seq<ArtifactView> {
        artifact_views(self.artifacts@)
    }

    pub closed spec fn max_entries(&self) -> nat {
        self.max_registry_entries as nat
    }

    pub closed spec fn wf(&self) -> bool {
        let names = views(self.scope_names@);
        &&& self.max_registry_entries >= 1
        &&& names.no_duplicates()
        &&& names.to_set() == scope_set(self.artifacts())
    }

    /// An empty registry holding up to `max_registry_entries` artifacts (at least one).
    pub fn new(max_registry_entries: usize) -> (r: MediaRetention)
        ensures
            r.wf(),
            r.artifacts() == Seq::<ArtifactView>::empty(),
            r.max_entries() == if max_registry_entries >= 1 {
                max_registry_entries as nat
            } else {
                1
            },
    {
        let r = MediaRetention {
            artifacts: Vec::new(),
            scope_names: Vec::new(),
            max_registry_entries: if max_registry_entries >= 1 {
                max_registry_entries
            } else {
                1
            },
        };
        assert(r.artifacts() =~= Seq::<ArtifactView>::empty());
        assert(views(r.scope_names@).to_set() =~= scope_set(r.artifacts()));
        r
    }

    /// Records an artifact of `scope` at `path`: a valid scope, a safe path, a positive
    /// size and, when given, a task id of 1 to 128 bytes.
    pub fn register(
        &mut self,
        scope: &str,
        path: &str,
        bytes: u64,
        created_at: SystemTime,
        task_id: Option<String>,
    ) -> (r: Result<(), RetentionError>)
        requires
            old(self).wf(),
        ensures
            final(self).wf(),
            final(self).max_entries() == old(self).max_entries(),
            r == register_outcome(
                old(self).artifacts().len(),
                old(self).max_entries(),
                scope@,
                path@,
                bytes,
                opt_view(task_id),
            ),
            r is Err ==> final(self).artifacts() == old(self).artifacts(),
            r is Ok ==> final(self).artifacts() == old(self).artifacts().push(
                ArtifactView {
                    scope: scope@,
                    path: path@,
                    bytes,
                    created_at: created_at@,
                    task_id: opt_view(task_id),
                },
            ),
    {
        if !is_plain_name(scope, MAX_NAME_BYTES) {
            return Err(RetentionError::InvalidScope);
        }
        let media_path = match MediaPath::new(path) {
            Ok(p) => p,
            Err(_) => {
                return Err(RetentionError::UnsafePath);
            },
        };
        let bad_task = match &task_id {
            Some(id) => id.as_str().is_empty() || id.as_str().len() > MAX_NAME_BYTES,
            None => false,
        };
        if bytes == 0 || bad_task {
            return Err(RetentionError::InvalidArtifact);
        }
        if self.artifacts.len() >= self.max_registry_entries {
            return Err(RetentionError::TooManyArtifacts);
        }
        let ghost before = self.artifacts();
        let ghost names_before = views(self.scope_names@);
        let known = contains_str(&self.scope_names, scope);
        if !known {
            self.scope_names.push(owned(scope));
        }
        let artifact = MediaArtifact {
            scope: owned(scope),
            path: media_path,
            bytes,
            created_at,
            task_id,
        };
        self.artifacts.push(artifact);
        proof {
            let after = self.artifacts();
            assert(after =~= before.push(artifact@));
            let names = views(self.scope_names@);
            if known {
                assert(names == names_before);
            } else {
                assert(names =~= names_before.push(scope@));
                assert(names.no_duplicates()) by {
                    assert forall|i: int, j: int|
                        0 <= i < names.len() && 0 <= j < names.len() && i != j implies names[i]
                        != names[j] by {
                        if i == names.len() - 1 {
                            assert(names_before.contains(names[j]) || j == i);
                        }
                        if j == names.len() - 1 {
                            assert(names_before.contains(names[i]) || j == i);
                        }
                    }
                }
            }
            assert(names.to_set() =~= scope_set(after)) by {
                assert forall|k: Seq<char>| names.to_set().contains(k) implies scope_set(
                    after,
                ).contains(k) by {
                    if k == scope@ {
                        assert(after[after.len() - 1].scope == k);
                    } else {
                        assert(names_before.contains(k));
                        assert(names_before.to_set().contains(k));
                        let i = choose|i: int| 0 <= i < before.len() && (#[trigger] before[i]).scope == k;
                        assert(after[i] == before[i]);
                    }
                }
                assert forall|k: Seq<char>| scope_set(after).contains(k) implies names.to_set().contains(
                    k,
                ) by {
                    let i = choose|i: int| 0 <= i < after.len() && (#[trigger] after[i]).scope == k;
                    if i < before.len() {
                        assert(before[i] == after[i]);
                        assert(scope_set(before).contains(k));
                        assert(names_before.to_set().contains(k));
                        assert(names_before.contains(k));
                        let j = choose|j: int| 0 <= j < names_before.len() && names_before[j] == k;
                        assert(names[j] == k);
                    } else {
                        if known {
                            assert(names.contains(scope@));
                        } else {
                            assert(names[names.len() - 1] == scope@);
                        }
                    }
                }
            }
        }
        Ok(())
    }

    /// Which artifacts of `scope` a cleanup under `policy` at `now` removes and which it
    /// keeps, oldest first; protected task outputs always stay.
    pub fn plan_cleanup(&self, scope: &str, policy: RetentionPolicy, now: SystemTime) -> (r: Result<
        CleanupReport,
        RetentionError,
    >)
        requires
            bytes_sum(scope_artifacts(self.artifacts(), scope@)) <= u64::MAX,
        ensures
            !plain_name(scope@, MAX_NAME_BYTES as nat) ==> r == Err::<CleanupReport, _>(
                RetentionError::InvalidScope,
            ),
            plain_name(scope@, MAX_NAME_BYTES as nat) ==> (r matches Ok(rep) && ({
                let p = cleanup_plan(scope_artifacts(self.artifacts(), scope@), policy, now@);
                path_views(rep.removed@) == p.removed && path_views(rep.retained@) == p.retained
                    && rep.removed_bytes == p.removed_bytes
            })),
    {
        if !is_plain_name(scope, MAX_NAME_BYTES) {
            return Err(RetentionError::InvalidScope);
        }
        let ghost all = self.artifacts();
        let mut mine: Vec<MediaArtifact> = Vec::new();
        let mut total: u64 = 0;
        let mut i: usize = 0;
        while i < self.artifacts.len()
            invariant
                all == artifact_views(self.artifacts@),
                i <= all.len(),
                artifact_views(mine@) == scope_artifacts(all.take(i as int), scope@),
                total == bytes_sum(artifact_views(mine@)),
                bytes_sum(scope_artifacts(all, scope@)) <= u64::MAX,
            decreases all.len() - i,
        {
            proof {
                assert(all.take(i + 1).drop_last() =~= all.take(i as int));
                assert(all.take(i + 1).last() == all[i as int]);
                lemma_prefix_sum_bounded(all, scope@, i as int + 1);
            }
            if str_eq(self.artifacts[i].scope.as_str(), scope) {
                let ghost before = mine@;
                mine.push(copy_artifact(&self.artifacts[i]));
                proof {
                    assert(artifact_views(mine@) =~= artifact_views(before).push(all[i as int]));
                    assert(artifact_views(mine@).drop_last() =~= artifact_views(before));
                }
                total = total + self.artifacts[i].bytes;
            }
            i = i + 1;
        }
        assert(all.take(all.len() as int) =~= all);
        let sorted = sort_artifacts(mine);
        let ghost s = artifact_views(sorted@);
        let ghost start = Plan {
            removed: Seq::empty(),
            retained: Seq::empty(),
            removed_bytes: 0,
            total,
        };
        let mut removed: Vec<MediaPath> = Vec::new();
        let mut retained: Vec<MediaPath> = Vec::new();
        let mut removed_bytes: u64 = 0;
        let mut k: usize = 0;
        assert(s.take(0) =~= Seq::<ArtifactView>::empty());
        assert(path_views(removed@) =~= Seq::<Seq<char>>::empty());
        assert(path_views(retained@) =~= Seq::<Seq<char>>::empty());
        while k < sorted.len()
            invariant
                s == artifact_views(sorted@),
                k <= s.len(),
                plan_over(s.take(k as int), policy, now@, start) == (Plan {
                    removed: path_views(removed@),
                    retained: path_views(retained@),
                    removed_bytes,
                    total,
                }),
            decreases s.len() - k,
        {
            let a = &sorted[k];
            proof {
                assert(s.take(k + 1).drop_last() =~= s.take(k as int));
                assert(s.take(k + 1).last() == a@);
            }
            let age = match now.duration_since(&a.created_at) {
                Some(d) => d,
                None => Duration::zero(),
            };
            let expired = policy.max_age.shorter_than(&age);
            let over_bytes = total > policy.max_bytes;
            let over_count = retained.len() >= policy.max_artifacts;
            if (expired || over_bytes || over_count) && a.task_id.is_none() {
                total = total.saturating_sub(a.bytes);
                removed_bytes = removed_bytes.saturating_add(a.bytes);
                let ghost before = removed@;
                removed.push(a.path.copied());
                assert(path_views(removed@) =~= path_views(before).push(a@.path));
            } else {
                let ghost before = retained@;
                retained.push(a.path.copied());
                assert(path_views(retained@) =~= path_views(before).push(a@.path));
            }
            k = k + 1;
        }
        assert(s.take(s.len() as int) =~= s);
        Ok(CleanupReport { removed, retained, removed_bytes })
    }

    /// Number of scopes that have an artifact.
    pub fn scopes(&self) -> (n: usize)
        requires
            self.wf(),
        ensures
            n == scope_set(self.artifacts()).len(),
    {
        proof {
            views(self.scope_names@).unique_seq_to_set();
        }
        self.scope_names.len()
    }
}

/// The byte sum of a prefix's artifacts of `scope` is at most that of all of them.
proof fn lemma_prefix_sum_bounded(all: Seq<ArtifactView>, scope: Seq<char>, n: int)
    requires
        0 <= n <= all.len(),
    ensures
        bytes_sum(scope_artifacts(all.take(n), scope)) <= bytes_sum(scope_artifacts(all, scope)),
    decreases all.len() - n,
{
    if n < all.len() {
        lemma_prefix_sum_bounded(all, scope, n + 1);
        let t = all.take(n + 1);
        assert(t.drop_last() =~= all.take(n));
        let p = scope_artifacts(all.take(n), scope);
        if t.last().scope == scope {
            assert(p.push(t.last()).drop_last() =~= p);
        }
    } else {
        assert(all.take(n) =~= all);
    }
}

/// A cleanup plan accounts for every artifact once: each is either removed or retained,
/// and an artifact that a task still uses is never among the removed.
pub proof fn lemma_plan_partitions(s: Seq<ArtifactView>, policy: RetentionPolicy, now: nat, start: Plan)
    ensures
        plan_over(s, policy, now, start).removed.len() + plan_over(s, policy, now, start).retained.len()
            == start.removed.len() + start.retained.len() + s.len(),
        plan_over(s, policy, now, start).removed.len() <= start.removed.len() + unprotected_count(s),
    decreases s.len(),
{
    if s.len() > 0 {
        lemma_plan_partitions(s.drop_last(), policy, now, start);
    }
}

/// Number of artifacts that no task uses.
pub open spec fn unprotected_count(s: Seq<ArtifactView>) -> nat
    decreases s.len(),
{
    if s.len() == 0 {
        0
    } else if s.last().task_id is None {
        unprotected_count(s.drop_last()) + 1
    } else {
        unprotected_count(s.drop_last())
    }
}

proof fn lemma_unprotected_le_len(s: Seq<ArtifactView>)
    ensures
        unprotected_count(s) <= s.len(),
    decreases s.len(),
{
    if s.len() > 0 {
        lemma_unprotected_le_len(s.drop_last());
    }
}

proof fn lemma_insert_unprotected(sorted: Seq<ArtifactView>, x: ArtifactView)
    ensures
        insert_by_time(sorted, x).len() == sorted.len() + 1,
        unprotected_count(insert_by_time(sorted, x)) == unprotected_count(sorted) + if x.task_id is None {
            1nat
        } else {
            0nat
        },
    decreases sorted.len(),
{
    lemma_insert_len(sorted, x);
    if sorted.len() > 0 && sorted.last().created_at > x.created_at {
        lemma_insert_unprotected(sorted.drop_last(), x);
        lemma_insert_len(sorted.drop_last(), x);
        let r = insert_by_time(sorted.drop_last(), x).push(sorted.last());
        assert(r.drop_last() =~= insert_by_time(sorted.drop_last(), x));
    } else {
        assert(sorted.push(x).drop_last() =~= sorted);
    }
}

proof fn lemma_sort_unprotected(s: Seq<ArtifactView>)
    ensures
        sort_by_time(s).len() == s.len(),
        unprotected_count(sort_by_time(s)) == unprotected_count(s),
    decreases s.len(),
{
    if s.len() > 0 {
        lemma_sort_unprotected(s.drop_last());
        lemma_insert_unprotected(sort_by_time(s.drop_last()), s.last());
    }
}

/// Walking artifacts in any order, an artifact no task uses is kept only while fewer than
/// `max_artifacts` are kept: the kept ones number at most the larger of what was kept before
/// and `max_artifacts`, plus those that a task uses.
pub proof fn lemma_retained_bound(s: Seq<ArtifactView>, policy: RetentionPolicy, now: nat, start: Plan)
    ensures
        plan_over(s, policy, now, start).retained.len() + unprotected_count(s) <= (if start.retained.len()
            >= policy.max_artifacts {
            start.retained.len()
        } else {
            policy.max_artifacts as nat
        }) + s.len(),
    decreases s.len(),
{
    if s.len() > 0 {
        lemma_retained_bound(s.drop_last(), policy, now, start);
        lemma_unprotected_le_len(s.drop_last());
    }
}

/// A cleanup plan keeps at most `max_artifacts` of the artifacts that no task uses: every
/// retained artifact beyond that many is one a task still uses.
pub proof fn lemma_cleanup_keeps_at_most_max(s: Seq<ArtifactView>, policy: RetentionPolicy, now: nat)
    ensures
        cleanup_plan(s, policy, now).retained.len() + unprotected_count(s) <= policy.max_artifacts + s.len(),
{
    lemma_sort_unprotected(s);
    lemma_retained_bound(
        sort_by_time(s),
        policy,
        now,
        Plan { removed: Seq::empty(), retained: Seq::empty(), removed_bytes: 0, total: bytes_sum(s) as u64 },
    );
}

/// What `register` answers, given how many artifacts are registered.
pub open spec fn register_outcome(
    count: nat,
    max: nat,
    scope: Seq<char>,
    path: Seq<char>,
    bytes: u64,
    task_id: Option<Seq<char>>,
) -> Result<(), RetentionError> {
    if !plain_name(scope, MAX_NAME_BYTES as nat) {
        Err(RetentionError::InvalidScope)
    } else if media_path_check(path) is Err {
        Err(RetentionError::UnsafePath)
    } else if bytes == 0 || (task_id matches Some(t) && (t.len() == 0 || crate::text::byte_len(t)
        > MAX_NAME_BYTES)) {
        Err(RetentionError::InvalidArtifact)
    } else if count >= max {
        Err(RetentionError::TooManyArtifacts)
    } else {
        Ok(())
    }
}

} // verus!
