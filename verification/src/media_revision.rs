//! Bounded revision history for collaborative media-editor projects.
use vstd::prelude::*;
use crate::text::{clone_strings, is_plain_name, owned, plain_name, str_eq, strings_equal, views};

verus! {

#[derive(Debug, Clone, Copy, PartialEq, Eq, Structural)]
pub enum RevisionError {
    InvalidId,
    NotFound,
    Conflict,
    Capacity,
    RevisionUnavailable,
}

#[derive(Debug, Clone, PartialEq, Eq)]
pub struct RevisionRecord {
    pub project_id: String,
    pub scope: String,
    pub revision: u64,
    pub assets: Vec<String>,
    pub timeline: String,
}

#[derive(Debug, Clone, Copy, PartialEq, Eq, Structural)]
pub struct RevisionDiff {
    pub from: u64,
    pub to: u64,
    pub assets_changed: bool,
    pub timeline_changed: bool,
}

/// The mathematical value of a revision record.
pub struct RecordView {
    pub project_id: Seq<char>,
    pub scope: Seq<char>,
    pub revision: u64,
    pub assets: Seq<Seq<char>>,
    pub timeline: Seq<char>,
}

impl View for RevisionRecord {
    type V = RecordView;

    open spec fn view(&self) -> RecordView {
        RecordView {
            project_id: self.project_id@,
            scope: self.scope@,
            revision: self.revision,
            assets: views(self.assets@),
            timeline: self.timeline@,
        }
    }
}

/// One project's retained records, oldest first.
pub struct History {
    pub id: Seq<char>,
    pub records: Seq<RecordView>,
}

/// Largest project id or scope, in bytes.
pub const MAX_ID_BYTES: usize = 128;

pub open spec fn record_views(v: Seq<RevisionRecord>) -> Seq<RecordView> {
    v.map_values(|r: RevisionRecord| r@)
}

pub open spec fn history_ids(hs: Seq<History>) -> Seq<Seq<char>> {
    hs.map_values(|h: History| h.id)
}

/// The retained records of `id`; empty for an unknown project.
pub open spec fn records_of(hs: Seq<History>, id: Seq<char>) -> Seq<RecordView> {
    if history_ids(hs).contains(id) {
        hs[history_ids(hs).index_of(id)].records
    } else {
        Seq::empty()
    }
}

/// The last `limit` elements of `s`.
pub open spec fn keep_last(s: Seq<RecordView>, limit: nat) -> Seq<RecordView> {
    if s.len() > limit {
        s.skip(s.len() - limit)
    } else {
        s
    }
}

pub open spec fn valid_id(s: Seq<char>) -> bool {
    plain_name(s, MAX_ID_BYTES as nat)
}

/// Why `record` refuses a record, if it does.
pub open spec fn record_refusal(
    hs: Seq<History>,
    max_projects: nat,
    project: Seq<char>,
    scope: Seq<char>,
    revision: u64,
) -> Option<RevisionError> {
    let rs = records_of(hs, project);
    if !valid_id(project) || !valid_id(scope) {
        Some(RevisionError::InvalidId)
    } else if revision == 0 {
        Some(RevisionError::Conflict)
    } else if !history_ids(hs).contains(project) && hs.len() >= max_projects {
        Some(RevisionError::Capacity)
    } else if rs.len() > 0 && (rs.last().scope != scope || rs.last().revision >= revision) {
        Some(RevisionError::Conflict)
    } else {
        None
    }
}

pub open spec fn matches_at(rs: Seq<RecordView>, scope: Seq<char>, revision: u64, i: int) -> bool {
    0 <= i < rs.len() && rs[i].scope == scope && rs[i].revision == revision
}

/// What `get` answers for `project`, `scope` and `revision`.
pub open spec fn lookup(hs: Seq<History>, project: Seq<char>, scope: Seq<char>, revision: u64) -> Result<
    RecordView,
    RevisionError,
> {
    let rs = records_of(hs, project);
    if !valid_id(project) || !valid_id(scope) {
        Err(RevisionError::InvalidId)
    } else if !history_ids(hs).contains(project) {
        Err(RevisionError::NotFound)
    } else if exists|i: int| matches_at(rs, scope, revision, i) {
        Ok(rs[choose|i: int| matches_at(rs, scope, revision, i)])
    } else {
        Err(RevisionError::RevisionUnavailable)
    }
}

pub open spec fn increasing(rs: Seq<RecordView>) -> bool {
    forall|i: int, j: int| 0 <= i < j < rs.len() ==> (#[trigger] rs[i]).revision < (#[trigger] rs[j]).revision
}

pub open spec fn histories_wf(hs: Seq<History>, limit: nat) -> bool {
    &&& forall|i: int, j: int|
        0 <= i < hs.len() && 0 <= j < hs.len() && i != j ==> #[trigger] hs[i].id != #[trigger] hs[j].id
    &&& forall|i: int|
        0 <= i < hs.len() ==> increasing(#[trigger] hs[i].records) && hs[i].records.len() <= limit
            && hs[i].records.len() >= 1
}

#[derive(Debug, Clone)]
struct ProjectHistory {
    id: String,
    records: Vec<RevisionRecord>,
}

spec fn history(h: ProjectHistory) -> History {
    History { id: h.id@, records: record_views(h.records@) }
}

proof fn lemma_history_at(hs: Seq<History>, limit: nat, i: int)
    requires
        histories_wf(hs, limit),
        0 <= i < hs.len(),
    ensures
        history_ids(hs).contains(hs[i].id),
        records_of(hs, hs[i].id) == hs[i].records,
{
    let ids = history_ids(hs);
    assert(ids[i] == hs[i].id);
    let k = ids.index_of(hs[i].id);
    assert(ids[k] == hs[k].id);
}

proof fn lemma_history_absent(hs: Seq<History>, id: Seq<char>)
    requires
        forall|i: int| 0 <= i < hs.len() ==> (#[trigger] hs[i]).id != id,
    ensures
        !history_ids(hs).contains(id),
        records_of(hs, id) == Seq::<RecordView>::empty(),
{
    let ids = history_ids(hs);
    if ids.contains(id) {
        let k = ids.index_of(id);
        assert(ids[k] == hs[k].id);
    }
}

/// A record found at `i` is the one `lookup` picks, revisions being unique.
proof fn lemma_lookup_at(rs: Seq<RecordView>, scope: Seq<char>, revision: u64, i: int)
    requires
        increasing(rs),
        matches_at(rs, scope, revision, i),
    ensures
        (choose|k: int| matches_at(rs, scope, revision, k)) == i,
{
    let k = choose|k: int| matches_at(rs, scope, revision, k);
    assert(matches_at(rs, scope, revision, k));
    if k < i {
        assert(rs[k].revision < rs[i].revision);
    } else if i < k {
        assert(rs[i].revision < rs[k].revision);
    }
}

fn copy_record(r: &RevisionRecord) -> (c: RevisionRecord)
    ensures
        c@ == r@,
{
    RevisionRecord {
        project_id: r.project_id.clone(),
        scope: r.scope.clone(),
        revision: r.revision,
        assets: clone_strings(&r.assets),
        timeline: r.timeline.clone(),
    }
}

/// The last `limit` records of `v` followed by `last`.
fn keep_last_records(v: &Vec<RevisionRecord>, last: RevisionRecord, limit: usize) -> (r: Vec<
    RevisionRecord,
>)
    requires
        limit >= 1,
    ensures
        record_views(r@) == keep_last(record_views(v@).push(last@), limit as nat),
{
    let n = v.len();
    let start: usize = if n >= limit {
        n - limit + 1
    } else {
        0
    };
    let mut r: Vec<RevisionRecord> = Vec::new();
    let mut j: usize = start;
    while j < n
        invariant
            start <= j <= n,
            n == v@.len(),
            r@.len() == j - start,
            forall|k: int| 0 <= k < r@.len() ==> (#[trigger] r@[k])@ == v@[k + start]@,
        decreases n - j,
    {
        r.push(copy_record(&v[j]));
        j = j + 1;
    }
    let ghost before = r@;
    r.push(last);
    proof {
        let s = record_views(v@).push(last@);
        let kept = keep_last(s, limit as nat);
        assert(kept =~= s.skip(start as int));
        assert(record_views(r@) =~= kept) by {
            assert forall|k: int| 0 <= k < r@.len() implies (#[trigger] record_views(r@)[k]) == kept[k] by {
                if k < before.len() {
                    assert(r@[k] == before[k]);
                }
            }
        }
    }
    r
}

/// Revision histories of up to `max_projects` projects, each keeping its last
/// `history_limit` records.
#[derive(Debug)]
pub struct MediaRevisionStore {
    histories: Vec<ProjectHistory>,
    max_projects: usize,
    history_limit: usize,
}

impl MediaRevisionStore {
    /// Each project's retained records, projects in the order they were first recorded.
    pub closed spec fn histories(&self) -> Seq<History> {
        self.histories@.map_values(|h: ProjectHistory| history(h))
    }

    pub closed spec fn max_projects(&self) -> nat {
        self.max_projects as nat
    }

    pub closed spec fn history_limit(&self) -> nat {
        self.history_limit as nat
    }

    pub closed spec fn wf(&self) -> bool {
        &&& self.max_projects >= 1
        &&& self.history_limit >= 1
        &&& self.histories@.len() <= self.max_projects
        &&& histories_wf(self.histories(), self.history_limit as nat)
    }

    /// An empty store; both bounds are raised to at least one.
    pub fn new(max_projects: usize, history_limit: usize) -> (s: MediaRevisionStore)
        ensures
            s.wf(),
            s.histories() == Seq::<History>::empty(),
            s.max_projects() == if max_projects >= 1 { max_projects as nat } else { 1 },
            s.history_limit() == if history_limit >= 1 { history_limit as nat } else { 1 },
    {
        let s = MediaRevisionStore {
            histories: Vec::new(),
            max_projects: if max_projects >= 1 { max_projects } else { 1 },
            history_limit: if history_limit >= 1 { history_limit } else { 1 },
        };
        assert(s.histories() =~= Seq::<History>::empty());
        s
    }

    fn find(&self, id: &str) -> (r: Option<usize>)
        requires
            self.wf(),
        ensures
            r matches Some(i) ==> i < self.histories().len() && self.histories()[i as int].id
                == id@ && history_ids(self.histories()).contains(id@) && records_of(
                self.histories(),
                id@,
            ) == self.histories()[i as int].records,
            r is None ==> !history_ids(self.histories()).contains(id@) && records_of(
                self.histories(),
                id@,
            ) == Seq::<RecordView>::empty(),
    {
        let mut i: usize = 0;
        while i < self.histories.len()
            invariant
                self.wf(),
                i <= self.histories@.len(),
                forall|j: int| 0 <= j < i ==> (#[trigger] self.histories()[j]).id != id@,
            decreases self.histories@.len() - i,
        {
            if str_eq(self.histories[i].id.as_str(), id) {
                proof {
                    lemma_history_at(self.histories(), self.history_limit as nat, i as int);
                }
                return Some(i);
            }
            i = i + 1;
        }
        proof {
            lemma_history_absent(self.histories(), id@);
        }
        None
    }

    /// Appends a record to the project's history and drops the oldest past the limit. A
    /// record must follow the project's last one in the same scope with a higher revision.
    pub fn record(
        &mut self,
        project_id: &str,
        scope: &str,
        revision: u64,
        assets: Vec<String>,
        timeline: &str,
    ) -> (r: Result<RevisionRecord, RevisionError>)
        requires
            old(self).wf(),
        ensures
            final(self).wf(),
            final(self).max_projects() == old(self).max_projects(),
            final(self).history_limit() == old(self).history_limit(),
            match record_refusal(
                old(self).histories(),
                old(self).max_projects(),
                project_id@,
                scope@,
                revision,
            ) {
                Some(e) => r == Err::<RevisionRecord, _>(e) && final(self).histories() == old(self).histories(),
                None => r matches Ok(rec) && rec@ == (RecordView {
                    project_id: project_id@,
                    scope: scope@,
                    revision,
                    assets: views(assets@),
                    timeline: timeline@,
                }) && records_of(final(self).histories(), project_id@) == keep_last(
                    records_of(old(self).histories(), project_id@).push(rec@),
                    old(self).history_limit(),
                ) && (forall|k: Seq<char>|
                    k != project_id@ ==> #[trigger] records_of(final(self).histories(), k)
                        == records_of(old(self).histories(), k)) && history_ids(
                    final(self).histories(),
                ).contains(project_id@) && final(self).histories().len() == old(self).histories().len() + if history_ids(old(self).histories()).contains(
                    project_id@,
                ) {
                    0int
                } else {
                    1int
                } && lookup(final(self).histories(), project_id@, scope@, revision) == Ok::<
                    RecordView,
                    RevisionError,
                >(rec@),
            },
    {
        if !is_plain_name(project_id, MAX_ID_BYTES) || !is_plain_name(scope, MAX_ID_BYTES) {
            return Err(RevisionError::InvalidId);
        }
        if revision == 0 {
            return Err(RevisionError::Conflict);
        }
        let ghost before = self.histories();
        let ghost limit = self.history_limit as nat;
        match self.find(project_id) {
            None => {
                if self.histories.len() >= self.max_projects {
                    return Err(RevisionError::Capacity);
                }
                let rec = RevisionRecord {
                    project_id: owned(project_id),
                    scope: owned(scope),
                    revision,
                    assets,
                    timeline: owned(timeline),
                };
                let mut records: Vec<RevisionRecord> = Vec::new();
                records.push(copy_record(&rec));
                self.histories.push(ProjectHistory { id: owned(project_id), records });
                proof {
                    let after = self.histories();
                    let h = History { id: project_id@, records: seq![rec@] };
                    assert(record_views(records@) =~= seq![rec@]);
                    assert(after =~= before.push(h));
                    assert forall|x: int, y: int|
                        0 <= x < after.len() && 0 <= y < after.len() && x != y implies #[trigger] after[x].id
                        != #[trigger] after[y].id by {
                        if x < before.len() {
                            lemma_history_at(before, limit, x);
                        }
                        if y < before.len() {
                            lemma_history_at(before, limit, y);
                        }
                    }
                    assert forall|x: int| 0 <= x < after.len() implies increasing(
                        #[trigger] after[x].records,
                    ) && after[x].records.len() <= limit && after[x].records.len() >= 1 by {
                        if x < before.len() {
                            assert(after[x] == before[x]);
                        }
                    }
                    lemma_history_at(after, limit, before.len() as int);
                    assert(keep_last(records_of(before, project_id@).push(rec@), limit) =~= seq![
                        rec@,
                    ]);
                    assert forall|k: Seq<char>| k != project_id@ implies #[trigger] records_of(
                        after,
                        k,
                    ) == records_of(before, k) by {
                        self.lemma_other_records(before, after, k);
                    }
                    assert(matches_at(seq![rec@], scope@, revision, 0));
                    lemma_lookup_at(seq![rec@], scope@, revision, 0);
                    assert(records_of(after, project_id@) == seq![rec@]);
                }
                Ok(rec)
            },
            Some(i) => {
                let n = self.histories[i].records.len();
                if n > 0 {
                    let last = &self.histories[i].records[n - 1];
                    if !str_eq(last.scope.as_str(), scope) || last.revision >= revision {
                        return Err(RevisionError::Conflict);
                    }
                }
                let rec = RevisionRecord {
                    project_id: owned(project_id),
                    scope: owned(scope),
                    revision,
                    assets,
                    timeline: owned(timeline),
                };
                let records = keep_last_records(
                    &self.histories[i].records,
                    copy_record(&rec),
                    self.history_limit,
                );
                let id = self.histories[i].id.clone();
                self.histories.set(i, ProjectHistory { id, records });
                proof {
                    let after = self.histories();
                    let old_rs = before[i as int].records;
                    let s = old_rs.push(rec@);
                    let kept = keep_last(s, limit);
                    assert(after =~= before.update(
                        i as int,
                        History { id: before[i as int].id, records: kept },
                    ));
                    assert(increasing(s)) by {
                        assert forall|a: int, b: int| 0 <= a < b < s.len() implies (
                        #[trigger] s[a]).revision < (#[trigger] s[b]).revision by {
                            if b == s.len() - 1 && a < old_rs.len() - 1 {
                                assert(old_rs[a].revision < old_rs[old_rs.len() - 1].revision);
                            }
                        }
                    }
                    assert(increasing(kept));
                    assert(kept.len() >= 1 && kept.len() <= limit);
                    assert(kept.last() == rec@);
                    assert forall|x: int, y: int|
                        0 <= x < after.len() && 0 <= y < after.len() && x != y implies #[trigger] after[x].id
                        != #[trigger] after[y].id by {
                        assert(after[x].id == before[x].id && after[y].id == before[y].id);
                    }
                    assert forall|x: int| 0 <= x < after.len() implies increasing(
                        #[trigger] after[x].records,
                    ) && after[x].records.len() <= limit && after[x].records.len() >= 1 by {
                        if x != i {
                            assert(after[x] == before[x]);
                        }
                    }
                    lemma_history_at(after, limit, i as int);
                    assert forall|k: Seq<char>| k != project_id@ implies #[trigger] records_of(
                        after,
                        k,
                    ) == records_of(before, k) by {
                        self.lemma_other_records(before, after, k);
                    }
                    assert(matches_at(kept, scope@, revision, kept.len() - 1));
                    lemma_lookup_at(kept, scope@, revision, kept.len() - 1);
                    assert(records_of(after, project_id@) == kept);
                }
                Ok(rec)
            },
        }
    }

    /// Records of a project other than the one changed keep their value.
    proof fn lemma_other_records(&self, before: Seq<History>, after: Seq<History>, k: Seq<char>)
        requires
            histories_wf(before, self.history_limit as nat),
            histories_wf(after, self.history_limit as nat),
            before.len() <= after.len(),
            forall|j: int| 0 <= j < before.len() && after[j].id == k ==> #[trigger] after[j] == before[j],
            forall|j: int| before.len() <= j < after.len() ==> #[trigger] after[j].id != k,
            forall|j: int| 0 <= j < before.len() ==> #[trigger] after[j].id == before[j].id,
        ensures
            records_of(after, k) == records_of(before, k),
    {
        let limit = self.history_limit as nat;
        let ids = history_ids(after);
        if ids.contains(k) {
            let j = ids.index_of(k);
            assert(ids[j] == after[j].id);
            lemma_history_at(after, limit, j);
            lemma_history_at(before, limit, j);
        } else {
            assert forall|j: int| 0 <= j < before.len() implies (#[trigger] before[j]).id != k by {
                assert(ids[j] == after[j].id);
            }
            lemma_history_absent(before, k);
        }
    }

    /// The record of `project_id` in `scope` with `revision`, if it is still retained.
    pub fn get(&self, project_id: &str, scope: &str, revision: u64) -> (r: Result<
        RevisionRecord,
        RevisionError,
    >)
        requires
            self.wf(),
        ensures
            match lookup(self.histories(), project_id@, scope@, revision) {
                Ok(v) => r matches Ok(x) && x@ == v,
                Err(e) => r == Err::<RevisionRecord, _>(e),
            },
    {
        if !is_plain_name(project_id, MAX_ID_BYTES) || !is_plain_name(scope, MAX_ID_BYTES) {
            return Err(RevisionError::InvalidId);
        }
        let i = match self.find(project_id) {
            None => {
                return Err(RevisionError::NotFound);
            },
            Some(i) => i,
        };
        let ghost rs = self.histories()[i as int].records;
        proof {
            lemma_history_at(self.histories(), self.history_limit as nat, i as int);
        }
        let records = &self.histories[i].records;
        let mut k: usize = 0;
        while k < records.len()
            invariant
                rs == record_views(records@),
                records_of(self.histories(), project_id@) == rs,
                history_ids(self.histories()).contains(project_id@),
                valid_id(project_id@) && valid_id(scope@),
                increasing(rs),
                k <= rs.len(),
                forall|j: int| 0 <= j < k ==> !matches_at(rs, scope@, revision, j),
            decreases rs.len() - k,
        {
            if str_eq(records[k].scope.as_str(), scope) && records[k].revision == revision {
                proof {
                    assert(rs[k as int] == records@[k as int]@);
                    assert(matches_at(rs, scope@, revision, k as int));
                    lemma_lookup_at(rs, scope@, revision, k as int);
                    assert(records_of(self.histories(), project_id@) == rs);
                }
                return Ok(copy_record(&records[k]));
            }
            k = k + 1;
        }
        Err(RevisionError::RevisionUnavailable)
    }

    /// Records, as the next revision after `expected_revision`, the assets and timeline of
    /// the earlier `target_revision`.
    pub fn rollback(
        &mut self,
        project_id: &str,
        scope: &str,
        expected_revision: u64,
        target_revision: u64,
    ) -> (r: Result<RevisionRecord, RevisionError>)
        requires
            old(self).wf(),
        ensures
            final(self).wf(),
            final(self).max_projects() == old(self).max_projects(),
            final(self).history_limit() == old(self).history_limit(),
            ({
                let hs = old(self).histories();
                let cur = lookup(hs, project_id@, scope@, expected_revision);
                let tgt = lookup(hs, project_id@, scope@, target_revision);
                if cur is Err {
                    r == Err::<RevisionRecord, _>(cur->Err_0) && final(self).histories() == hs
                } else if tgt is Err {
                    r == Err::<RevisionRecord, _>(tgt->Err_0) && final(self).histories() == hs
                } else if target_revision >= expected_revision || expected_revision == u64::MAX {
                    r == Err::<RevisionRecord, _>(RevisionError::Conflict) && final(self).histories()
                        == hs
                } else {
                    match record_refusal(
                        hs,
                        old(self).max_projects(),
                        project_id@,
                        scope@,
                        (expected_revision + 1) as u64,
                    ) {
                        Some(e) => r == Err::<RevisionRecord, _>(e) && final(self).histories() == hs,
                        None => r matches Ok(rec) && rec@ == (RecordView {
                            project_id: project_id@,
                            scope: scope@,
                            revision: (expected_revision + 1) as u64,
                            assets: (tgt->Ok_0).assets,
                            timeline: (tgt->Ok_0).timeline,
                        }) && records_of(final(self).histories(), project_id@) == keep_last(
                            records_of(hs, project_id@).push(rec@),
                            old(self).history_limit(),
                        ) && forall|k: Seq<char>|
                            k != project_id@ ==> #[trigger] records_of(final(self).histories(), k)
                                == records_of(hs, k),
                    }
                }
            }),
    {
        let current = match self.get(project_id, scope, expected_revision) {
            Ok(c) => c,
            Err(e) => {
                return Err(e);
            },
        };
        let target = match self.get(project_id, scope, target_revision) {
            Ok(t) => t,
            Err(e) => {
                return Err(e);
            },
        };
        if target.revision >= current.revision {
            return Err(RevisionError::Conflict);
        }
        let next = match current.revision.checked_add(1) {
            Some(n) => n,
            None => {
                return Err(RevisionError::Conflict);
            },
        };
        let ghost tgt = target@;
        let r = self.record(project_id, scope, next, target.assets, target.timeline.as_str());
        proof {
            assert(views(target.assets@) == tgt.assets);
        }
        r
    }

    /// Which parts differ between two retained revisions.
    pub fn diff(&self, project_id: &str, scope: &str, from: u64, to: u64) -> (r: Result<
        RevisionDiff,
        RevisionError,
    >)
        requires
            self.wf(),
        ensures
            ({
                let a = lookup(self.histories(), project_id@, scope@, from);
                let b = lookup(self.histories(), project_id@, scope@, to);
                if a is Err {
                    r == Err::<RevisionDiff, _>(a->Err_0)
                } else if b is Err {
                    r == Err::<RevisionDiff, _>(b->Err_0)
                } else {
                    r == Ok::<RevisionDiff, RevisionError>(
                        RevisionDiff {
                            from,
                            to,
                            assets_changed: (a->Ok_0).assets != (b->Ok_0).assets,
                            timeline_changed: (a->Ok_0).timeline != (b->Ok_0).timeline,
                        },
                    )
                }
            }),
    {
        let before = match self.get(project_id, scope, from) {
            Ok(x) => x,
            Err(e) => {
                return Err(e);
            },
        };
        let after = match self.get(project_id, scope, to) {
            Ok(x) => x,
            Err(e) => {
                return Err(e);
            },
        };
        Ok(
            RevisionDiff {
                from,
                to,
                assets_changed: !strings_equal(&before.assets, &after.assets),
                timeline_changed: !str_eq(before.timeline.as_str(), after.timeline.as_str()),
            },
        )
    }

    /// Number of projects with a history.
    pub fn len(&self) -> (n: usize)
        ensures
            n == self.histories().len(),
    {
        self.histories.len()
    }

    pub fn is_empty(&self) -> (b: bool)
        ensures
            b == (self.histories().len() == 0),
    {
        self.histories.len() == 0
    }
}

} // verus!
