//! Scoped review workflow for collaborative media projects.
use vstd::prelude::*;
use crate::text::{clone_strings, is_plain_name, is_safe_text, lemma_seq_lt_order, owned, plain_name, safe_text, seq_lt, str_eq, str_lt, views};

verus! {

#[derive(Debug, Clone, Copy, PartialEq, Eq, Structural)]
pub enum ReviewState {
    Pending,
    ChangesRequested,
    Approved,
    Rejected,
}

#[derive(Debug, Clone, Copy, PartialEq, Eq, Structural)]
pub enum ReviewError {
    Invalid,
    Missing,
    Duplicate,
    Capacity,
    ScopeMismatch,
    RevisionConflict,
    StateConflict,
}

#[derive(Debug, Clone, PartialEq, Eq)]
pub struct ReviewRequest {
    pub id: String,
    pub project_id: String,
    pub scope: String,
    pub asset_version_id: String,
    pub requester: String,
    pub reviewer: Option<String>,
    pub feedback: Vec<String>,
    pub revision: u64,
    pub state: ReviewState,
}

/// The mathematical value of a review request.
pub struct RequestState {
    pub id: Seq<char>,
    pub project_id: Seq<char>,
    pub scope: Seq<char>,
    pub asset_version_id: Seq<char>,
    pub requester: Seq<char>,
    pub reviewer: Option<Seq<char>>,
    pub feedback: Seq<Seq<char>>,
    pub revision: u64,
    pub state: ReviewState,
}

impl View for ReviewRequest {
    type V = RequestState;

    open spec fn view(&self) -> RequestState {
        RequestState {
            id: self.id@,
            project_id: self.project_id@,
            scope: self.scope@,
            asset_version_id: self.asset_version_id@,
            requester: self.requester@,
            reviewer: match self.reviewer {
                Some(r) => Some(r@),
                None => None,
            },
            feedback: views(self.feedback@),
            revision: self.revision,
            state: self.state,
        }
    }
}

#[derive(Debug, Clone, PartialEq, Eq)]
pub struct ReviewSnapshot {
    pub project_id: String,
    pub scope: String,
    pub requests: Vec<ReviewRequest>,
}

#[derive(Debug, Clone)]
struct ReviewProject {
    project_id: String,
    requests: Vec<ReviewRequest>,
}

/// The review requests of one project, ordered by id.
pub struct ReviewBoard {
    pub project_id: Seq<char>,
    pub requests: Seq<RequestState>,
}

/// Review requests per project, each moving through assignment, feedback and a decision,
/// every change naming the revision it was made against.
#[derive(Debug)]
pub struct MediaReviewStore {
    projects: Vec<ReviewProject>,
    max_projects: usize,
    max_feedback: usize,
}

pub open spec fn request_states(v: Seq<ReviewRequest>) -> Seq<RequestState> {
    v.map_values(|r: ReviewRequest| r@)
}

spec fn board(p: ReviewProject) -> ReviewBoard {
    ReviewBoard { project_id: p.project_id@, requests: request_states(p.requests@) }
}

pub open spec fn board_ids(bs: Seq<ReviewBoard>) -> Seq<Seq<char>> {
    bs.map_values(|b: ReviewBoard| b.project_id)
}

pub open spec fn board_index(bs: Seq<ReviewBoard>, id: Seq<char>) -> int {
    board_ids(bs).index_of(id)
}

pub open spec fn request_ids(rs: Seq<RequestState>) -> Seq<Seq<char>> {
    rs.map_values(|r: RequestState| r.id)
}

pub open spec fn request_index(rs: Seq<RequestState>, id: Seq<char>) -> int {
    request_ids(rs).index_of(id)
}

/// Requests strictly ordered by id.
pub open spec fn ordered_requests(rs: Seq<RequestState>) -> bool {
    forall|i: int, j: int| 0 <= i < j < rs.len() ==> seq_lt(#[trigger] rs[i].id, #[trigger] rs[j].id)
}

pub open spec fn boards_wf(bs: Seq<ReviewBoard>) -> bool {
    &&& forall|i: int, j: int|
        0 <= i < bs.len() && 0 <= j < bs.len() && i != j ==> #[trigger] bs[i].project_id
            != #[trigger] bs[j].project_id
    &&& forall|i: int| 0 <= i < bs.len() ==> ordered_requests(#[trigger] bs[i].requests)
}

/// The request `id` of project `project`, when both exist.
pub open spec fn request_at(bs: Seq<ReviewBoard>, project: Seq<char>, id: Seq<char>) -> Option<
    RequestState,
> {
    if board_ids(bs).contains(project) && request_ids(
        bs[board_index(bs, project)].requests,
    ).contains(id) {
        let rs = bs[board_index(bs, project)].requests;
        Some(rs[request_index(rs, id)])
    } else {
        None
    }
}

/// The revision after a change, wrapping at the largest `u64`.
pub open spec fn next_revision(r: u64) -> u64 {
    if r == u64::MAX {
        0
    } else {
        (r + 1) as u64
    }
}

/// The boards after replacing request `id` of `project` by `x`.
pub open spec fn with_request(
    bs: Seq<ReviewBoard>,
    project: Seq<char>,
    id: Seq<char>,
    x: RequestState,
) -> Seq<ReviewBoard> {
    let b = bs[board_index(bs, project)];
    bs.update(
        board_index(bs, project),
        ReviewBoard {
            project_id: b.project_id,
            requests: b.requests.update(request_index(b.requests, id), x),
        },
    )
}

/// What a change of request `id` of `project` at revision `expected` finds.
pub open spec fn change_target(
    bs: Seq<ReviewBoard>,
    project: Seq<char>,
    scope: Seq<char>,
    id: Seq<char>,
    expected: u64,
) -> Result<RequestState, ReviewError> {
    match request_at(bs, project, id) {
        None => Err(ReviewError::Missing),
        Some(x) => if x.scope != scope {
            Err(ReviewError::ScopeMismatch)
        } else if x.revision != expected {
            Err(ReviewError::RevisionConflict)
        } else {
            Ok(x)
        },
    }
}

fn copy_request(r: &ReviewRequest) -> (c: ReviewRequest)
    ensures
        c@ == r@,
{
    ReviewRequest {
        id: r.id.clone(),
        project_id: r.project_id.clone(),
        scope: r.scope.clone(),
        asset_version_id: r.asset_version_id.clone(),
        requester: r.requester.clone(),
        reviewer: match &r.reviewer {
            Some(x) => Some(x.clone()),
            None => None,
        },
        feedback: clone_strings(&r.feedback),
        revision: r.revision,
        state: r.state,
    }
}

fn copy_requests(v: &Vec<ReviewRequest>) -> (c: Vec<ReviewRequest>)
    ensures
        request_states(c@) == request_states(v@),
{
    let mut c: Vec<ReviewRequest> = Vec::new();
    let mut i: usize = 0;
    while i < v.len()
        invariant
            i <= v@.len(),
            c@.len() == i,
            forall|j: int| 0 <= j < i ==> (#[trigger] c@[j])@ == v@[j]@,
        decreases v@.len() - i,
    {
        let r = copy_request(&v[i]);
        c.push(r);
        i = i + 1;
    }
    assert(request_states(c@) =~= request_states(v@));
    c
}

proof fn lemma_board_update(
    before: Seq<ReviewProject>,
    after: Seq<ReviewProject>,
    i: int,
)
    requires
        boards_wf(before.map_values(|p: ReviewProject| board(p))),
        before.len() == after.len(),
        0 <= i < before.len(),
        forall|j: int| 0 <= j < before.len() && j != i ==> after[j] == before[j],
        after[i].project_id@ == before[i].project_id@,
        ordered_requests(request_states(after[i].requests@)),
    ensures
        boards_wf(after.map_values(|p: ReviewProject| board(p))),
        after.map_values(|p: ReviewProject| board(p)) =~= before.map_values(
            |p: ReviewProject| board(p),
        ).update(i, board(after[i])),
{
    let a = after.map_values(|p: ReviewProject| board(p));
    let b = before.map_values(|p: ReviewProject| board(p));
    assert forall|x: int, y: int|
        0 <= x < a.len() && 0 <= y < a.len() && x != y implies #[trigger] a[x].project_id
        != #[trigger] a[y].project_id by {
        assert(a[x].project_id == b[x].project_id && a[y].project_id == b[y].project_id);
    }
    assert forall|q: int| 0 <= q < a.len() implies ordered_requests(#[trigger] a[q].requests) by {
        if q != i {
            assert(a[q] == b[q]);
        }
    }
}

impl MediaReviewStore {
    pub closed spec fn boards(&self) -> Seq<ReviewBoard> {
        self.projects@.map_values(|p: ReviewProject| board(p))
    }

    pub closed spec fn max_projects(&self) -> nat {
        self.max_projects as nat
    }

    pub closed spec fn max_feedback(&self) -> nat {
        self.max_feedback as nat
    }

    pub closed spec fn wf(&self) -> bool {
        &&& self.max_projects >= 1
        &&& self.max_feedback >= 1
        &&& boards_wf(self.boards())
    }

    /// A store for up to `max_projects` projects, each request taking up to `max_feedback`
    /// notes (at least one each).
    pub fn new(max_projects: usize, max_feedback: usize) -> (s: MediaReviewStore)
        ensures
            s.wf(),
            s.boards().len() == 0,
            s.max_projects() == if max_projects < 1 {
                1
            } else {
                max_projects as nat
            },
            s.max_feedback() == if max_feedback < 1 {
                1
            } else {
                max_feedback as nat
            },
    {
        let s = MediaReviewStore {
            projects: Vec::new(),
            max_projects: if max_projects < 1 {
                1
            } else {
                max_projects
            },
            max_feedback: if max_feedback < 1 {
                1
            } else {
                max_feedback
            },
        };
        assert(s.boards() =~= Seq::<ReviewBoard>::empty());
        s
    }

    fn find(&self, id: &str) -> (r: Option<usize>)
        requires
            self.wf(),
        ensures
            r matches Some(i) ==> i < self.boards().len() && self.boards()[i as int].project_id
                == id@ && board_ids(self.boards()).contains(id@) && board_index(self.boards(), id@)
                == i,
            r is None ==> !board_ids(self.boards()).contains(id@),
    {
        let ghost ids = board_ids(self.boards());
        let mut i: usize = 0;
        while i < self.projects.len()
            invariant
                self.wf(),
                ids == board_ids(self.boards()),
                i <= self.projects@.len(),
                forall|j: int| 0 <= j < i ==> self.projects@[j].project_id@ != id@,
            decreases self.projects@.len() - i,
        {
            if str_eq(self.projects[i].project_id.as_str(), id) {
                proof {
                    assert(ids[i as int] == id@);
                    let k = ids.index_of(id@);
                    assert(ids[k] == self.boards()[k].project_id);
                }
                return Some(i);
            }
            i = i + 1;
        }
        proof {
            if ids.contains(id@) {
                let k = ids.index_of(id@);
                assert(ids[k] == self.boards()[k].project_id);
            }
        }
        None
    }

    fn find_request(v: &Vec<ReviewRequest>, id: &str) -> (r: Option<usize>)
        requires
            ordered_requests(request_states(v@)),
        ensures
            r matches Some(i) ==> i < v@.len() && v@[i as int].id@ == id@ && request_ids(
                request_states(v@),
            ).contains(id@) && request_index(request_states(v@), id@) == i,
            r is None ==> !request_ids(request_states(v@)).contains(id@),
    {
        let ghost rs = request_states(v@);
        let ghost ids = request_ids(rs);
        let mut i: usize = 0;
        while i < v.len()
            invariant
                rs == request_states(v@),
                ids == request_ids(rs),
                ordered_requests(rs),
                i <= v@.len(),
                forall|j: int| 0 <= j < i ==> v@[j].id@ != id@,
            decreases v@.len() - i,
        {
            if str_eq(v[i].id.as_str(), id) {
                proof {
                    assert(ids[i as int] == id@);
                    let k = ids.index_of(id@);
                    assert(ids[k] == rs[k].id);
                    if k != i {
                        if k < i {
                            assert(seq_lt(rs[k].id, rs[i as int].id));
                        } else {
                            assert(seq_lt(rs[i as int].id, rs[k].id));
                        }
                        lemma_seq_lt_order(id@, id@, id@);
                    }
                }
                return Some(i);
            }
            i = i + 1;
        }
        proof {
            if ids.contains(id@) {
                let k = ids.index_of(id@);
                assert(ids[k] == rs[k].id);
            }
        }
        None
    }

    fn snapshot_of(&self, i: usize, project: &str, scope: &str) -> (s: ReviewSnapshot)
        requires
            i < self.boards().len(),
        ensures
            s.project_id@ == project@,
            s.scope@ == scope@,
            request_states(s.requests@) == self.boards()[i as int].requests,
    {
        assert(self.boards()[i as int] == board(self.projects@[i as int]));
        ReviewSnapshot {
            project_id: owned(project),
            scope: owned(scope),
            requests: copy_requests(&self.projects[i].requests),
        }
    }

    /// Opens a pending review request `id` in project `project_id`.
    pub fn create(
        &mut self,
        project_id: &str,
        scope: &str,
        id: &str,
        asset_version_id: &str,
        requester: &str,
    ) -> (r: Result<ReviewSnapshot, ReviewError>)
        requires
            old(self).wf(),
        ensures
            final(self).wf(),
            final(self).max_projects() == old(self).max_projects(),
            final(self).max_feedback() == old(self).max_feedback(),
            !(plain_name(project_id@, 128) && plain_name(scope@, 128) && plain_name(id@, 128)
                && plain_name(asset_version_id@, 128) && plain_name(requester@, 128)) ==> r
                == Err::<ReviewSnapshot, _>(ReviewError::Invalid),
            plain_name(project_id@, 128) && plain_name(scope@, 128) && plain_name(id@, 128)
                && plain_name(asset_version_id@, 128) && plain_name(requester@, 128) ==> ({
                let bs = old(self).boards();
                let x = RequestState {
                    id: id@,
                    project_id: project_id@,
                    scope: scope@,
                    asset_version_id: asset_version_id@,
                    requester: requester@,
                    reviewer: None,
                    feedback: Seq::empty(),
                    revision: 1,
                    state: ReviewState::Pending,
                };
                if !board_ids(bs).contains(project_id@) {
                    if bs.len() >= old(self).max_projects() {
                        r == Err::<ReviewSnapshot, _>(ReviewError::Capacity)
                    } else {
                        final(self).boards() == bs.push(
                            ReviewBoard { project_id: project_id@, requests: seq![x] },
                        ) && (r matches Ok(s) && s.project_id@ == project_id@ && s.scope@ == scope@
                            && request_states(s.requests@) == seq![x])
                    }
                } else {
                    let b = bs[board_index(bs, project_id@)];
                    if request_ids(b.requests).contains(id@) {
                        r == Err::<ReviewSnapshot, _>(ReviewError::Duplicate)
                    } else {
                        exists|k: int|
                            0 <= k <= b.requests.len() && final(self).boards() == bs.update(
                                board_index(bs, project_id@),
                                ReviewBoard {
                                    project_id: b.project_id,
                                    requests: b.requests.insert(k, x),
                                },
                            ) && (r matches Ok(s) && s.project_id@ == project_id@ && s.scope@
                                == scope@ && request_states(s.requests@) == b.requests.insert(
                                k,
                                x,
                            ))
                    }
                }
            }),
            r is Err ==> final(self).boards() == old(self).boards(),
    {
        if !is_plain_name(project_id, 128) || !is_plain_name(scope, 128) || !is_plain_name(id, 128)
            || !is_plain_name(asset_version_id, 128) || !is_plain_name(requester, 128) {
            return Err(ReviewError::Invalid);
        }
        let x = ReviewRequest {
            id: owned(id),
            project_id: owned(project_id),
            scope: owned(scope),
            asset_version_id: owned(asset_version_id),
            requester: owned(requester),
            reviewer: None,
            feedback: Vec::new(),
            revision: 1,
            state: ReviewState::Pending,
        };
        proof {
            assert(views(x.feedback@) =~= Seq::<Seq<char>>::empty());
        }
        let ghost before = self.boards();
        match self.find(project_id) {
            None => {
                if self.projects.len() >= self.max_projects {
                    return Err(ReviewError::Capacity);
                }
                let mut requests: Vec<ReviewRequest> = Vec::new();
                requests.push(x);
                let p = ReviewProject { project_id: owned(project_id), requests };
                proof {
                    assert(request_states(p.requests@) =~= seq![x@]);
                }
                self.projects.push(p);
                let n = self.projects.len() - 1;
                proof {
                    let bs = self.boards();
                    assert(bs =~= before.push(board(p)));
                    assert forall|a: int, c: int|
                        0 <= a < bs.len() && 0 <= c < bs.len() && a != c implies #[trigger] bs[a].project_id
                        != #[trigger] bs[c].project_id by {
                        if a == before.len() {
                            assert(board_ids(before)[c] == before[c].project_id);
                        } else if c == before.len() {
                            assert(board_ids(before)[a] == before[a].project_id);
                        }
                    }
                    assert forall|q: int| 0 <= q < bs.len() implies ordered_requests(
                        #[trigger] bs[q].requests,
                    ) by {
                        if q < before.len() {
                            assert(bs[q] == before[q]);
                        }
                    }
                }
                Ok(self.snapshot_of(n, project_id, scope))
            },
            Some(i) => {
                assert(self.boards()[i as int] == board(self.projects@[i as int]));
                assert(ordered_requests(self.boards()[i as int].requests));
                if Self::find_request(&self.projects[i].requests, id).is_some() {
                    return Err(ReviewError::Duplicate);
                }
                let ghost old_rs = request_states(self.projects@[i as int].requests@);
                let mut k: usize = 0;
                while k < self.projects[i].requests.len() && str_lt(
                    self.projects[i].requests[k].id.as_str(),
                    id,
                )
                    invariant
                        i < self.projects@.len(),
                        old_rs == request_states(self.projects@[i as int].requests@),
                        k <= old_rs.len(),
                        forall|j: int| 0 <= j < k ==> seq_lt(#[trigger] old_rs[j].id, id@),
                    decreases old_rs.len() - k,
                {
                    k = k + 1;
                }
                proof {
                    let ids = request_ids(old_rs);
                    assert forall|j: int| k <= j < old_rs.len() implies seq_lt(
                        id@,
                        #[trigger] old_rs[j].id,
                    ) by {
                        assert(ids[k as int] == old_rs[k as int].id);
                        assert(ids[j] == old_rs[j].id);
                        lemma_seq_lt_order(id@, old_rs[k as int].id, old_rs[j].id);
                        lemma_seq_lt_order(old_rs[k as int].id, id@, old_rs[k as int].id);
                    }
                    let nr = old_rs.insert(k as int, x@);
                    assert forall|a: int, c: int| 0 <= a < c < nr.len() implies seq_lt(
                        #[trigger] nr[a].id,
                        #[trigger] nr[c].id,
                    ) by {
                        if c < k {
                        } else if c == k {
                        } else if a < k {
                            lemma_seq_lt_order(nr[a].id, id@, nr[c].id);
                        } else if a == k {
                        } else {
                            assert(nr[a] == old_rs[a - 1] && nr[c] == old_rs[c - 1]);
                        }
                    }
                }
                let ghost before_projects = self.projects@;
                self.projects[i].requests.insert(k, x);
                proof {
                    assert(request_states(self.projects@[i as int].requests@) =~= old_rs.insert(
                        k as int,
                        x@,
                    ));
                    lemma_board_update(before_projects, self.projects@, i as int);
                }
                Ok(self.snapshot_of(i, project_id, scope))
            },
        }
    }

    fn locate(&self, project: &str, scope: &str, id: &str, expected: u64) -> (r: Result<
        (usize, usize),
        ReviewError,
    >)
        requires
            self.wf(),
        ensures
            match change_target(self.boards(), project@, scope@, id@, expected) {
                Err(e) => r == Err::<(usize, usize), _>(e),
                Ok(x) => r matches Ok((i, k)) && i < self.boards().len() && i == board_index(
                    self.boards(),
                    project@,
                ) && k < self.boards()[i as int].requests.len() && k == request_index(
                    self.boards()[i as int].requests,
                    id@,
                ) && self.boards()[i as int].requests[k as int] == x && i
                    < self.projects@.len() && k < self.projects@[i as int].requests@.len(),
            },
    {
        let i = match self.find(project) {
            None => {
                return Err(ReviewError::Missing);
            },
            Some(i) => i,
        };
        assert(self.boards()[i as int] == board(self.projects@[i as int]));
        assert(ordered_requests(self.boards()[i as int].requests));
        let k = match Self::find_request(&self.projects[i].requests, id) {
            None => {
                return Err(ReviewError::Missing);
            },
            Some(k) => k,
        };
        let x = &self.projects[i].requests[k];
        if !str_eq(x.scope.as_str(), scope) {
            return Err(ReviewError::ScopeMismatch);
        }
        if x.revision != expected {
            return Err(ReviewError::RevisionConflict);
        }
        Ok((i, k))
    }

    /// Hands a request that nobody holds yet to the named person.
    pub fn assign(&mut self, project: &str, scope: &str, id: &str, expected: u64, reviewer: &str) -> (r:
        Result<ReviewSnapshot, ReviewError>)
        requires
            old(self).wf(),
        ensures
            final(self).wf(),
            final(self).max_projects() == old(self).max_projects(),
            final(self).max_feedback() == old(self).max_feedback(),
            !plain_name(reviewer@, 128) ==> r == Err::<ReviewSnapshot, _>(ReviewError::Invalid),
            plain_name(reviewer@, 128) ==> match change_target(
                old(self).boards(),
                project@,
                scope@,
                id@,
                expected,
            ) {
                Err(e) => r == Err::<ReviewSnapshot, _>(e),
                Ok(x) => if x.reviewer is Some {
                    r == Err::<ReviewSnapshot, _>(ReviewError::StateConflict)
                } else {
                    let y = RequestState {
                        reviewer: Some(reviewer@),
                        revision: next_revision(x.revision),
                        ..x
                    };
                    final(self).boards() == with_request(old(self).boards(), project@, id@, y) && (
                    r matches Ok(s) && s.project_id@ == project@ && s.scope@ == scope@
                        && request_states(s.requests@) == final(self).boards()[board_index(
                        old(self).boards(),
                        project@,
                    )].requests)
                },
            },
            r is Err ==> final(self).boards() == old(self).boards(),
    {
        if !is_plain_name(reviewer, 128) {
            return Err(ReviewError::Invalid);
        }
        let (i, k) = match self.locate(project, scope, id, expected) {
            Ok(p) => p,
            Err(e) => {
                return Err(e);
            },
        };
        assert(self.boards()[i as int] == board(self.projects@[i as int]));
        if self.projects[i].requests[k].reviewer.is_some() {
            return Err(ReviewError::StateConflict);
        }
        let ghost before_projects = self.projects@;
        let ghost old_rs = request_states(self.projects@[i as int].requests@);
        let next = if self.projects[i].requests[k].revision == u64::MAX {
            0
        } else {
            self.projects[i].requests[k].revision + 1
        };
        self.projects[i].requests[k].reviewer = Some(owned(reviewer));
        self.projects[i].requests[k].revision = next;
        proof {
            let nr = request_states(self.projects@[i as int].requests@);
            let y = RequestState {
                reviewer: Some(reviewer@),
                revision: next_revision(old_rs[k as int].revision),
                ..old_rs[k as int]
            };
            assert(nr =~= old_rs.update(k as int, y));
            assert forall|a: int, c: int| 0 <= a < c < nr.len() implies seq_lt(
                #[trigger] nr[a].id,
                #[trigger] nr[c].id,
            ) by {
                assert(nr[a].id == old_rs[a].id && nr[c].id == old_rs[c].id);
            }
            lemma_board_update(before_projects, self.projects@, i as int);
        }
        Ok(self.snapshot_of(i, project, scope))
    }

    /// Adds a note of 1 to 4096 bytes without control characters to a request.
    pub fn feedback(&mut self, project: &str, scope: &str, id: &str, expected: u64, text: &str) -> (r:
        Result<ReviewSnapshot, ReviewError>)
        requires
            old(self).wf(),
        ensures
            final(self).wf(),
            final(self).max_projects() == old(self).max_projects(),
            final(self).max_feedback() == old(self).max_feedback(),
            !safe_text(text@, 4096) ==> r == Err::<ReviewSnapshot, _>(ReviewError::Invalid),
            safe_text(text@, 4096) ==> match change_target(
                old(self).boards(),
                project@,
                scope@,
                id@,
                expected,
            ) {
                Err(e) => r == Err::<ReviewSnapshot, _>(e),
                Ok(x) => if x.feedback.len() >= old(self).max_feedback() {
                    r == Err::<ReviewSnapshot, _>(ReviewError::Capacity)
                } else {
                    let y = RequestState {
                        feedback: x.feedback.push(text@),
                        revision: next_revision(x.revision),
                        ..x
                    };
                    final(self).boards() == with_request(old(self).boards(), project@, id@, y) && (
                    r matches Ok(s) && s.project_id@ == project@ && s.scope@ == scope@
                        && request_states(s.requests@) == final(self).boards()[board_index(
                        old(self).boards(),
                        project@,
                    )].requests)
                },
            },
            r is Err ==> final(self).boards() == old(self).boards(),
    {
        if !is_safe_text(text, 4096) {
            return Err(ReviewError::Invalid);
        }
        let (i, k) = match self.locate(project, scope, id, expected) {
            Ok(p) => p,
            Err(e) => {
                return Err(e);
            },
        };
        assert(self.boards()[i as int] == board(self.projects@[i as int]));
        if self.projects[i].requests[k].feedback.len() >= self.max_feedback {
            return Err(ReviewError::Capacity);
        }
        let ghost before_projects = self.projects@;
        let ghost old_rs = request_states(self.projects@[i as int].requests@);
        let next = if self.projects[i].requests[k].revision == u64::MAX {
            0
        } else {
            self.projects[i].requests[k].revision + 1
        };
        self.projects[i].requests[k].feedback.push(owned(text));
        self.projects[i].requests[k].revision = next;
        proof {
            let nr = request_states(self.projects@[i as int].requests@);
            let y = RequestState {
                feedback: old_rs[k as int].feedback.push(text@),
                revision: next_revision(old_rs[k as int].revision),
                ..old_rs[k as int]
            };
            assert(views(self.projects@[i as int].requests@[k as int].feedback@) =~= old_rs[k as int].feedback.push(text@));
            assert(nr =~= old_rs.update(k as int, y));
            assert forall|a: int, c: int| 0 <= a < c < nr.len() implies seq_lt(
                #[trigger] nr[a].id,
                #[trigger] nr[c].id,
            ) by {
                assert(nr[a].id == old_rs[a].id && nr[c].id == old_rs[c].id);
            }
            lemma_board_update(before_projects, self.projects@, i as int);
        }
        Ok(self.snapshot_of(i, project, scope))
    }

    /// Records a decision other than pending on an assigned request whose state differs.
    pub fn decide(&mut self, project: &str, scope: &str, id: &str, expected: u64, state: ReviewState) -> (r:
        Result<ReviewSnapshot, ReviewError>)
        requires
            old(self).wf(),
        ensures
            final(self).wf(),
            final(self).max_projects() == old(self).max_projects(),
            final(self).max_feedback() == old(self).max_feedback(),
            state is Pending ==> r == Err::<ReviewSnapshot, _>(ReviewError::StateConflict),
            !(state is Pending) ==> match change_target(
                old(self).boards(),
                project@,
                scope@,
                id@,
                expected,
            ) {
                Err(e) => r == Err::<ReviewSnapshot, _>(e),
                Ok(x) => if x.reviewer is None || x.state == state {
                    r == Err::<ReviewSnapshot, _>(ReviewError::StateConflict)
                } else {
                    let y = RequestState { state, revision: next_revision(x.revision), ..x };
                    final(self).boards() == with_request(old(self).boards(), project@, id@, y) && (
                    r matches Ok(s) && s.project_id@ == project@ && s.scope@ == scope@
                        && request_states(s.requests@) == final(self).boards()[board_index(
                        old(self).boards(),
                        project@,
                    )].requests)
                },
            },
            r is Err ==> final(self).boards() == old(self).boards(),
    {
        if state == ReviewState::Pending {
            return Err(ReviewError::StateConflict);
        }
        let (i, k) = match self.locate(project, scope, id, expected) {
            Ok(p) => p,
            Err(e) => {
                return Err(e);
            },
        };
        assert(self.boards()[i as int] == board(self.projects@[i as int]));
        if self.projects[i].requests[k].reviewer.is_none() {
            return Err(ReviewError::StateConflict);
        }
        if self.projects[i].requests[k].state == state {
            return Err(ReviewError::StateConflict);
        }
        let ghost before_projects = self.projects@;
        let ghost old_rs = request_states(self.projects@[i as int].requests@);
        let next = if self.projects[i].requests[k].revision == u64::MAX {
            0
        } else {
            self.projects[i].requests[k].revision + 1
        };
        self.projects[i].requests[k].state = state;
        self.projects[i].requests[k].revision = next;
        proof {
            let nr = request_states(self.projects@[i as int].requests@);
            let y = RequestState {
                state,
                revision: next_revision(old_rs[k as int].revision),
                ..old_rs[k as int]
            };
            assert(nr =~= old_rs.update(k as int, y));
            assert forall|a: int, c: int| 0 <= a < c < nr.len() implies seq_lt(
                #[trigger] nr[a].id,
                #[trigger] nr[c].id,
            ) by {
                assert(nr[a].id == old_rs[a].id && nr[c].id == old_rs[c].id);
            }
            lemma_board_update(before_projects, self.projects@, i as int);
        }
        Ok(self.snapshot_of(i, project, scope))
    }

    /// The requests of project `project`, ordered by id; refused when any of them belongs to
    /// another scope.
    pub fn snapshot(&self, project: &str, scope: &str) -> (r: Result<ReviewSnapshot, ReviewError>)
        requires
            self.wf(),
        ensures
            !board_ids(self.boards()).contains(project@) ==> r == Err::<ReviewSnapshot, _>(
                ReviewError::Missing,
            ),
            board_ids(self.boards()).contains(project@) ==> ({
                let b = self.boards()[board_index(self.boards(), project@)];
                if exists|k: int| 0 <= k < b.requests.len() && (#[trigger] b.requests[k]).scope
                    != scope@ {
                    r == Err::<ReviewSnapshot, _>(ReviewError::ScopeMismatch)
                } else {
                    r matches Ok(s) && s.project_id@ == project@ && s.scope@ == scope@
                        && request_states(s.requests@) == b.requests
                }
            }),
    {
        let i = match self.find(project) {
            None => {
                return Err(ReviewError::Missing);
            },
            Some(i) => i,
        };
        assert(self.boards()[i as int] == board(self.projects@[i as int]));
        let ghost rs = self.boards()[i as int].requests;
        let mut k: usize = 0;
        while k < self.projects[i].requests.len()
            invariant
                i < self.projects@.len(),
                self.wf(),
                board_ids(self.boards()).contains(project@),
                board_index(self.boards(), project@) == i,
                rs == self.boards()[i as int].requests,
                rs == request_states(self.projects@[i as int].requests@),
                k <= rs.len(),
                forall|j: int| 0 <= j < k ==> (#[trigger] rs[j]).scope == scope@,
            decreases rs.len() - k,
        {
            if !str_eq(self.projects[i].requests[k].scope.as_str(), scope) {
                assert(rs[k as int].scope != scope@);
                return Err(ReviewError::ScopeMismatch);
            }
            k = k + 1;
        }
        Ok(self.snapshot_of(i, project, scope))
    }
}

} // verus!
