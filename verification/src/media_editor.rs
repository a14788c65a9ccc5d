//! Bounded media-editor project sessions with optimistic revisions.
use vstd::prelude::*;
use crate::text::{byte_len, clone_strings, contains_str, is_plain_name, owned, plain_name, str_eq, views};

verus! {

#[derive(Debug, Clone, Copy, PartialEq, Eq, Structural)]
pub enum EditorError {
    InvalidId,
    Capacity,
    NotFound,
    Conflict,
    TooManyAssets,
}

/// A project as it stands at one revision.
#[derive(Debug, Clone, PartialEq, Eq)]
pub struct EditorSnapshot {
    pub project_id: String,
    pub scope: String,
    pub revision: u64,
    pub assets: Vec<String>,
    pub timeline: String,
}

/// The mathematical value of a snapshot.
pub struct ProjectState {
    pub id: Seq<char>,
    pub scope: Seq<char>,
    pub revision: u64,
    pub assets: Seq<Seq<char>>,
    pub timeline: Seq<char>,
}

impl View for EditorSnapshot {
    type V = ProjectState;

    open spec fn view(&self) -> ProjectState {
        ProjectState {
            id: self.project_id@,
            scope: self.scope@,
            revision: self.revision,
            assets: views(self.assets@),
            timeline: self.timeline@,
        }
    }
}

/// Editor projects by id, each owned by one scope; every change names the revision it
/// was made against.
#[derive(Debug)]
pub struct MediaEditorStore {
    projects: Vec<EditorSnapshot>,
    max_projects: usize,
    max_assets: usize,
}

pub open spec fn project_ids(p: Seq<ProjectState>) -> Seq<Seq<char>> {
    p.map_values(|s: ProjectState| s.id)
}

pub open spec fn unique_projects(p: Seq<ProjectState>) -> bool {
    forall|i: int, j: int|
        0 <= i < p.len() && 0 <= j < p.len() && i != j ==> #[trigger] p[i].id != #[trigger] p[j].id
}

pub open spec fn project_index(p: Seq<ProjectState>, id: Seq<char>) -> int {
    project_ids(p).index_of(id)
}

pub open spec fn states(p: Seq<EditorSnapshot>) -> Seq<ProjectState> {
    p.map_values(|s: EditorSnapshot| s@)
}

/// The project `id` of `scope`, found for a change made against `expected`.
pub open spec fn update_target(
    p: Seq<ProjectState>,
    id: Seq<char>,
    scope: Seq<char>,
    expected: u64,
) -> Result<ProjectState, EditorError> {
    if !plain_name(id, 128) || !plain_name(scope, 128) {
        Err(EditorError::InvalidId)
    } else if !project_ids(p).contains(id) || p[project_index(p, id)].scope != scope {
        Err(EditorError::NotFound)
    } else if p[project_index(p, id)].revision != expected {
        Err(EditorError::Conflict)
    } else {
        Ok(p[project_index(p, id)])
    }
}

/// The project after a successful change: `changed`, one revision on.
pub open spec fn bumped(changed: ProjectState) -> ProjectState {
    ProjectState { revision: (changed.revision + 1) as u64, ..changed }
}

fn copy_snapshot(s: &EditorSnapshot) -> (r: EditorSnapshot)
    ensures
        r@ == s@,
{
    let assets = clone_strings(&s.assets);
    proof {
        assert(assets@ =~= s.assets@);
    }
    EditorSnapshot {
        project_id: s.project_id.clone(),
        scope: s.scope.clone(),
        revision: s.revision,
        assets,
        timeline: s.timeline.clone(),
    }
}

impl MediaEditorStore {
    pub closed spec fn projects(&self) -> Seq<ProjectState> {
        states(self.projects@)
    }

    pub closed spec fn max_projects(&self) -> nat {
        self.max_projects as nat
    }

    pub closed spec fn max_assets(&self) -> nat {
        self.max_assets as nat
    }

    pub closed spec fn wf(&self) -> bool {
        &&& self.max_projects >= 1
        &&& self.max_assets >= 1
        &&& unique_projects(states(self.projects@))
    }

    /// A store for up to `max_projects` projects of up to `max_assets` assets (at least one
    /// each).
    pub fn new(max_projects: usize, max_assets: usize) -> (s: MediaEditorStore)
        ensures
            s.wf(),
            s.projects().len() == 0,
            s.max_projects() == if max_projects < 1 {
                1
            } else {
                max_projects as nat
            },
            s.max_assets() == if max_assets < 1 {
                1
            } else {
                max_assets as nat
            },
    {
        MediaEditorStore {
            projects: Vec::new(),
            max_projects: if max_projects < 1 {
                1
            } else {
                max_projects
            },
            max_assets: if max_assets < 1 {
                1
            } else {
                max_assets
            },
        }
    }

    fn find(&self, id: &str) -> (r: Option<usize>)
        requires
            self.wf(),
        ensures
            r matches Some(i) ==> i < self.projects().len() && self.projects()[i as int].id == id@
                && project_ids(self.projects()).contains(id@) && project_index(
                self.projects(),
                id@,
            ) == i,
            r is None ==> !project_ids(self.projects()).contains(id@),
    {
        let ghost ids = project_ids(self.projects());
        let mut i: usize = 0;
        while i < self.projects.len()
            invariant
                self.wf(),
                ids == project_ids(self.projects()),
                i <= self.projects@.len(),
                forall|j: int| 0 <= j < i ==> self.projects@[j].project_id@ != id@,
            decreases self.projects@.len() - i,
        {
            if str_eq(self.projects[i].project_id.as_str(), id) {
                proof {
                    assert(self.projects()[i as int] == self.projects@[i as int]@);
                    assert(ids[i as int] == id@);
                    let k = ids.index_of(id@);
                    assert(ids[k] == self.projects()[k].id);
                }
                return Some(i);
            }
            i = i + 1;
        }
        proof {
            if ids.contains(id@) {
                let k = ids.index_of(id@);
                assert(ids[k] == self.projects()[k].id);
                assert(self.projects()[k] == self.projects@[k]@);
            }
        }
        None
    }

    proof fn lemma_unique_after(before: Seq<EditorSnapshot>, after: Seq<EditorSnapshot>, i: int)
        requires
            unique_projects(states(before)),
            before.len() == after.len(),
            0 <= i < before.len(),
            forall|j: int| 0 <= j < before.len() && j != i ==> after[j] == before[j],
            after[i].project_id@ == before[i].project_id@,
        ensures
            unique_projects(states(after)),
    {
        let p = states(after);
        let q = states(before);
        assert forall|a: int, b: int|
            0 <= a < p.len() && 0 <= b < p.len() && a != b implies #[trigger] p[a].id
            != #[trigger] p[b].id by {
            assert(p[a].id == q[a].id && p[b].id == q[b].id);
        }
    }

    /// Opens an empty project at revision 0.
    pub fn create(&mut self, project_id: &str, scope: &str) -> (r: Result<EditorSnapshot, EditorError>)
        requires
            old(self).wf(),
        ensures
            final(self).wf(),
            final(self).max_projects() == old(self).max_projects(),
            final(self).max_assets() == old(self).max_assets(),
            r is Err <==> !plain_name(project_id@, 128) || !plain_name(scope@, 128)
                || project_ids(old(self).projects()).contains(project_id@) || old(self).projects().len()
                >= old(self).max_projects(),
            r matches Err(e) ==> e == (if !plain_name(project_id@, 128) || !plain_name(scope@, 128) {
                EditorError::InvalidId
            } else if project_ids(old(self).projects()).contains(project_id@) {
                EditorError::Conflict
            } else {
                EditorError::Capacity
            }),
            r matches Ok(s) ==> s@ == (ProjectState {
                id: project_id@,
                scope: scope@,
                revision: 0,
                assets: Seq::empty(),
                timeline: Seq::empty(),
            }) && final(self).projects() == old(self).projects().push(s@),
            r is Err ==> final(self).projects() == old(self).projects(),
    {
        if !is_plain_name(project_id, 128) || !is_plain_name(scope, 128) {
            return Err(EditorError::InvalidId);
        }
        if self.find(project_id).is_some() {
            return Err(EditorError::Conflict);
        }
        if self.projects.len() >= self.max_projects {
            return Err(EditorError::Capacity);
        }
        let s = EditorSnapshot {
            project_id: owned(project_id),
            scope: owned(scope),
            revision: 0,
            assets: Vec::new(),
            timeline: String::new(),
        };
        let out = copy_snapshot(&s);
        let ghost before = self.projects();
        self.projects.push(s);
        proof {
            let p = self.projects();
            assert(p =~= before.push(s@));
            assert(views(s.assets@) =~= Seq::<Seq<char>>::empty());
            assert forall|a: int, b: int|
                0 <= a < p.len() && 0 <= b < p.len() && a != b implies #[trigger] p[a].id
                != #[trigger] p[b].id by {
                if a < before.len() && b < before.len() {
                } else if a == before.len() {
                    assert(project_ids(before)[b] == before[b].id);
                } else {
                    assert(project_ids(before)[a] == before[a].id);
                }
            }
        }
        Ok(out)
    }

    fn target(&self, project_id: &str, scope: &str, expected: u64) -> (r: Result<usize, EditorError>)
        requires
            self.wf(),
        ensures
            match update_target(self.projects(), project_id@, scope@, expected) {
                Ok(_) => r matches Ok(i) && i < self.projects().len() && i == project_index(
                    self.projects(),
                    project_id@,
                ),
                Err(e) => r == Err::<usize, _>(e),
            },
    {
        if !is_plain_name(project_id, 128) || !is_plain_name(scope, 128) {
            return Err(EditorError::InvalidId);
        }
        let i = match self.find(project_id) {
            None => {
                return Err(EditorError::NotFound);
            },
            Some(i) => i,
        };
        assert(self.projects()[i as int] == self.projects@[i as int]@);
        if !str_eq(self.projects[i].scope.as_str(), scope) {
            return Err(EditorError::NotFound);
        }
        if self.projects[i].revision != expected {
            return Err(EditorError::Conflict);
        }
        Ok(i)
    }

    fn bump(&mut self, i: usize) -> (r: Result<EditorSnapshot, EditorError>)
        requires
            old(self).wf(),
            i < old(self).projects().len(),
        ensures
            final(self).wf(),
            final(self).max_projects() == old(self).max_projects(),
            final(self).max_assets() == old(self).max_assets(),
            old(self).projects()[i as int].revision == u64::MAX ==> r == Err::<EditorSnapshot, _>(
                EditorError::Conflict,
            ) && final(self).projects() == old(self).projects(),
            old(self).projects()[i as int].revision < u64::MAX ==> (r matches Ok(s) && s@ == bumped(
                old(self).projects()[i as int],
            )) && final(self).projects() == old(self).projects().update(
                i as int,
                bumped(old(self).projects()[i as int]),
            ),
    {
        assert(self.projects()[i as int] == self.projects@[i as int]@);
        if self.projects[i].revision == u64::MAX {
            return Err(EditorError::Conflict);
        }
        let ghost before = self.projects@;
        self.projects[i].revision = self.projects[i].revision + 1;
        proof {
            Self::lemma_unique_after(before, self.projects@, i as int);
            assert(self.projects() =~= states(before).update(
                i as int,
                bumped(states(before)[i as int]),
            ));
        }
        Ok(copy_snapshot(&self.projects[i]))
    }

    /// Adds an asset to project `project_id` of `scope` at revision `expected_revision`.
    pub fn add_asset(&mut self, project_id: &str, scope: &str, expected_revision: u64, asset_id: &str) -> (r:
        Result<EditorSnapshot, EditorError>)
        requires
            old(self).wf(),
        ensures
            final(self).wf(),
            final(self).max_projects() == old(self).max_projects(),
            final(self).max_assets() == old(self).max_assets(),
            match update_target(old(self).projects(), project_id@, scope@, expected_revision) {
                Err(e) => r == Err::<EditorSnapshot, _>(e) && final(self).projects() == old(self).projects(),
                Ok(p) => if p.assets.len() >= old(self).max_assets() {
                    r == Err::<EditorSnapshot, _>(EditorError::TooManyAssets) && final(self).projects() == old(self).projects()
                } else if !plain_name(asset_id@, 128) {
                    r == Err::<EditorSnapshot, _>(EditorError::InvalidId) && final(self).projects()
                        == old(self).projects()
                } else if p.assets.contains(asset_id@) {
                    r == Err::<EditorSnapshot, _>(EditorError::Conflict) && final(self).projects()
                        == old(self).projects()
                } else {
                    let changed = ProjectState { assets: p.assets.push(asset_id@), ..p };
                    &&& p.revision < u64::MAX ==> (r matches Ok(s) && s@ == bumped(changed))
                        && final(self).projects() == old(self).projects().update(
                        project_index(old(self).projects(), project_id@),
                        bumped(changed),
                    )
                    &&& p.revision == u64::MAX ==> r == Err::<EditorSnapshot, _>(
                        EditorError::Conflict,
                    ) && final(self).projects() == old(self).projects().update(
                        project_index(old(self).projects(), project_id@),
                        changed,
                    )
                },
            },
    {
        let i = match self.target(project_id, scope, expected_revision) {
            Ok(i) => i,
            Err(e) => {
                return Err(e);
            },
        };
        assert(self.projects()[i as int] == self.projects@[i as int]@);
        if self.projects[i].assets.len() >= self.max_assets {
            return Err(EditorError::TooManyAssets);
        }
        if !is_plain_name(asset_id, 128) {
            return Err(EditorError::InvalidId);
        }
        if contains_str(&self.projects[i].assets, asset_id) {
            return Err(EditorError::Conflict);
        }
        let ghost before = self.projects@;
        self.projects[i].assets.push(owned(asset_id));
        proof {
            assert(views(self.projects@[i as int].assets@) =~= views(before[i as int].assets@).push(
                asset_id@,
            ));
            Self::lemma_unique_after(before, self.projects@, i as int);
            assert(self.projects() =~= states(before).update(
                i as int,
                ProjectState {
                    assets: states(before)[i as int].assets.push(asset_id@),
                    ..states(before)[i as int]
                },
            ));
        }
        self.bump(i)
    }

    /// Replaces the timeline of project `project_id` of `scope` at revision
    /// `expected_revision`; a timeline is at most 16384 bytes.
    pub fn set_timeline(&mut self, project_id: &str, scope: &str, expected_revision: u64, timeline: &str) -> (r:
        Result<EditorSnapshot, EditorError>)
        requires
            old(self).wf(),
        ensures
            final(self).wf(),
            final(self).max_projects() == old(self).max_projects(),
            final(self).max_assets() == old(self).max_assets(),
            match update_target(old(self).projects(), project_id@, scope@, expected_revision) {
                Err(e) => r == Err::<EditorSnapshot, _>(e) && final(self).projects() == old(self).projects(),
                Ok(p) => if byte_len(timeline@) > 16_384 {
                    r == Err::<EditorSnapshot, _>(EditorError::TooManyAssets) && final(self).projects() == old(self).projects()
                } else {
                    let changed = ProjectState { timeline: timeline@, ..p };
                    &&& p.revision < u64::MAX ==> (r matches Ok(s) && s@ == bumped(changed))
                        && final(self).projects() == old(self).projects().update(
                        project_index(old(self).projects(), project_id@),
                        bumped(changed),
                    )
                    &&& p.revision == u64::MAX ==> r == Err::<EditorSnapshot, _>(
                        EditorError::Conflict,
                    ) && final(self).projects() == old(self).projects().update(
                        project_index(old(self).projects(), project_id@),
                        changed,
                    )
                },
            },
    {
        let i = match self.target(project_id, scope, expected_revision) {
            Ok(i) => i,
            Err(e) => {
                return Err(e);
            },
        };
        assert(self.projects()[i as int] == self.projects@[i as int]@);
        if timeline.len() > 16_384 {
            return Err(EditorError::TooManyAssets);
        }
        let ghost before = self.projects@;
        self.projects[i].timeline = owned(timeline);
        proof {
            Self::lemma_unique_after(before, self.projects@, i as int);
            assert(self.projects() =~= states(before).update(
                i as int,
                ProjectState { timeline: timeline@, ..states(before)[i as int] },
            ));
        }
        self.bump(i)
    }

    /// The current state of project `project_id` of `scope`.
    pub fn snapshot(&self, project_id: &str, scope: &str) -> (r: Result<EditorSnapshot, EditorError>)
        requires
            self.wf(),
        ensures
            r is Err <==> !plain_name(project_id@, 128) || !plain_name(scope@, 128)
                || !project_ids(self.projects()).contains(project_id@) || self.projects()[project_index(
                self.projects(),
                project_id@,
            )].scope != scope@,
            r matches Err(e) ==> e == (if !plain_name(project_id@, 128) || !plain_name(scope@, 128) {
                EditorError::InvalidId
            } else {
                EditorError::NotFound
            }),
            r matches Ok(s) ==> s@ == self.projects()[project_index(self.projects(), project_id@)],
    {
        if !is_plain_name(project_id, 128) || !is_plain_name(scope, 128) {
            return Err(EditorError::InvalidId);
        }
        let i = match self.find(project_id) {
            None => {
                return Err(EditorError::NotFound);
            },
            Some(i) => i,
        };
        assert(self.projects()[i as int] == self.projects@[i as int]@);
        if !str_eq(self.projects[i].scope.as_str(), scope) {
            return Err(EditorError::NotFound);
        }
        Ok(copy_snapshot(&self.projects[i]))
    }
}

} // verus!
