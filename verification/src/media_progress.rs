//! Bounded progress events for observable media-processing jobs.
use vstd::prelude::*;
use crate::text::{is_plain_name, is_safe_text, owned, plain_name, safe_text, str_eq};

verus! {

#[derive(Debug, Clone, Copy, PartialEq, Eq, Structural)]
pub enum ProgressError {
    InvalidTask,
    InvalidStage,
    InvalidProgress,
    SequenceMismatch,
    NonMonotonic,
    Capacity,
}

#[derive(Debug, Clone, PartialEq, Eq)]
pub struct MediaProgressEvent {
    pub task_id: String,
    pub sequence: u64,
    pub progress: u8,
    pub stage: String,
    pub detail: Option<String>,
}

#[derive(Debug, Clone, PartialEq, Eq)]
pub struct ProgressSnapshot {
    pub latest: Option<MediaProgressEvent>,
    pub history: Vec<MediaProgressEvent>,
}

#[derive(Debug, Clone)]
struct TaskProgress {
    id: String,
    events: Vec<MediaProgressEvent>,
    latest_progress: u8,
    next_sequence: u64,
}

/// The mathematical value of one task's progress.
pub struct TaskState {
    pub id: Seq<char>,
    pub events: Seq<MediaProgressEvent>,
    pub latest_progress: u8,
    pub next_sequence: u64,
}

/// Recent progress events per task, bounded in number of tasks and events kept.
#[derive(Debug)]
pub struct MediaProgressStore {
    tasks: Vec<TaskProgress>,
    max_tasks: usize,
    history_limit: usize,
}

spec fn task_state(t: TaskProgress) -> TaskState {
    TaskState {
        id: t.id@,
        events: t.events@,
        latest_progress: t.latest_progress,
        next_sequence: t.next_sequence,
    }
}

pub open spec fn task_ids(ts: Seq<TaskState>) -> Seq<Seq<char>> {
    ts.map_values(|t: TaskState| t.id)
}

pub open spec fn task_index(ts: Seq<TaskState>, id: Seq<char>) -> int {
    task_ids(ts).index_of(id)
}

/// `e` appended to `events`, keeping only the last `limit`.
pub open spec fn bounded_push(events: Seq<MediaProgressEvent>, e: MediaProgressEvent, limit: nat) -> Seq<
    MediaProgressEvent,
> {
    let s = events.push(e);
    if s.len() > limit {
        s.skip(s.len() - limit)
    } else {
        s
    }
}

/// Events ordered by sequence and never moving backwards in progress, none past the latest.
pub open spec fn events_monotonic(t: TaskState) -> bool {
    &&& forall|i: int, j: int|
        0 <= i < j < t.events.len() ==> (#[trigger] t.events[i]).progress <= (
        #[trigger] t.events[j]).progress && t.events[i].sequence < t.events[j].sequence
    &&& forall|i: int|
        0 <= i < t.events.len() ==> (#[trigger] t.events[i]).progress <= t.latest_progress
            && t.events[i].sequence < t.next_sequence
}

pub open spec fn tasks_wf(ts: Seq<TaskState>, limit: nat) -> bool {
    &&& forall|i: int, j: int|
        0 <= i < ts.len() && 0 <= j < ts.len() && i != j ==> #[trigger] ts[i].id != #[trigger] ts[j].id
    &&& forall|i: int|
        0 <= i < ts.len() ==> events_monotonic(#[trigger] ts[i]) && ts[i].events.len() <= limit
}

fn copy_event(e: &MediaProgressEvent) -> (r: MediaProgressEvent)
    ensures
        r == *e,
{
    MediaProgressEvent {
        task_id: e.task_id.clone(),
        sequence: e.sequence,
        progress: e.progress,
        stage: e.stage.clone(),
        detail: match &e.detail {
            Some(d) => Some(d.clone()),
            None => None,
        },
    }
}

impl MediaProgressStore {
    pub closed spec fn tasks(&self) -> Seq<TaskState> {
        self.tasks@.map_values(|t: TaskProgress| task_state(t))
    }

    pub closed spec fn max_tasks(&self) -> nat {
        self.max_tasks as nat
    }

    pub closed spec fn history_limit(&self) -> nat {
        self.history_limit as nat
    }

    pub closed spec fn wf(&self) -> bool {
        &&& self.max_tasks >= 1
        &&& self.history_limit >= 1
        &&& tasks_wf(self.tasks(), self.history_limit as nat)
    }

    /// A store for up to `max_tasks` tasks, keeping the last `history_limit` events of each
    /// (at least one each).
    pub fn new(max_tasks: usize, history_limit: usize) -> (s: MediaProgressStore)
        ensures
            s.wf(),
            s.tasks().len() == 0,
            s.max_tasks() == if max_tasks < 1 {
                1
            } else {
                max_tasks as nat
            },
            s.history_limit() == if history_limit < 1 {
                1
            } else {
                history_limit as nat
            },
    {
        let s = MediaProgressStore {
            tasks: Vec::new(),
            max_tasks: if max_tasks < 1 {
                1
            } else {
                max_tasks
            },
            history_limit: if history_limit < 1 {
                1
            } else {
                history_limit
            },
        };
        assert(s.tasks() =~= Seq::<TaskState>::empty());
        s
    }

    fn find(&self, id: &str) -> (r: Option<usize>)
        requires
            self.wf(),
        ensures
            r matches Some(i) ==> i < self.tasks().len() && self.tasks()[i as int].id == id@
                && task_ids(self.tasks()).contains(id@) && task_index(self.tasks(), id@) == i,
            r is None ==> !task_ids(self.tasks()).contains(id@),
    {
        let ghost ids = task_ids(self.tasks());
        let mut i: usize = 0;
        while i < self.tasks.len()
            invariant
                self.wf(),
                ids == task_ids(self.tasks()),
                i <= self.tasks@.len(),
                forall|j: int| 0 <= j < i ==> self.tasks@[j].id@ != id@,
            decreases self.tasks@.len() - i,
        {
            if str_eq(self.tasks[i].id.as_str(), id) {
                proof {
                    assert(ids[i as int] == id@);
                    let k = ids.index_of(id@);
                    assert(ids[k] == self.tasks()[k].id);
                }
                return Some(i);
            }
            i = i + 1;
        }
        proof {
            if ids.contains(id@) {
                let k = ids.index_of(id@);
                assert(ids[k] == self.tasks()[k].id);
            }
        }
        None
    }

    /// Records a progress event for `task_id`: sequences count up from 0, progress never
    /// moves backwards, and only the last events are kept.
    pub fn publish(&mut self, task_id: &str, progress: u8, stage: &str, detail: Option<String>) -> (r:
        Result<MediaProgressEvent, ProgressError>)
        requires
            old(self).wf(),
        ensures
            final(self).wf(),
            final(self).max_tasks() == old(self).max_tasks(),
            final(self).history_limit() == old(self).history_limit(),
            !plain_name(task_id@, 128) ==> r == Err::<MediaProgressEvent, _>(ProgressError::InvalidTask),
            plain_name(task_id@, 128) && !safe_text(stage@, 128) ==> r == Err::<
                MediaProgressEvent,
                _,
            >(ProgressError::InvalidStage),
            plain_name(task_id@, 128) && safe_text(stage@, 128) && progress > 100 ==> r == Err::<
                MediaProgressEvent,
                _,
            >(ProgressError::InvalidProgress),
            plain_name(task_id@, 128) && safe_text(stage@, 128) && progress <= 100 ==> ({
                let ts = old(self).tasks();
                if !task_ids(ts).contains(task_id@) {
                    if ts.len() >= old(self).max_tasks() {
                        r == Err::<MediaProgressEvent, _>(ProgressError::Capacity)
                    } else {
                        r matches Ok(e) && e.task_id@ == task_id@ && e.sequence == 0 && e.progress
                            == progress && e.stage@ == stage@ && e.detail == detail
                            && final(self).tasks() == ts.push(
                            TaskState {
                                id: task_id@,
                                events: seq![e],
                                latest_progress: progress,
                                next_sequence: 1,
                            },
                        )
                    }
                } else {
                    let t = ts[task_index(ts, task_id@)];
                    if progress < t.latest_progress {
                        r == Err::<MediaProgressEvent, _>(ProgressError::NonMonotonic)
                    } else if t.next_sequence == u64::MAX {
                        r == Err::<MediaProgressEvent, _>(ProgressError::SequenceMismatch)
                    } else {
                        r matches Ok(e) && e.task_id@ == task_id@ && e.sequence == t.next_sequence
                            && e.progress == progress && e.stage@ == stage@ && e.detail == detail
                            && final(self).tasks() == ts.update(
                            task_index(ts, task_id@),
                            TaskState {
                                id: t.id,
                                events: bounded_push(t.events, e, old(self).history_limit()),
                                latest_progress: progress,
                                next_sequence: (t.next_sequence + 1) as u64,
                            },
                        )
                    }
                }
            }),
            r is Err ==> final(self).tasks() == old(self).tasks(),
    {
        if !is_plain_name(task_id, 128) {
            return Err(ProgressError::InvalidTask);
        }
        if !is_safe_text(stage, 128) {
            return Err(ProgressError::InvalidStage);
        }
        if progress > 100 {
            return Err(ProgressError::InvalidProgress);
        }
        let ghost before = self.tasks();
        match self.find(task_id) {
            None => {
                if self.tasks.len() >= self.max_tasks {
                    return Err(ProgressError::Capacity);
                }
                let event = MediaProgressEvent {
                    task_id: owned(task_id),
                    sequence: 0,
                    progress,
                    stage: owned(stage),
                    detail,
                };
                let out = copy_event(&event);
                let mut events: Vec<MediaProgressEvent> = Vec::new();
                events.push(event);
                let t = TaskProgress {
                    id: owned(task_id),
                    events,
                    latest_progress: progress,
                    next_sequence: 1,
                };
                self.tasks.push(t);
                proof {
                    let ts = self.tasks();
                    assert(ts =~= before.push(task_state(t)));
                    assert(task_state(t).events =~= seq![out]);
                    assert forall|a: int, b: int|
                        0 <= a < ts.len() && 0 <= b < ts.len() && a != b implies #[trigger] ts[a].id
                        != #[trigger] ts[b].id by {
                        if a == before.len() {
                            assert(task_ids(before)[b] == before[b].id);
                        } else if b == before.len() {
                            assert(task_ids(before)[a] == before[a].id);
                        }
                    }
                    assert forall|q: int| 0 <= q < ts.len() implies events_monotonic(#[trigger] ts[q])
                        && ts[q].events.len() <= self.history_limit by {
                        if q < before.len() {
                            assert(ts[q] == before[q]);
                        }
                    }
                }
                Ok(out)
            },
            Some(i) => {
                assert(self.tasks()[i as int] == task_state(self.tasks@[i as int]));
                if progress < self.tasks[i].latest_progress {
                    return Err(ProgressError::NonMonotonic);
                }
                if self.tasks[i].next_sequence == u64::MAX {
                    return Err(ProgressError::SequenceMismatch);
                }
                let event = MediaProgressEvent {
                    task_id: owned(task_id),
                    sequence: self.tasks[i].next_sequence,
                    progress,
                    stage: owned(stage),
                    detail,
                };
                let out = copy_event(&event);
                let ghost old_t = before[i as int];
                self.tasks[i].next_sequence = self.tasks[i].next_sequence + 1;
                self.tasks[i].latest_progress = progress;
                self.tasks[i].events.push(event);
                if self.tasks[i].events.len() > self.history_limit {
                    self.tasks[i].events.remove(0);
                }
                proof {
                    let ts = self.tasks();
                    let ev = self.tasks@[i as int].events@;
                    let pushed = old_t.events.push(out);
                    if pushed.len() > self.history_limit {
                        assert(ev =~= pushed.skip(pushed.len() - self.history_limit));
                    } else {
                        assert(ev =~= pushed);
                    }
                    assert(ev == bounded_push(old_t.events, out, self.history_limit as nat));
                    assert(ts =~= before.update(i as int, task_state(self.tasks@[i as int])));
                    assert forall|a: int, b: int|
                        0 <= a < ts.len() && 0 <= b < ts.len() && a != b implies #[trigger] ts[a].id
                        != #[trigger] ts[b].id by {
                        assert(ts[a].id == before[a].id && ts[b].id == before[b].id);
                    }
                    let nt = ts[i as int];
                    assert forall|x: int, y: int| 0 <= x < y < nt.events.len() implies (
                    #[trigger] nt.events[x]).progress <= (#[trigger] nt.events[y]).progress
                        && nt.events[x].sequence < nt.events[y].sequence by {
                        let off = pushed.len() - nt.events.len();
                        assert(nt.events[x] == pushed[x + off] && nt.events[y] == pushed[y + off]);
                        if y + off < old_t.events.len() {
                        } else {
                            assert(pushed[y + off] == out);
                        }
                    }
                    assert forall|x: int| 0 <= x < nt.events.len() implies (
                    #[trigger] nt.events[x]).progress <= nt.latest_progress && nt.events[x].sequence
                        < nt.next_sequence by {
                        let off = pushed.len() - nt.events.len();
                        assert(nt.events[x] == pushed[x + off]);
                    }
                    assert forall|q: int| 0 <= q < ts.len() implies events_monotonic(#[trigger] ts[q])
                        && ts[q].events.len() <= self.history_limit by {
                        if q != i {
                            assert(ts[q] == before[q]);
                        }
                    }
                }
                Ok(out)
            },
        }
    }

    /// The latest event and the kept history of `task_id`; empty for an unknown task.
    pub fn snapshot(&self, task_id: &str) -> (r: Result<ProgressSnapshot, ProgressError>)
        requires
            self.wf(),
        ensures
            r is Err <==> !plain_name(task_id@, 128),
            r matches Err(e) ==> e == ProgressError::InvalidTask,
            r matches Ok(s) ==> if task_ids(self.tasks()).contains(task_id@) {
                let t = self.tasks()[task_index(self.tasks(), task_id@)];
                s.history@ == t.events && s.latest == if t.events.len() > 0 {
                    Some(t.events.last())
                } else {
                    None
                }
            } else {
                s.history@.len() == 0 && s.latest is None
            },
    {
        if !is_plain_name(task_id, 128) {
            return Err(ProgressError::InvalidTask);
        }
        match self.find(task_id) {
            None => Ok(ProgressSnapshot { latest: None, history: Vec::new() }),
            Some(i) => {
                assert(self.tasks()[i as int] == task_state(self.tasks@[i as int]));
                let events = &self.tasks[i].events;
                let mut history: Vec<MediaProgressEvent> = Vec::new();
                let mut k: usize = 0;
                while k < events.len()
                    invariant
                        k <= events@.len(),
                        history@ == events@.take(k as int),
                    decreases events@.len() - k,
                {
                    history.push(copy_event(&events[k]));
                    k = k + 1;
                    assert(history@ =~= events@.take(k as int));
                }
                assert(events@.take(events@.len() as int) =~= events@);
                let latest = if events.len() > 0 {
                    Some(copy_event(&events[events.len() - 1]))
                } else {
                    None
                };
                Ok(ProgressSnapshot { latest, history })
            },
        }
    }

    /// Forgets `task_id`.
    pub fn remove(&mut self, task_id: &str) -> (r: Result<(), ProgressError>)
        requires
            old(self).wf(),
        ensures
            final(self).wf(),
            final(self).max_tasks() == old(self).max_tasks(),
            final(self).history_limit() == old(self).history_limit(),
            r is Ok <==> plain_name(task_id@, 128) && task_ids(old(self).tasks()).contains(task_id@),
            r matches Err(e) ==> e == ProgressError::InvalidTask,
            r is Ok ==> final(self).tasks() == old(self).tasks().remove(
                task_index(old(self).tasks(), task_id@),
            ),
            r is Err ==> final(self).tasks() == old(self).tasks(),
    {
        if !is_plain_name(task_id, 128) {
            return Err(ProgressError::InvalidTask);
        }
        match self.find(task_id) {
            None => Err(ProgressError::InvalidTask),
            Some(i) => {
                let ghost before = self.tasks();
                self.tasks.remove(i);
                proof {
                    let ts = self.tasks();
                    assert(ts =~= before.remove(i as int));
                    assert forall|a: int, b: int|
                        0 <= a < ts.len() && 0 <= b < ts.len() && a != b implies #[trigger] ts[a].id
                        != #[trigger] ts[b].id by {
                        let a2 = if a < i { a } else { a + 1 };
                        let b2 = if b < i { b } else { b + 1 };
                        assert(ts[a] == before[a2] && ts[b] == before[b2]);
                    }
                    assert forall|q: int| 0 <= q < ts.len() implies events_monotonic(#[trigger] ts[q])
                        && ts[q].events.len() <= self.history_limit by {
                        let q2 = if q < i { q } else { q + 1 };
                        assert(ts[q] == before[q2]);
                    }
                }
                Ok(())
            },
        }
    }

    /// Number of tasks tracked.
    pub fn len(&self) -> (n: usize)
        ensures
            n == self.tasks().len(),
    {
        self.tasks.len()
    }

    pub fn is_empty(&self) -> (r: bool)
        ensures
            r == (self.tasks().len() == 0),
    {
        self.tasks.len() == 0
    }
}

} // verus!
