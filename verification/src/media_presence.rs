//! Bounded collaboration presence for shared media-editor projects.
use vstd::prelude::*;
use crate::text::{is_plain_name, lemma_seq_lt_order, owned, plain_name, seq_lt, str_eq, str_lt};
use crate::time::{Duration, SystemTime};

verus! {

#[derive(Debug, Clone, Copy, PartialEq, Eq, Structural)]
pub enum PresenceRole {
    Viewer,
    Editor,
    Owner,
}

#[derive(Debug, Clone, Copy, PartialEq, Eq, Structural)]
pub enum PresenceError {
    InvalidId,
    InvalidRole,
    NotFound,
    Conflict,
    Capacity,
    Expired,
}

#[derive(Debug, Clone, PartialEq, Eq)]
pub struct Participant {
    pub user_id: String,
    pub role: PresenceRole,
    pub last_seen: SystemTime,
}

#[derive(Debug, Clone, PartialEq, Eq)]
pub struct PresenceSnapshot {
    pub project_id: String,
    pub scope: String,
    pub participants: Vec<Participant>,
}

/// The participants of one project, kept ordered by user id.
#[derive(Debug, Clone)]
struct Room {
    id: String,
    scope: String,
    participants: Vec<Participant>,
}

/// The mathematical value of a project's presence.
pub struct RoomState {
    pub id: Seq<char>,
    pub scope: Seq<char>,
    pub participants: Seq<Participant>,
}

impl View for PresenceSnapshot {
    type V = RoomState;

    open spec fn view(&self) -> RoomState {
        RoomState { id: self.project_id@, scope: self.scope@, participants: self.participants@ }
    }
}

/// Who is present in which project.
pub struct MediaPresenceStore {
    rooms: Vec<Room>,
    max_projects: usize,
    max_participants: usize,
    heartbeat_ttl: Duration,
}

spec fn room_state(r: Room) -> RoomState {
    RoomState { id: r.id@, scope: r.scope@, participants: r.participants@ }
}

pub open spec fn room_ids(rooms: Seq<RoomState>) -> Seq<Seq<char>> {
    rooms.map_values(|r: RoomState| r.id)
}

pub open spec fn room_index(rooms: Seq<RoomState>, id: Seq<char>) -> int {
    room_ids(rooms).index_of(id)
}

pub open spec fn user_ids(ps: Seq<Participant>) -> Seq<Seq<char>> {
    ps.map_values(|p: Participant| p.user_id@)
}

pub open spec fn user_index(ps: Seq<Participant>, user: Seq<char>) -> int {
    user_ids(ps).index_of(user)
}

/// Participants strictly ordered by user id.
pub open spec fn ordered_users(ps: Seq<Participant>) -> bool {
    forall|i: int, j: int|
        0 <= i < j < ps.len() ==> seq_lt(#[trigger] ps[i].user_id@, #[trigger] ps[j].user_id@)
}

/// Ids are unique, and every project has participants, ordered by user id.
pub open spec fn rooms_wf(rooms: Seq<RoomState>) -> bool {
    &&& forall|i: int, j: int|
        0 <= i < rooms.len() && 0 <= j < rooms.len() && i != j ==> #[trigger] rooms[i].id
            != #[trigger] rooms[j].id
    &&& forall|i: int| 0 <= i < rooms.len() ==> ordered_users(#[trigger] rooms[i].participants)
}

/// Time since `last_seen`, or zero when `last_seen` is later than `now`.
pub open spec fn elapsed(now: SystemTime, last_seen: SystemTime) -> nat {
    if now@ >= last_seen@ {
        (now@ - last_seen@) as nat
    } else {
        0
    }
}

pub open spec fn active(p: Participant, now: SystemTime, ttl: Duration) -> bool {
    elapsed(now, p.last_seen) <= ttl@
}

/// The participants still active at `now`.
pub open spec fn keep_active(ps: Seq<Participant>, now: SystemTime, ttl: Duration) -> Seq<
    Participant,
>
    decreases ps.len(),
{
    if ps.len() == 0 {
        ps
    } else if active(ps.last(), now, ttl) {
        keep_active(ps.drop_last(), now, ttl).push(ps.last())
    } else {
        keep_active(ps.drop_last(), now, ttl)
    }
}

/// The projects after dropping inactive participants and then empty projects.
pub open spec fn after_cleanup(rooms: Seq<RoomState>, now: SystemTime, ttl: Duration) -> Seq<
    RoomState,
>
    decreases rooms.len(),
{
    if rooms.len() == 0 {
        rooms
    } else {
        let r = rooms.last();
        let kept = keep_active(r.participants, now, ttl);
        let rest = after_cleanup(rooms.drop_last(), now, ttl);
        if kept.len() > 0 {
            rest.push(RoomState { participants: kept, ..r })
        } else {
            rest
        }
    }
}

/// Participants across all projects.
pub open spec fn head_count(rooms: Seq<RoomState>) -> nat
    decreases rooms.len(),
{
    if rooms.len() == 0 {
        0
    } else {
        head_count(rooms.drop_last()) + rooms.last().participants.len()
    }
}

/// The room `id` of `scope`, for updates that do not check ids.
pub open spec fn scoped_room(rooms: Seq<RoomState>, id: Seq<char>, scope: Seq<char>) -> Option<
    RoomState,
> {
    if room_ids(rooms).contains(id) && rooms[room_index(rooms, id)].scope == scope {
        Some(rooms[room_index(rooms, id)])
    } else {
        None
    }
}

fn copy_participants(v: &Vec<Participant>) -> (r: Vec<Participant>)
    ensures
        r@ == v@,
{
    let mut r: Vec<Participant> = Vec::new();
    let mut i: usize = 0;
    while i < v.len()
        invariant
            i <= v.len(),
            r@ == v@.take(i as int),
        decreases v.len() - i,
    {
        let p = &v[i];
        r.push(Participant { user_id: p.user_id.clone(), role: p.role, last_seen: p.last_seen });
        i = i + 1;
        assert(r@ =~= v@.take(i as int));
    }
    assert(v@.take(v.len() as int) =~= v@);
    r
}

fn room_snapshot(room: &Room) -> (s: PresenceSnapshot)
    ensures
        s@ == room_state(*room),
{
    PresenceSnapshot {
        project_id: room.id.clone(),
        scope: room.scope.clone(),
        participants: copy_participants(&room.participants),
    }
}

fn find_user(ps: &Vec<Participant>, user: &str) -> (r: Option<usize>)
    requires
        ordered_users(ps@),
    ensures
        r matches Some(i) ==> i < ps@.len() && ps@[i as int].user_id@ == user@ && user_ids(
            ps@,
        ).contains(user@) && user_index(ps@, user@) == i,
        r is None ==> !user_ids(ps@).contains(user@),
{
    let ghost ids = user_ids(ps@);
    let mut i: usize = 0;
    while i < ps.len()
        invariant
            ordered_users(ps@),
            ids == user_ids(ps@),
            i <= ps@.len(),
            forall|j: int| 0 <= j < i ==> ps@[j].user_id@ != user@,
        decreases ps@.len() - i,
    {
        if str_eq(ps[i].user_id.as_str(), user) {
            proof {
                assert(ids[i as int] == user@);
                let k = ids.index_of(user@);
                assert(ids[k] == ps@[k].user_id@);
                if k != i {
                    if k < i {
                        assert(seq_lt(ps@[k].user_id@, ps@[i as int].user_id@));
                    } else {
                        assert(seq_lt(ps@[i as int].user_id@, ps@[k].user_id@));
                    }
                    lemma_seq_lt_order(user@, user@, user@);
                }
            }
            return Some(i);
        }
        i = i + 1;
    }
    proof {
        if ids.contains(user@) {
            let k = ids.index_of(user@);
            assert(ids[k] == ps@[k].user_id@);
        }
    }
    None
}

/// Where a new user id goes among ordered participants.
fn insert_position(ps: &Vec<Participant>, user: &str) -> (p: usize)
    requires
        ordered_users(ps@),
        !user_ids(ps@).contains(user@),
    ensures
        p <= ps@.len(),
        forall|j: int| 0 <= j < p ==> seq_lt(#[trigger] ps@[j].user_id@, user@),
        forall|j: int| p <= j < ps@.len() ==> seq_lt(user@, #[trigger] ps@[j].user_id@),
{
    let mut p: usize = 0;
    while p < ps.len() && str_lt(ps[p].user_id.as_str(), user)
        invariant
            ordered_users(ps@),
            p <= ps@.len(),
            forall|j: int| 0 <= j < p ==> seq_lt(#[trigger] ps@[j].user_id@, user@),
        decreases ps@.len() - p,
    {
        p = p + 1;
    }
    proof {
        assert forall|j: int| p <= j < ps@.len() implies seq_lt(user@, #[trigger] ps@[j].user_id@) by {
            assert(user_ids(ps@)[p as int] == ps@[p as int].user_id@);
            lemma_seq_lt_order(user@, ps@[p as int].user_id@, ps@[j].user_id@);
            lemma_seq_lt_order(ps@[p as int].user_id@, user@, ps@[p as int].user_id@);
        }
    }
    p
}

proof fn lemma_ordered_insert(ps: Seq<Participant>, p: int, x: Participant)
    requires
        ordered_users(ps),
        0 <= p <= ps.len(),
        forall|j: int| 0 <= j < p ==> seq_lt(#[trigger] ps[j].user_id@, x.user_id@),
        forall|j: int| p <= j < ps.len() ==> seq_lt(x.user_id@, #[trigger] ps[j].user_id@),
    ensures
        ordered_users(ps.insert(p, x)),
{
    let r = ps.insert(p, x);
    assert forall|i: int, j: int| 0 <= i < j < r.len() implies seq_lt(
        #[trigger] r[i].user_id@,
        #[trigger] r[j].user_id@,
    ) by {
        if j < p {
        } else if j == p {
        } else if i < p {
            lemma_seq_lt_order(r[i].user_id@, x.user_id@, r[j].user_id@);
        } else if i == p {
        } else {
            assert(r[i] == ps[i - 1] && r[j] == ps[j - 1]);
        }
    }
}

proof fn lemma_ordered_remove(ps: Seq<Participant>, p: int)
    requires
        ordered_users(ps),
        0 <= p < ps.len(),
    ensures
        ordered_users(ps.remove(p)),
{
    let r = ps.remove(p);
    assert forall|i: int, j: int| 0 <= i < j < r.len() implies seq_lt(
        #[trigger] r[i].user_id@,
        #[trigger] r[j].user_id@,
    ) by {
        if j < p {
        } else if i < p {
            assert(r[j] == ps[j + 1]);
        } else {
            assert(r[i] == ps[i + 1] && r[j] == ps[j + 1]);
        }
    }
}

proof fn lemma_ordered_subseq(ps: Seq<Participant>, now: SystemTime, ttl: Duration)
    requires
        ordered_users(ps),
    ensures
        ordered_users(keep_active(ps, now, ttl)),
        forall|k: int|
            0 <= k < keep_active(ps, now, ttl).len() ==> ps.contains(
                #[trigger] keep_active(ps, now, ttl)[k],
            ),
    decreases ps.len(),
{
    if ps.len() > 0 {
        let t = ps.drop_last();
        assert forall|i: int, j: int| 0 <= i < j < t.len() implies seq_lt(
            #[trigger] t[i].user_id@,
            #[trigger] t[j].user_id@,
        ) by {
            assert(t[i] == ps[i] && t[j] == ps[j]);
        }
        lemma_ordered_subseq(t, now, ttl);
        let k = keep_active(t, now, ttl);
        assert forall|q: int| 0 <= q < k.len() implies ps.contains(#[trigger] k[q]) by {
            assert(t.contains(k[q]));
            let w = choose|w: int| 0 <= w < t.len() && t[w] == k[q];
            assert(ps[w] == k[q]);
        }
        if active(ps.last(), now, ttl) {
            let r = k.push(ps.last());
            assert forall|i: int, j: int| 0 <= i < j < r.len() implies seq_lt(
                #[trigger] r[i].user_id@,
                #[trigger] r[j].user_id@,
            ) by {
                if j == k.len() {
                    assert(ps.contains(k[i]));
                    let w = choose|w: int| 0 <= w < ps.len() && ps[w] == k[i];
                    assert(t.contains(k[i]));
                    let w2 = choose|w2: int| 0 <= w2 < t.len() && t[w2] == k[i];
                    assert(ps[w2] == k[i]);
                    assert(seq_lt(ps[w2].user_id@, ps[ps.len() - 1].user_id@));
                }
            }
            assert forall|q: int| 0 <= q < r.len() implies ps.contains(#[trigger] r[q]) by {
                if q == k.len() {
                    assert(ps[ps.len() - 1] == r[q]);
                } else {
                    assert(r[q] == k[q]);
                }
            }
        }
    }
}

proof fn lemma_keep_len(ps: Seq<Participant>, now: SystemTime, ttl: Duration)
    ensures
        keep_active(ps, now, ttl).len() <= ps.len(),
    decreases ps.len(),
{
    if ps.len() > 0 {
        lemma_keep_len(ps.drop_last(), now, ttl);
    }
}

proof fn lemma_head_prefix(rooms: Seq<RoomState>, i: int)
    requires
        0 <= i < rooms.len(),
    ensures
        head_count(rooms.take(i + 1)) <= head_count(rooms),
        head_count(rooms.take(i + 1)) == head_count(rooms.take(i)) + rooms[i].participants.len(),
    decreases rooms.len(),
{
    let t = rooms.take(i + 1);
    assert(t.drop_last() =~= rooms.take(i));
    if i + 1 < rooms.len() {
        lemma_head_prefix(rooms.drop_last(), i);
        assert(rooms.drop_last().take(i + 1) =~= rooms.take(i + 1));
    } else {
        assert(t =~= rooms);
    }
}

impl MediaPresenceStore {
    pub closed spec fn rooms(&self) -> Seq<RoomState> {
        self.rooms@.map_values(|r: Room| room_state(r))
    }

    pub closed spec fn max_projects(&self) -> nat {
        self.max_projects as nat
    }

    pub closed spec fn max_participants(&self) -> nat {
        self.max_participants as nat
    }

    pub closed spec fn ttl(&self) -> Duration {
        self.heartbeat_ttl
    }

    pub closed spec fn wf(&self) -> bool {
        &&& self.max_projects >= 1
        &&& self.max_participants >= 1
        &&& rooms_wf(self.rooms())
        &&& forall|i: int| 0 <= i < self.rooms@.len() ==> (#[trigger] self.rooms@[i]).participants@.len() > 0
    }

    /// An empty store for up to `max_projects` projects of up to `max_participants`
    /// participants (at least one each), who expire `heartbeat_ttl` after their last beat.
    pub fn new(max_projects: usize, max_participants: usize, heartbeat_ttl: Duration) -> (s:
        MediaPresenceStore)
        ensures
            s.wf(),
            s.rooms().len() == 0,
            s.max_projects() == if max_projects < 1 {
                1
            } else {
                max_projects as nat
            },
            s.max_participants() == if max_participants < 1 {
                1
            } else {
                max_participants as nat
            },
            s.ttl() == heartbeat_ttl,
    {
        let s = MediaPresenceStore {
            rooms: Vec::new(),
            max_projects: if max_projects < 1 {
                1
            } else {
                max_projects
            },
            max_participants: if max_participants < 1 {
                1
            } else {
                max_participants
            },
            heartbeat_ttl,
        };
        assert(s.rooms() =~= Seq::<RoomState>::empty());
        s
    }

    fn find(&self, id: &str) -> (r: Option<usize>)
        requires
            self.wf(),
        ensures
            r matches Some(i) ==> i < self.rooms().len() && self.rooms()[i as int].id == id@
                && room_ids(self.rooms()).contains(id@) && room_index(self.rooms(), id@) == i,
            r is None ==> !room_ids(self.rooms()).contains(id@),
    {
        let ghost ids = room_ids(self.rooms());
        let mut i: usize = 0;
        while i < self.rooms.len()
            invariant
                self.wf(),
                ids == room_ids(self.rooms()),
                i <= self.rooms@.len(),
                forall|j: int| 0 <= j < i ==> self.rooms@[j].id@ != id@,
            decreases self.rooms@.len() - i,
        {
            if str_eq(self.rooms[i].id.as_str(), id) {
                proof {
                    assert(ids[i as int] == id@);
                    let k = ids.index_of(id@);
                    assert(ids[k] == self.rooms()[k].id);
                }
                return Some(i);
            }
            i = i + 1;
        }
        proof {
            if ids.contains(id@) {
                let k = ids.index_of(id@);
                assert(ids[k] == self.rooms()[k].id);
            }
        }
        None
    }

    /// Adds `user_id` to project `project_id` of `scope`, opening the project if needed.
    pub fn join(
        &mut self,
        project_id: &str,
        scope: &str,
        user_id: &str,
        role: PresenceRole,
        now: SystemTime,
    ) -> (r: Result<PresenceSnapshot, PresenceError>)
        requires
            old(self).wf(),
        ensures
            final(self).wf(),
            final(self).max_projects() == old(self).max_projects(),
            final(self).max_participants() == old(self).max_participants(),
            final(self).ttl() == old(self).ttl(),
            !plain_name(project_id@, 128) || !plain_name(scope@, 128) || !plain_name(user_id@, 128)
                ==> r == Err::<PresenceSnapshot, _>(PresenceError::InvalidId),
            plain_name(project_id@, 128) && plain_name(scope@, 128) && plain_name(user_id@, 128)
                ==> ({
                let rooms = old(self).rooms();
                if !room_ids(rooms).contains(project_id@) {
                    if rooms.len() >= old(self).max_projects() {
                        r == Err::<PresenceSnapshot, _>(PresenceError::Capacity)
                    } else {
                        r matches Ok(s) && s@ == (RoomState {
                            id: project_id@,
                            scope: scope@,
                            participants: seq![s.participants@[0]],
                        }) && s.participants@[0].user_id@ == user_id@ && s.participants@[0].role
                            == role && s.participants@[0].last_seen == now && final(self).rooms()
                            == rooms.push(s@)
                    }
                } else {
                    let room = rooms[room_index(rooms, project_id@)];
                    if room.scope != scope@ {
                        r == Err::<PresenceSnapshot, _>(PresenceError::NotFound)
                    } else if user_ids(room.participants).contains(user_id@) {
                        r == Err::<PresenceSnapshot, _>(PresenceError::Conflict)
                    } else if room.participants.len() >= old(self).max_participants() {
                        r == Err::<PresenceSnapshot, _>(PresenceError::Capacity)
                    } else {
                        r matches Ok(s) && s@.id == room.id && s@.scope == room.scope && exists|
                            k: int,
                            np: Participant,
                        |
                            0 <= k <= room.participants.len() && np.user_id@ == user_id@ && np.role
                                == role && np.last_seen == now && s@.participants
                                == room.participants.insert(k, np) && final(self).rooms()
                                == rooms.update(room_index(rooms, project_id@), s@)
                    }
                }
            }),
            r is Err ==> final(self).rooms() == old(self).rooms(),
    {
        if !is_plain_name(project_id, 128) || !is_plain_name(scope, 128) || !is_plain_name(
            user_id,
            128,
        ) {
            return Err(PresenceError::InvalidId);
        }
        let np = Participant { user_id: owned(user_id), role, last_seen: now };
        match self.find(project_id) {
            None => {
                if self.rooms.len() >= self.max_projects {
                    return Err(PresenceError::Capacity);
                }
                let mut participants: Vec<Participant> = Vec::new();
                participants.push(np);
                let room = Room { id: owned(project_id), scope: owned(scope), participants };
                let snap = room_snapshot(&room);
                let ghost before = self.rooms();
                self.rooms.push(room);
                proof {
                    let rs = self.rooms();
                    assert(rs =~= before.push(room_state(room)));
                    assert forall|a: int, b: int|
                        0 <= a < rs.len() && 0 <= b < rs.len() && a != b implies #[trigger] rs[a].id
                        != #[trigger] rs[b].id by {
                        if a == before.len() {
                            assert(room_ids(before)[b] == before[b].id);
                        } else if b == before.len() {
                            assert(room_ids(before)[a] == before[a].id);
                        }
                    }
                    assert forall|i: int| 0 <= i < rs.len() implies ordered_users(
                        #[trigger] rs[i].participants,
                    ) by {
                        if i < before.len() {
                            assert(rs[i] == before[i]);
                        }
                    }
                    assert forall|i: int|
                        0 <= i < self.rooms@.len() implies (#[trigger] self.rooms@[i]).participants@.len()
                        > 0 by {
                        if i < before.len() {
                            assert(self.rooms@[i] == old(self).rooms@[i]);
                        }
                    }
                    assert(snap@.participants =~= seq![snap.participants@[0]]);
                }
                Ok(snap)
            },
            Some(i) => {
                assert(self.rooms()[i as int] == room_state(self.rooms@[i as int]));
                if !str_eq(self.rooms[i].scope.as_str(), scope) {
                    return Err(PresenceError::NotFound);
                }
                assert(ordered_users(self.rooms()[i as int].participants));
        assert(ordered_users(self.rooms@[i as int].participants@));
                if find_user(&self.rooms[i].participants, user_id).is_some() {
                    return Err(PresenceError::Conflict);
                }
                if self.rooms[i].participants.len() >= self.max_participants {
                    return Err(PresenceError::Capacity);
                }
                let p = insert_position(&self.rooms[i].participants, user_id);
                let ghost before = self.rooms();
                let ghost old_ps = self.rooms@[i as int].participants@;
                proof {
                    lemma_ordered_insert(old_ps, p as int, np);
                }
                self.rooms[i].participants.insert(p, np);
                proof {
                    let rs = self.rooms();
                    assert(self.rooms@[i as int].participants@ == old_ps.insert(p as int, np));
                    assert(rs =~= before.update(i as int, room_state(self.rooms@[i as int])));
                    assert forall|a: int, b: int|
                        0 <= a < rs.len() && 0 <= b < rs.len() && a != b implies #[trigger] rs[a].id
                        != #[trigger] rs[b].id by {
                        assert(rs[a].id == before[a].id && rs[b].id == before[b].id);
                    }
                    assert forall|k: int| 0 <= k < rs.len() implies ordered_users(
                        #[trigger] rs[k].participants,
                    ) by {
                        if k != i {
                            assert(rs[k] == before[k]);
                        }
                    }
                    assert forall|k: int|
                        0 <= k < self.rooms@.len() implies (#[trigger] self.rooms@[k]).participants@.len()
                        > 0 by {
                        if k != i {
                            assert(self.rooms@[k] == old(self).rooms@[k]);
                        }
                    }
                }
                let snap = room_snapshot(&self.rooms[i]);
                Ok(snap)
            },
        }
    }

    /// Records a heartbeat of `user_id` in project `project_id` of `scope`, unless the
    /// participant has been silent for longer than the time-to-live.
    pub fn heartbeat(&mut self, project_id: &str, scope: &str, user_id: &str, now: SystemTime) -> (r:
        Result<PresenceSnapshot, PresenceError>)
        requires
            old(self).wf(),
        ensures
            final(self).wf(),
            final(self).max_projects() == old(self).max_projects(),
            final(self).max_participants() == old(self).max_participants(),
            final(self).ttl() == old(self).ttl(),
            match scoped_room(old(self).rooms(), project_id@, scope@) {
                None => r == Err::<PresenceSnapshot, _>(PresenceError::NotFound),
                Some(room) => if !user_ids(room.participants).contains(user_id@) {
                    r == Err::<PresenceSnapshot, _>(PresenceError::NotFound)
                } else {
                    let k = user_index(room.participants, user_id@);
                    let p = room.participants[k];
                    if elapsed(now, p.last_seen) > old(self).ttl()@ {
                        r == Err::<PresenceSnapshot, _>(PresenceError::Expired)
                    } else {
                        let s = RoomState {
                            participants: room.participants.update(
                                k,
                                Participant { last_seen: now, ..p },
                            ),
                            ..room
                        };
                        (r matches Ok(snap) && snap@ == s) && final(self).rooms() == old(
                            self).rooms().update(room_index(old(self).rooms(), project_id@), s)
                    }
                },
            },
            r is Err ==> final(self).rooms() == old(self).rooms(),
    {
        let i = match self.find(project_id) {
            None => {
                return Err(PresenceError::NotFound);
            },
            Some(i) => i,
        };
        assert(self.rooms()[i as int] == room_state(self.rooms@[i as int]));
        if !str_eq(self.rooms[i].scope.as_str(), scope) {
            return Err(PresenceError::NotFound);
        }
        assert(ordered_users(self.rooms()[i as int].participants));
        assert(ordered_users(self.rooms@[i as int].participants@));
        let k = match find_user(&self.rooms[i].participants, user_id) {
            None => {
                return Err(PresenceError::NotFound);
            },
            Some(k) => k,
        };
        let last = self.rooms[i].participants[k].last_seen;
        let gap = match now.duration_since(&last) {
            Some(d) => d,
            None => Duration::zero(),
        };
        if self.heartbeat_ttl.shorter_than(&gap) {
            return Err(PresenceError::Expired);
        }
        let ghost before = self.rooms();
        let ghost old_ps = self.rooms@[i as int].participants@;
        self.rooms[i].participants[k].last_seen = now;
        proof {
            let rs = self.rooms();
            let newp = Participant { last_seen: now, ..old_ps[k as int] };
            assert(self.rooms@[i as int].participants@ =~= old_ps.update(k as int, newp));
            assert(rs =~= before.update(i as int, room_state(self.rooms@[i as int])));
            assert forall|a: int, b: int|
                0 <= a < rs.len() && 0 <= b < rs.len() && a != b implies #[trigger] rs[a].id
                != #[trigger] rs[b].id by {
                assert(rs[a].id == before[a].id && rs[b].id == before[b].id);
            }
            let nps = self.rooms@[i as int].participants@;
            assert forall|x: int, y: int| 0 <= x < y < nps.len() implies seq_lt(
                #[trigger] nps[x].user_id@,
                #[trigger] nps[y].user_id@,
            ) by {
                assert(nps[x].user_id == old_ps[x].user_id && nps[y].user_id == old_ps[y].user_id);
            }
            assert forall|q: int| 0 <= q < rs.len() implies ordered_users(
                #[trigger] rs[q].participants,
            ) by {
                if q != i {
                    assert(rs[q] == before[q]);
                }
            }
            assert forall|q: int|
                0 <= q < self.rooms@.len() implies (#[trigger] self.rooms@[q]).participants@.len()
                > 0 by {
                if q != i {
                    assert(self.rooms@[q] == old(self).rooms@[q]);
                }
            }
        }
        Ok(room_snapshot(&self.rooms[i]))
    }

    /// Removes `user_id` from project `project_id` of `scope`; a project left empty closes.
    /// The answer shows the project as the user left it.
    pub fn leave(&mut self, project_id: &str, scope: &str, user_id: &str) -> (r: Result<
        PresenceSnapshot,
        PresenceError,
    >)
        requires
            old(self).wf(),
        ensures
            final(self).wf(),
            final(self).max_projects() == old(self).max_projects(),
            final(self).max_participants() == old(self).max_participants(),
            final(self).ttl() == old(self).ttl(),
            match scoped_room(old(self).rooms(), project_id@, scope@) {
                None => r == Err::<PresenceSnapshot, _>(PresenceError::NotFound),
                Some(room) => if !user_ids(room.participants).contains(user_id@) {
                    r == Err::<PresenceSnapshot, _>(PresenceError::NotFound)
                } else {
                    let s = RoomState {
                        participants: room.participants.remove(
                            user_index(room.participants, user_id@),
                        ),
                        ..room
                    };
                    (r matches Ok(snap) && snap@ == s) && final(self).rooms() == if s.participants.len()
                        == 0 {
                        old(self).rooms().remove(room_index(old(self).rooms(), project_id@))
                    } else {
                        old(self).rooms().update(room_index(old(self).rooms(), project_id@), s)
                    }
                },
            },
            r is Err ==> final(self).rooms() == old(self).rooms(),
    {
        let i = match self.find(project_id) {
            None => {
                return Err(PresenceError::NotFound);
            },
            Some(i) => i,
        };
        assert(self.rooms()[i as int] == room_state(self.rooms@[i as int]));
        if !str_eq(self.rooms[i].scope.as_str(), scope) {
            return Err(PresenceError::NotFound);
        }
        assert(ordered_users(self.rooms()[i as int].participants));
        assert(ordered_users(self.rooms@[i as int].participants@));
        let k = match find_user(&self.rooms[i].participants, user_id) {
            None => {
                return Err(PresenceError::NotFound);
            },
            Some(k) => k,
        };
        let ghost before = self.rooms();
        let ghost old_ps = self.rooms@[i as int].participants@;
        proof {
            lemma_ordered_remove(old_ps, k as int);
        }
        self.rooms[i].participants.remove(k);
        let snap = room_snapshot(&self.rooms[i]);
        proof {
            assert(self.rooms@[i as int].participants@ == old_ps.remove(k as int));
        }
        if self.rooms[i].participants.len() == 0 {
            let ghost mid = self.rooms@;
            self.rooms.remove(i);
            proof {
                let rs = self.rooms();
                assert(rs =~= before.remove(i as int));
                assert forall|a: int, b: int|
                    0 <= a < rs.len() && 0 <= b < rs.len() && a != b implies #[trigger] rs[a].id
                    != #[trigger] rs[b].id by {
                    let a2 = if a < i { a } else { a + 1 };
                    let b2 = if b < i { b } else { b + 1 };
                    assert(rs[a] == before[a2] && rs[b] == before[b2]);
                }
                assert forall|q: int| 0 <= q < rs.len() implies ordered_users(
                    #[trigger] rs[q].participants,
                ) by {
                    let q2 = if q < i { q } else { q + 1 };
                    assert(rs[q] == before[q2]);
                }
                assert forall|q: int|
                    0 <= q < self.rooms@.len() implies (#[trigger] self.rooms@[q]).participants@.len()
                    > 0 by {
                    let q2 = if q < i { q } else { q + 1 };
                    assert(self.rooms@[q] == mid[q2]);
                    assert(mid[q2] == old(self).rooms@[q2]);
                }
            }
        } else {
            proof {
                let rs = self.rooms();
                assert(rs =~= before.update(i as int, room_state(self.rooms@[i as int])));
                assert forall|a: int, b: int|
                    0 <= a < rs.len() && 0 <= b < rs.len() && a != b implies #[trigger] rs[a].id
                    != #[trigger] rs[b].id by {
                    assert(rs[a].id == before[a].id && rs[b].id == before[b].id);
                }
                assert forall|q: int| 0 <= q < rs.len() implies ordered_users(
                    #[trigger] rs[q].participants,
                ) by {
                    if q != i {
                        assert(rs[q] == before[q]);
                    }
                }
                assert forall|q: int|
                    0 <= q < self.rooms@.len() implies (#[trigger] self.rooms@[q]).participants@.len()
                    > 0 by {
                    if q != i {
                        assert(self.rooms@[q] == old(self).rooms@[q]);
                    }
                }
            }
        }
        Ok(snap)
    }

    /// Drops every participant silent for longer than the time-to-live, then every empty
    /// project; answers how many participants were dropped.
    pub fn cleanup_expired(&mut self, now: SystemTime) -> (removed: usize)
        requires
            old(self).wf(),
            head_count(old(self).rooms()) <= usize::MAX,
        ensures
            final(self).wf(),
            final(self).max_projects() == old(self).max_projects(),
            final(self).max_participants() == old(self).max_participants(),
            final(self).ttl() == old(self).ttl(),
            final(self).rooms() == after_cleanup(old(self).rooms(), now, old(self).ttl()),
            removed == head_count(old(self).rooms()) - head_count(final(self).rooms()),
    {
        let ttl = self.heartbeat_ttl;
        let ghost orig = self.rooms();
        let mut kept_rooms: Vec<Room> = Vec::new();
        let mut removed: usize = 0;
        let mut i: usize = 0;
        let n = self.rooms.len();
        while i < n
            invariant
                n == self.rooms@.len(),
                i <= n,
                self.wf(),
                orig == self.rooms(),
                ttl == self.heartbeat_ttl,
                head_count(orig) <= usize::MAX,
                kept_rooms@.map_values(|r: Room| room_state(r)) == after_cleanup(
                    orig.take(i as int),
                    now,
                    ttl,
                ),
                forall|q: int| 0 <= q < kept_rooms@.len() ==> (#[trigger] kept_rooms@[q]).participants@.len() > 0,
                forall|q: int|
                    0 <= q < kept_rooms@.len() ==> exists|w: int|
                        0 <= w < i && (#[trigger] kept_rooms@[q]).id@ == orig[w].id,
                rooms_wf(kept_rooms@.map_values(|r: Room| room_state(r))),
                head_count(after_cleanup(orig.take(i as int), now, ttl)) <= head_count(
                    orig.take(i as int),
                ),
                head_count(orig.take(i as int)) <= head_count(orig),
                removed == head_count(orig.take(i as int)) - head_count(
                    after_cleanup(orig.take(i as int), now, ttl),
                ),
            decreases n - i,
        {
            let room = &self.rooms[i];
            let ghost rs = orig[i as int];
            assert(rs == room_state(*room));
            let mut kept: Vec<Participant> = Vec::new();
            let mut dropped: usize = 0;
            let mut j: usize = 0;
            while j < room.participants.len()
                invariant
                    j <= room.participants@.len(),
                    kept@ == keep_active(room.participants@.take(j as int), now, ttl),
                    kept@.len() + dropped == j,
                decreases room.participants@.len() - j,
            {
                let p = &room.participants[j];
                let gap = match now.duration_since(&p.last_seen) {
                    Some(d) => d,
                    None => Duration::zero(),
                };
                proof {
                    let t = room.participants@.take(j + 1);
                    assert(t.drop_last() =~= room.participants@.take(j as int));
                    assert(t.last() == room.participants@[j as int]);
                }
                if !ttl.shorter_than(&gap) {
                    kept.push(
                        Participant { user_id: p.user_id.clone(), role: p.role, last_seen: p.last_seen },
                    );
                } else {
                    dropped = dropped + 1;
                }
                j = j + 1;
            }
            assert(room.participants@.take(room.participants@.len() as int) =~= room.participants@);
            let ghost before_kept = kept_rooms@.map_values(|r: Room| room_state(r));
            proof {
                let t = orig.take(i + 1);
                assert(t.drop_last() =~= orig.take(i as int));
                assert(t.last() == rs);
                lemma_keep_len(rs.participants, now, ttl);
                lemma_head_prefix(orig, i as int);
            }
            if kept.len() > 0 {
                let nr = Room { id: room.id.clone(), scope: room.scope.clone(), participants: kept };
                kept_rooms.push(nr);
                proof {
                    let ks = kept_rooms@.map_values(|r: Room| room_state(r));
                    assert(ks =~= before_kept.push(room_state(nr)));
                    lemma_ordered_subseq(rs.participants, now, ttl);
                    assert forall|a: int, b: int|
                        0 <= a < ks.len() && 0 <= b < ks.len() && a != b implies #[trigger] ks[a].id
                        != #[trigger] ks[b].id by {
                        assert(ks[a] == room_state(kept_rooms@[a]));
                        assert(ks[b] == room_state(kept_rooms@[b]));
                        if a == before_kept.len() {
                            let w = choose|w: int| 0 <= w < i && kept_rooms@[b].id@ == orig[w].id;
                            assert(orig[w].id != orig[i as int].id);
                        } else if b == before_kept.len() {
                            let w = choose|w: int| 0 <= w < i && kept_rooms@[a].id@ == orig[w].id;
                            assert(orig[w].id != orig[i as int].id);
                        } else {
                            assert(ks[a] == before_kept[a] && ks[b] == before_kept[b]);
                        }
                    }
                    assert forall|q: int| 0 <= q < ks.len() implies ordered_users(
                        #[trigger] ks[q].participants,
                    ) by {
                        if q < before_kept.len() {
                            assert(ks[q] == before_kept[q]);
                        }
                    }
                    assert forall|q: int|
                        0 <= q < kept_rooms@.len() implies exists|w: int|
                            0 <= w < i + 1 && (#[trigger] kept_rooms@[q]).id@ == orig[w].id by {
                        if q == before_kept.len() {
                            assert(kept_rooms@[q].id@ == orig[i as int].id);
                        } else {
                            let w = choose|w: int| 0 <= w < i && kept_rooms@[q].id@ == orig[w].id;
                        }
                    }
                }
            } else {
                proof {
                    assert forall|q: int|
                        0 <= q < kept_rooms@.len() implies exists|w: int|
                            0 <= w < i + 1 && (#[trigger] kept_rooms@[q]).id@ == orig[w].id by {
                        let w = choose|w: int| 0 <= w < i && kept_rooms@[q].id@ == orig[w].id;
                    }
                }
            }
            proof {
                let t = orig.take(i + 1);
                let k = keep_active(rs.participants, now, ttl);
                assert(after_cleanup(t, now, ttl) == if k.len() > 0 {
                    after_cleanup(orig.take(i as int), now, ttl).push(RoomState { participants: k, ..rs })
                } else {
                    after_cleanup(orig.take(i as int), now, ttl)
                });
                if k.len() > 0 {
                    let a = after_cleanup(orig.take(i as int), now, ttl);
                    let b = a.push(RoomState { participants: k, ..rs });
                    assert(b.drop_last() =~= a);
                    assert(head_count(b) == head_count(a) + k.len());
                }
                assert(kept@ == k);
            }
            removed = removed + dropped;
            i = i + 1;
        }
        assert(orig.take(n as int) =~= orig);
        self.rooms = kept_rooms;
        removed
    }

    /// The participants of project `project_id` of `scope`, ordered by user id.
    pub fn snapshot(&self, project_id: &str, scope: &str) -> (r: Result<PresenceSnapshot, PresenceError>)
        requires
            self.wf(),
        ensures
            match scoped_room(self.rooms(), project_id@, scope@) {
                None => r == Err::<PresenceSnapshot, _>(PresenceError::NotFound),
                Some(room) => r matches Ok(s) && s@ == room,
            },
    {
        let i = match self.find(project_id) {
            None => {
                return Err(PresenceError::NotFound);
            },
            Some(i) => i,
        };
        assert(self.rooms()[i as int] == room_state(self.rooms@[i as int]));
        if !str_eq(self.rooms[i].scope.as_str(), scope) {
            return Err(PresenceError::NotFound);
        }
        Ok(room_snapshot(&self.rooms[i]))
    }
}

} // verus!
