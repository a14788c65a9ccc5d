//! Resumable media uploads: sessions that take chunks strictly in order, each with its
//! checksum, and assemble them once all have arrived.
use vstd::prelude::*;
use crate::crypto::{checksum_text, sha256_checksum};
use crate::media_processing::{MediaPath, media_path_check};
use crate::text::str_eq;
use crate::time::{Duration, SystemTime, MAX_NANOS, secs_nanos};

verus! {

#[derive(Debug, Clone, Copy, PartialEq, Eq, Structural)]
pub enum UploadSessionError {
    UnsafePath,
    InvalidChunkCount,
    InvalidChunk,
    OutOfOrder,
    DuplicateChunk,
    ChecksumMismatch,
    Expired,
    MissingSession,
    Capacity,
    AlreadyCompleted,
    Incomplete,
}

#[derive(Debug, Clone, PartialEq, Eq)]
pub struct CompletedUpload {
    pub path: MediaPath,
    pub bytes: Vec<u8>,
    pub checksum_sha256: String,
}

#[derive(Debug, Clone)]
struct Session {
    id: String,
    path: MediaPath,
    total_chunks: u32,
    chunks: Vec<Vec<u8>>,
    expires_at: SystemTime,
    completed: bool,
}

/// The mathematical value of a session; the next chunk expected is the number received.
pub struct SessionView {
    pub id: Seq<char>,
    pub path: Seq<char>,
    pub total_chunks: u32,
    pub chunks: Seq<Seq<u8>>,
    pub expires_at: nat,
    pub completed: bool,
}

pub open spec fn chunk_views(v: Seq<Vec<u8>>) -> Seq<Seq<u8>> {
    v.map_values(|c: Vec<u8>| c@)
}

spec fn session_view(s: Session) -> SessionView {
    SessionView {
        id: s.id@,
        path: s.path@,
        total_chunks: s.total_chunks,
        chunks: chunk_views(s.chunks@),
        expires_at: s.expires_at@,
        completed: s.completed,
    }
}

/// The chunks one after another.
pub open spec fn flatten(cs: Seq<Seq<u8>>) -> Seq<u8>
    decreases cs.len(),
{
    if cs.len() == 0 {
        Seq::empty()
    } else {
        flatten(cs.drop_last()) + cs.last()
    }
}

pub open spec fn session_ids(ss: Seq<SessionView>) -> Seq<Seq<char>> {
    ss.map_values(|s: SessionView| s.id)
}

/// The session `id`, if there is one.
pub open spec fn session_of(ss: Seq<SessionView>, id: Seq<char>) -> Option<SessionView> {
    if session_ids(ss).contains(id) {
        Some(ss[session_ids(ss).index_of(id)])
    } else {
        None
    }
}

pub open spec fn sessions_wf(ss: Seq<SessionView>) -> bool {
    &&& forall|i: int, j: int|
        0 <= i < ss.len() && 0 <= j < ss.len() && i != j ==> #[trigger] ss[i].id != #[trigger] ss[j].id
    &&& forall|i: int| 0 <= i < ss.len() ==> (#[trigger] ss[i]).chunks.len() <= ss[i].total_chunks
}

pub const MAX_ID_BYTES: usize = 128;

pub const MAX_TTL_SECS: u64 = 86_400;

/// Why `start` refuses a session, if it does.
pub open spec fn start_refusal(
    ss: Seq<SessionView>,
    max_sessions: nat,
    id: Seq<char>,
    path: Seq<char>,
    total_chunks: u32,
    ttl: nat,
) -> Option<UploadSessionError> {
    if media_path_check(path) is Err {
        Some(UploadSessionError::UnsafePath)
    } else if id.len() == 0 || crate::text::byte_len(id) > MAX_ID_BYTES || total_chunks == 0 || ttl == 0
        || ttl > secs_nanos(MAX_TTL_SECS as nat) {
        Some(UploadSessionError::InvalidChunkCount)
    } else if ss.len() >= max_sessions || session_of(ss, id) is Some {
        Some(UploadSessionError::Capacity)
    } else {
        None
    }
}

/// Why `accept` refuses a chunk of session `s`, if it does.
pub open spec fn accept_refusal(
    s: SessionView,
    max_chunk: nat,
    index: u32,
    data: Seq<u8>,
    checksum: Seq<char>,
    now: nat,
) -> Option<UploadSessionError> {
    if now >= s.expires_at {
        Some(UploadSessionError::Expired)
    } else if s.completed {
        Some(UploadSessionError::AlreadyCompleted)
    } else if index >= s.total_chunks || data.len() == 0 || data.len() > max_chunk {
        Some(UploadSessionError::InvalidChunk)
    } else if index != s.chunks.len() {
        Some(UploadSessionError::OutOfOrder)
    } else if checksum_text(data) != checksum {
        Some(UploadSessionError::ChecksumMismatch)
    } else {
        None
    }
}

/// Why `complete` refuses session `s`, if it does.
pub open spec fn complete_refusal(s: SessionView, now: nat) -> Option<UploadSessionError> {
    if now >= s.expires_at {
        Some(UploadSessionError::Expired)
    } else if s.completed {
        Some(UploadSessionError::AlreadyCompleted)
    } else if s.chunks.len() != s.total_chunks {
        Some(UploadSessionError::Incomplete)
    } else {
        None
    }
}

proof fn lemma_session_at(ss: Seq<SessionView>, i: int)
    requires
        sessions_wf(ss),
        0 <= i < ss.len(),
    ensures
        session_of(ss, ss[i].id) == Some(ss[i]),
        session_ids(ss).index_of(ss[i].id) == i,
{
    let ids = session_ids(ss);
    assert(ids[i] == ss[i].id);
    let k = ids.index_of(ss[i].id);
    assert(ids[k] == ss[k].id);
}

proof fn lemma_session_absent(ss: Seq<SessionView>, id: Seq<char>)
    requires
        forall|i: int| 0 <= i < ss.len() ==> (#[trigger] ss[i]).id != id,
    ensures
        session_of(ss, id) is None,
{
    let ids = session_ids(ss);
    if ids.contains(id) {
        let k = ids.index_of(id);
        assert(ids[k] == ss[k].id);
    }
}

fn copy_bytes(v: &Vec<u8>) -> (r: Vec<u8>)
    ensures
        r@ == v@,
{
    let mut r: Vec<u8> = Vec::new();
    let mut i: usize = 0;
    while i < v.len()
        invariant
            i <= v@.len(),
            r@ == v@.take(i as int),
        decreases v@.len() - i,
    {
        r.push(v[i]);
        i = i + 1;
        assert(r@ =~= v@.take(i as int));
    }
    assert(v@.take(v@.len() as int) =~= v@);
    r
}

fn copy_chunks(v: &Vec<Vec<u8>>) -> (r: Vec<Vec<u8>>)
    ensures
        chunk_views(r@) == chunk_views(v@),
{
    let mut r: Vec<Vec<u8>> = Vec::new();
    let mut i: usize = 0;
    while i < v.len()
        invariant
            i <= v@.len(),
            r@.len() == i,
            forall|j: int| 0 <= j < i ==> (#[trigger] r@[j])@ == v@[j]@,
        decreases v@.len() - i,
    {
        r.push(copy_bytes(&v[i]));
        i = i + 1;
    }
    assert(chunk_views(r@) =~= chunk_views(v@));
    r
}

/// Upload sessions by id, up to `max_sessions` of them, with chunks of up to
/// `max_chunk_bytes` bytes.
#[derive(Debug)]
pub struct ResumableUploadStore {
    sessions: Vec<Session>,
    max_sessions: usize,
    max_chunk_bytes: usize,
}

impl ResumableUploadStore {
    pub closed spec fn sessions(&self) -> Seq<SessionView> {
        self.sessions@.map_values(|s: Session| session_view(s))
    }

    pub closed spec fn max_sessions(&self) -> nat {
        self.max_sessions as nat
    }

    pub closed spec fn max_chunk_bytes(&self) -> nat {
        self.max_chunk_bytes as nat
    }

    pub closed spec fn wf(&self) -> bool {
        sessions_wf(self.sessions())
    }

    /// An empty store; both bounds are raised to at least one.
    pub fn new(max_sessions: usize, max_chunk_bytes: usize) -> (s: Self)
        ensures
            s.wf(),
            s.sessions() == Seq::<SessionView>::empty(),
            s.max_sessions() == if max_sessions >= 1 { max_sessions as nat } else { 1 },
            s.max_chunk_bytes() == if max_chunk_bytes >= 1 { max_chunk_bytes as nat } else { 1 },
    {
        let s = ResumableUploadStore {
            sessions: Vec::new(),
            max_sessions: if max_sessions >= 1 { max_sessions } else { 1 },
            max_chunk_bytes: if max_chunk_bytes >= 1 { max_chunk_bytes } else { 1 },
        };
        assert(s.sessions() =~= Seq::<SessionView>::empty());
        s
    }

    fn find(&self, id: &str) -> (r: Option<usize>)
        requires
            self.wf(),
        ensures
            r matches Some(i) ==> i < self.sessions().len() && self.sessions()[i as int].id == id@
                && session_of(self.sessions(), id@) == Some(self.sessions()[i as int])
                && session_ids(self.sessions()).index_of(id@) == i,
            r is None ==> session_of(self.sessions(), id@) is None,
    {
        let mut i: usize = 0;
        while i < self.sessions.len()
            invariant
                self.wf(),
                i <= self.sessions@.len(),
                forall|j: int| 0 <= j < i ==> (#[trigger] self.sessions()[j]).id != id@,
            decreases self.sessions@.len() - i,
        {
            if str_eq(self.sessions[i].id.as_str(), id) {
                proof {
                    lemma_session_at(self.sessions(), i as int);
                }
                return Some(i);
            }
            i = i + 1;
        }
        proof {
            lemma_session_absent(self.sessions(), id@);
        }
        None
    }

    /// Opens session `id` for `total_chunks` chunks written to `path`, expiring `ttl` (at
    /// most a day) after `now`.
    pub fn start(&mut self, id: &str, path: &str, total_chunks: u32, now: SystemTime, ttl: Duration) -> (r:
        Result<(), UploadSessionError>)
        requires
            old(self).wf(),
            now@ + ttl@ <= MAX_NANOS,
        ensures
            final(self).wf(),
            final(self).max_sessions() == old(self).max_sessions(),
            final(self).max_chunk_bytes() == old(self).max_chunk_bytes(),
            match start_refusal(old(self).sessions(), old(self).max_sessions(), id@, path@, total_chunks, ttl@) {
                Some(e) => r == Err::<(), _>(e) && final(self).sessions() == old(self).sessions(),
                None => r is Ok && final(self).sessions() == old(self).sessions().push(
                    SessionView {
                        id: id@,
                        path: path@,
                        total_chunks,
                        chunks: Seq::empty(),
                        expires_at: now@ + ttl@,
                        completed: false,
                    },
                ),
            },
    {
        let path = match MediaPath::new(path) {
            Ok(p) => p,
            Err(_) => {
                return Err(UploadSessionError::UnsafePath);
            },
        };
        let day = Duration::from_secs(MAX_TTL_SECS);
        if id.is_empty() || id.len() > MAX_ID_BYTES || total_chunks == 0 || ttl.is_zero()
            || day.shorter_than(&ttl) {
            return Err(UploadSessionError::InvalidChunkCount);
        }
        if self.sessions.len() >= self.max_sessions || self.find(id).is_some() {
            return Err(UploadSessionError::Capacity);
        }
        let expires_at = match now.checked_add(ttl) {
            Some(t) => t,
            None => {
                return Err(UploadSessionError::InvalidChunkCount);
            },
        };
        let ghost before = self.sessions();
        let chunks: Vec<Vec<u8>> = Vec::new();
        assert(chunk_views(chunks@) =~= Seq::<Seq<u8>>::empty());
        let s = Session { id: id.to_string(), path, total_chunks, chunks, expires_at, completed: false };
        self.sessions.push(s);
        proof {
            let after = self.sessions();
            assert(after =~= before.push(session_view(s)));
            assert(session_view(s).chunks =~= Seq::<Seq<u8>>::empty());
            assert forall|a: int, b: int|
                0 <= a < after.len() && 0 <= b < after.len() && a != b implies #[trigger] after[a].id
                != #[trigger] after[b].id by {
                if a < before.len() {
                    lemma_session_at(before, a);
                }
                if b < before.len() {
                    lemma_session_at(before, b);
                }
            }
            assert forall|a: int| 0 <= a < after.len() implies (#[trigger] after[a]).chunks.len()
                <= after[a].total_chunks by {
                if a < before.len() {
                    assert(after[a] == before[a]);
                }
            }
        }
        Ok(())
    }

    fn replace(&mut self, i: usize, s: Session)
        requires
            old(self).wf(),
            i < old(self).sessions().len(),
            session_view(s).id == old(self).sessions()[i as int].id,
            session_view(s).chunks.len() <= session_view(s).total_chunks,
        ensures
            final(self).wf(),
            final(self).max_sessions() == old(self).max_sessions(),
            final(self).max_chunk_bytes() == old(self).max_chunk_bytes(),
            final(self).sessions() == old(self).sessions().update(i as int, session_view(s)),
    {
        let ghost before = self.sessions();
        self.sessions.set(i, s);
        proof {
            let after = self.sessions();
            assert(after =~= before.update(i as int, session_view(s)));
            assert forall|a: int, b: int|
                0 <= a < after.len() && 0 <= b < after.len() && a != b implies #[trigger] after[a].id
                != #[trigger] after[b].id by {
                assert(after[a].id == before[a].id && after[b].id == before[b].id);
            }
            assert forall|a: int| 0 <= a < after.len() implies (#[trigger] after[a]).chunks.len()
                <= after[a].total_chunks by {
                if a != i {
                    assert(after[a] == before[a]);
                }
            }
        }
    }

    /// Takes chunk `index` of session `id`: the next one in order, non-empty, within the size
    /// limit, with the given `sha256:` checksum; answers how many chunks the session holds.
    pub fn accept(&mut self, id: &str, index: u32, data: Vec<u8>, checksum_sha256: &str, now: SystemTime) -> (r:
        Result<u32, UploadSessionError>)
        requires
            old(self).wf(),
        ensures
            final(self).wf(),
            final(self).max_sessions() == old(self).max_sessions(),
            final(self).max_chunk_bytes() == old(self).max_chunk_bytes(),
            r is Err ==> final(self).sessions() == old(self).sessions(),
            match session_of(old(self).sessions(), id@) {
                None => r == Err::<u32, _>(UploadSessionError::MissingSession),
                Some(s) => match accept_refusal(s, old(self).max_chunk_bytes(), index, data@, checksum_sha256@, now@) {
                    Some(e) => r == Err::<u32, _>(e),
                    None => r == Ok::<u32, UploadSessionError>((index + 1) as u32) && final(self).sessions()
                        == old(self).sessions().update(
                        session_ids(old(self).sessions()).index_of(id@),
                        SessionView { chunks: s.chunks.push(data@), ..s },
                    ),
                },
            },
    {
        let i = match self.find(id) {
            None => {
                return Err(UploadSessionError::MissingSession);
            },
            Some(i) => i,
        };
        let ghost sv = self.sessions()[i as int];
        let s = &self.sessions[i];
        if !now.before(&s.expires_at) {
            return Err(UploadSessionError::Expired);
        }
        if s.completed {
            return Err(UploadSessionError::AlreadyCompleted);
        }
        if index >= s.total_chunks || data.len() == 0 || data.len() > self.max_chunk_bytes {
            return Err(UploadSessionError::InvalidChunk);
        }
        if index as usize != s.chunks.len() {
            return Err(UploadSessionError::OutOfOrder);
        }
        let actual = sha256_checksum(data.as_slice());
        if !str_eq(actual.as_str(), checksum_sha256) {
            return Err(UploadSessionError::ChecksumMismatch);
        }
        let ghost dv = data@;
        let mut chunks = copy_chunks(&s.chunks);
        let ghost c0 = chunk_views(chunks@);
        chunks.push(data);
        assert(chunk_views(chunks@) =~= c0.push(dv));
        let next = Session {
            id: s.id.clone(),
            path: s.path.copied(),
            total_chunks: s.total_chunks,
            chunks,
            expires_at: s.expires_at,
            completed: false,
        };
        assert(session_view(next) == SessionView { chunks: sv.chunks.push(dv), ..sv });
        self.replace(i, next);
        Ok(index + 1)
    }

    /// Assembles session `id` once every chunk has arrived, and closes it for more chunks.
    pub fn complete(&mut self, id: &str, now: SystemTime) -> (r: Result<CompletedUpload, UploadSessionError>)
        requires
            old(self).wf(),
        ensures
            final(self).wf(),
            final(self).max_sessions() == old(self).max_sessions(),
            final(self).max_chunk_bytes() == old(self).max_chunk_bytes(),
            r is Err ==> final(self).sessions() == old(self).sessions(),
            match session_of(old(self).sessions(), id@) {
                None => r == Err::<CompletedUpload, _>(UploadSessionError::MissingSession),
                Some(s) => match complete_refusal(s, now@) {
                    Some(e) => r == Err::<CompletedUpload, _>(e),
                    None => (r matches Ok(u) && u.path@ == s.path && u.bytes@ == flatten(s.chunks)
                        && u.checksum_sha256@ == checksum_text(flatten(s.chunks))) && final(self).sessions()
                        == old(self).sessions().update(
                        session_ids(old(self).sessions()).index_of(id@),
                        SessionView { completed: true, ..s },
                    ),
                },
            },
    {
        let i = match self.find(id) {
            None => {
                return Err(UploadSessionError::MissingSession);
            },
            Some(i) => i,
        };
        let ghost sv = self.sessions()[i as int];
        let s = &self.sessions[i];
        if !now.before(&s.expires_at) {
            return Err(UploadSessionError::Expired);
        }
        if s.completed {
            return Err(UploadSessionError::AlreadyCompleted);
        }
        if s.chunks.len() != s.total_chunks as usize {
            return Err(UploadSessionError::Incomplete);
        }
        let ghost cs = chunk_views(s.chunks@);
        let mut bytes: Vec<u8> = Vec::new();
        let mut k: usize = 0;
        while k < s.chunks.len()
            invariant
                cs == chunk_views(s.chunks@),
                k <= cs.len(),
                bytes@ == flatten(cs.take(k as int)),
            decreases cs.len() - k,
        {
            proof {
                assert(cs.take(k + 1).drop_last() =~= cs.take(k as int));
                assert(cs.take(k + 1).last() == s.chunks@[k as int]@);
            }
            let chunk = &s.chunks[k];
            let mut j: usize = 0;
            let ghost b0 = bytes@;
            while j < chunk.len()
                invariant
                    j <= chunk@.len(),
                    bytes@ == b0 + chunk@.take(j as int),
                decreases chunk@.len() - j,
            {
                bytes.push(chunk[j]);
                j = j + 1;
                assert(bytes@ =~= b0 + chunk@.take(j as int));
            }
            assert(chunk@.take(chunk@.len() as int) =~= chunk@);
            k = k + 1;
        }
        assert(cs.take(cs.len() as int) =~= cs);
        let checksum_sha256 = sha256_checksum(bytes.as_slice());
        let path = s.path.copied();
        let mut chunks = copy_chunks(&s.chunks);
        let next = Session {
            id: s.id.clone(),
            path: s.path.copied(),
            total_chunks: s.total_chunks,
            chunks,
            expires_at: s.expires_at,
            completed: true,
        };
        assert(session_view(next) == SessionView { completed: true, ..sv });
        self.replace(i, next);
        Ok(CompletedUpload { path, bytes, checksum_sha256 })
    }

    /// Drops session `id`.
    pub fn cancel(&mut self, id: &str) -> (r: Result<(), UploadSessionError>)
        requires
            old(self).wf(),
        ensures
            final(self).wf(),
            final(self).max_sessions() == old(self).max_sessions(),
            final(self).max_chunk_bytes() == old(self).max_chunk_bytes(),
            session_of(old(self).sessions(), id@) is None ==> r == Err::<(), _>(
                UploadSessionError::MissingSession,
            ) && final(self).sessions() == old(self).sessions(),
            session_of(old(self).sessions(), id@) is Some ==> r is Ok && final(self).sessions() == old(
                self,
            ).sessions().remove(session_ids(old(self).sessions()).index_of(id@)),
    {
        let i = match self.find(id) {
            None => {
                return Err(UploadSessionError::MissingSession);
            },
            Some(i) => i,
        };
        let ghost before = self.sessions();
        self.sessions.remove(i);
        proof {
            let after = self.sessions();
            assert(after =~= before.remove(i as int));
            assert forall|a: int, b: int|
                0 <= a < after.len() && 0 <= b < after.len() && a != b implies #[trigger] after[a].id
                != #[trigger] after[b].id by {
                let a0 = if a < i { a } else { a + 1 };
                let b0 = if b < i { b } else { b + 1 };
                assert(after[a] == before[a0] && after[b] == before[b0]);
            }
            assert forall|a: int| 0 <= a < after.len() implies (#[trigger] after[a]).chunks.len()
                <= after[a].total_chunks by {
                let a0 = if a < i { a } else { a + 1 };
                assert(after[a] == before[a0]);
            }
        }
        Ok(())
    }

    /// Number of open sessions.
    pub fn active_sessions(&self) -> (n: usize)
        ensures
            n == self.sessions().len(),
    {
        self.sessions.len()
    }
}

} // verus!
