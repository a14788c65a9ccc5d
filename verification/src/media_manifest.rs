//! Immutable metadata manifests for uploaded and generated media assets.
use vstd::prelude::*;
use crate::crypto::{checksum_text, sha256_checksum};
use crate::media_processing::{media_path_check, MediaPath};
use crate::text::{is_plain_name, plain_name, str_eq};

verus! {

#[derive(Debug, Clone, Copy, PartialEq, Eq, Structural)]
pub enum ManifestError {
    UnsafePath,
    InvalidScope,
    InvalidMediaType,
    InvalidChecksum,
    InvalidDimensions,
    InvalidDuration,
    DuplicateId,
    Missing,
    Capacity,
    LineageTooLong,
}

#[derive(Debug, Clone, PartialEq, Eq)]
pub struct MediaManifest {
    pub id: String,
    pub scope: String,
    pub path: MediaPath,
    pub media_type: String,
    pub size_bytes: u64,
    pub checksum_sha256: String,
    pub width: u32,
    pub height: u32,
    pub duration_ms: u64,
    pub parent_id: Option<String>,
    pub lineage_depth: u8,
}

/// Manifests by id, each recorded once and never changed.
#[derive(Debug)]
pub struct MediaManifestStore {
    entries: Vec<MediaManifest>,
    max_entries: usize,
}

pub open spec fn media_types() -> Seq<Seq<char>> {
    seq![
        "video/mp4"@,
        "video/webm"@,
        "video/x-matroska"@,
        "audio/mpeg"@,
        "audio/mp4"@,
        "audio/wav"@,
    ]
}

pub open spec fn manifest_ids(entries: Seq<MediaManifest>) -> Seq<Seq<char>> {
    entries.map_values(|m: MediaManifest| m.id@)
}

/// The position of the manifest with id `id`.
pub open spec fn position(entries: Seq<MediaManifest>, id: Seq<char>) -> int {
    manifest_ids(entries).index_of(id)
}

/// The depth a new manifest gets from its parent, or `None` when the parent is unknown.
pub open spec fn depth_for(entries: Seq<MediaManifest>, parent: Option<Seq<char>>) -> Option<nat> {
    match parent {
        None => Some(0),
        Some(p) => if manifest_ids(entries).contains(p) {
            let d = entries[position(entries, p)].lineage_depth;
            Some(if d < 255 {
                (d + 1) as nat
            } else {
                255
            })
        } else {
            None
        },
    }
}

/// What `insert` answers when its arguments are checked against a store.
pub open spec fn insert_check(
    entries: Seq<MediaManifest>,
    max: nat,
    id: Seq<char>,
    scope: Seq<char>,
    path: Seq<char>,
    media_type: Seq<char>,
    bytes_len: nat,
    width: u32,
    height: u32,
    duration_ms: u64,
    parent: Option<Seq<char>>,
) -> Result<nat, ManifestError> {
    if !plain_name(id, 128) {
        Err(ManifestError::DuplicateId)
    } else if !plain_name(scope, 128) {
        Err(ManifestError::InvalidScope)
    } else if media_path_check(path) is Err {
        Err(ManifestError::UnsafePath)
    } else if !media_types().contains(media_type) {
        Err(ManifestError::InvalidMediaType)
    } else if bytes_len == 0 {
        Err(ManifestError::InvalidChecksum)
    } else if width > 7680 || height > 4320 || (width == 0) != (height == 0) {
        Err(ManifestError::InvalidDimensions)
    } else if duration_ms > 86_400_000 {
        Err(ManifestError::InvalidDuration)
    } else if entries.len() >= max {
        Err(ManifestError::Capacity)
    } else if manifest_ids(entries).contains(id) {
        Err(ManifestError::DuplicateId)
    } else {
        match depth_for(entries, parent) {
            None => Err(ManifestError::Missing),
            Some(d) => if d > 32 {
                Err(ManifestError::LineageTooLong)
            } else {
                Ok(d)
            },
        }
    }
}

/// Ids are unique, and every manifest with a parent sits one level below a parent that
/// was recorded before it, at most 32 levels deep.
pub open spec fn lineage_consistent(entries: Seq<MediaManifest>) -> bool {
    &&& forall|i: int, j: int|
        0 <= i < entries.len() && 0 <= j < entries.len() && i != j ==> #[trigger] entries[i].id@
            != #[trigger] entries[j].id@
    &&& forall|i: int|
        0 <= i < entries.len() ==> (#[trigger] entries[i]).lineage_depth <= 32 && match entries[i].parent_id {
            None => entries[i].lineage_depth == 0,
            Some(p) => exists|j: int|
                0 <= j < i && entries[j].id@ == p@ && entries[i].lineage_depth
                    == entries[j].lineage_depth + 1,
        }
}

fn copy_manifest(m: &MediaManifest) -> (r: MediaManifest)
    ensures
        r == *m,
{
    MediaManifest {
        id: m.id.clone(),
        scope: m.scope.clone(),
        path: m.path.copied(),
        media_type: m.media_type.clone(),
        size_bytes: m.size_bytes,
        checksum_sha256: m.checksum_sha256.clone(),
        width: m.width,
        height: m.height,
        duration_ms: m.duration_ms,
        parent_id: match &m.parent_id {
            Some(p) => Some(p.clone()),
            None => None,
        },
        lineage_depth: m.lineage_depth,
    }
}

fn known_media_type(t: &str) -> (r: bool)
    ensures
        r == media_types().contains(t@),
{
    let r = str_eq(t, "video/mp4") || str_eq(t, "video/webm") || str_eq(t, "video/x-matroska")
        || str_eq(t, "audio/mpeg") || str_eq(t, "audio/mp4") || str_eq(t, "audio/wav");
    proof {
        let m = media_types();
        if m.contains(t@) {
            let k = choose|k: int| 0 <= k < m.len() && m[k] == t@;
            assert(k == 0 || k == 1 || k == 2 || k == 3 || k == 4 || k == 5);
        }
        if r {
            if t@ == "video/mp4"@ {
                assert(m[0] == t@);
            } else if t@ == "video/webm"@ {
                assert(m[1] == t@);
            } else if t@ == "video/x-matroska"@ {
                assert(m[2] == t@);
            } else if t@ == "audio/mpeg"@ {
                assert(m[3] == t@);
            } else if t@ == "audio/mp4"@ {
                assert(m[4] == t@);
            } else {
                assert(m[5] == t@);
            }
        }
    }
    r
}

impl MediaManifestStore {
    pub closed spec fn entries(&self) -> Seq<MediaManifest> {
        self.entries@
    }

    pub closed spec fn capacity(&self) -> nat {
        self.max_entries as nat
    }

    pub closed spec fn wf(&self) -> bool {
        &&& self.max_entries >= 1
        &&& self.entries@.len() <= self.max_entries
        &&& lineage_consistent(self.entries@)
    }

    /// An empty store with room for `max_entries` manifests (at least one).
    pub fn new(max_entries: usize) -> (s: MediaManifestStore)
        ensures
            s.wf(),
            s.entries().len() == 0,
            s.capacity() == if max_entries < 1 {
                1
            } else {
                max_entries as nat
            },
    {
        MediaManifestStore {
            entries: Vec::new(),
            max_entries: if max_entries < 1 {
                1
            } else {
                max_entries
            },
        }
    }

    fn find(&self, id: &str) -> (r: Option<usize>)
        requires
            self.wf(),
        ensures
            r matches Some(i) ==> i < self.entries().len() && self.entries()[i as int].id@ == id@
                && manifest_ids(self.entries()).contains(id@) && position(self.entries(), id@)
                == i,
            r is None ==> !manifest_ids(self.entries()).contains(id@),
    {
        let ghost ids = manifest_ids(self.entries@);
        let mut i: usize = 0;
        while i < self.entries.len()
            invariant
                self.wf(),
                ids == manifest_ids(self.entries@),
                i <= self.entries@.len(),
                forall|j: int| 0 <= j < i ==> self.entries@[j].id@ != id@,
            decreases self.entries@.len() - i,
        {
            if str_eq(self.entries[i].id.as_str(), id) {
                proof {
                    assert(ids[i as int] == id@);
                    let k = ids.index_of(id@);
                    assert(ids[k] == self.entries@[k].id@);
                }
                return Some(i);
            }
            i = i + 1;
        }
        proof {
            if ids.contains(id@) {
                let k = ids.index_of(id@);
                assert(ids[k] == self.entries@[k].id@);
            }
        }
        None
    }

    /// Records a manifest for `bytes` stored at `path`. A manifest with a parent sits one
    /// lineage level below it.
    pub fn insert(
        &mut self,
        id: String,
        scope: String,
        path: &str,
        media_type: String,
        bytes: &[u8],
        width: u32,
        height: u32,
        duration_ms: u64,
        parent_id: Option<String>,
    ) -> (r: Result<MediaManifest, ManifestError>)
        requires
            old(self).wf(),
        ensures
            final(self).wf(),
            final(self).capacity() == old(self).capacity(),
            match insert_check(
                old(self).entries(),
                old(self).capacity(),
                id@,
                scope@,
                path@,
                media_type@,
                bytes@.len(),
                width,
                height,
                duration_ms,
                match parent_id {
                    Some(p) => Some(p@),
                    None => None,
                },
            ) {
                Err(e) => r == Err::<MediaManifest, _>(e) && final(self).entries() == old(self).entries(),
                Ok(depth) => r matches Ok(m) && final(self).entries() == old(self).entries().push(m)
                    && m.id == id && m.scope == scope && m.path@ == path@ && m.media_type
                    == media_type && m.size_bytes == bytes@.len() && m.checksum_sha256@
                    == checksum_text(bytes@) && m.width == width && m.height == height
                    && m.duration_ms == duration_ms && m.parent_id == parent_id
                    && m.lineage_depth == depth,
            },
            r is Err ==> forall|sc: Seq<char>, i: Seq<char>|
                #[trigger] lookup(final(self).entries(), sc, i) == lookup(old(self).entries(), sc, i),
            r matches Ok(m) ==> lookup(final(self).entries(), m.scope@, m.id@) == Ok::<
                MediaManifest,
                ManifestError,
            >(m) && forall|sc: Seq<char>, i: Seq<char>|
                i != m.id@ ==> #[trigger] lookup(final(self).entries(), sc, i) == lookup(
                    old(self).entries(),
                    sc,
                    i,
                ),
    {
        let ghost path_text = path@;
        if !is_plain_name(id.as_str(), 128) {
            return Err(ManifestError::DuplicateId);
        }
        if !is_plain_name(scope.as_str(), 128) {
            return Err(ManifestError::InvalidScope);
        }
        let path = match MediaPath::new(path) {
            Ok(p) => p,
            Err(_) => {
                return Err(ManifestError::UnsafePath);
            },
        };
        if !known_media_type(media_type.as_str()) {
            return Err(ManifestError::InvalidMediaType);
        }
        if bytes.len() == 0 {
            return Err(ManifestError::InvalidChecksum);
        }
        if width > 7680 || height > 4320 || (width == 0) != (height == 0) {
            return Err(ManifestError::InvalidDimensions);
        }
        if duration_ms > 86_400_000 {
            return Err(ManifestError::InvalidDuration);
        }
        if self.entries.len() >= self.max_entries {
            return Err(ManifestError::Capacity);
        }
        if self.find(id.as_str()).is_some() {
            return Err(ManifestError::DuplicateId);
        }
        let ghost pj: int = -1;
        let lineage_depth: u8 = match &parent_id {
            Some(parent) => match self.find(parent.as_str()) {
                Some(j) => {
                    proof {
                        pj = j as int;
                    }
                    let d = self.entries[j].lineage_depth;
                    if d < 255 {
                        d + 1
                    } else {
                        255
                    }
                },
                None => {
                    return Err(ManifestError::Missing);
                },
            },
            None => 0,
        };
        if lineage_depth > 32 {
            return Err(ManifestError::LineageTooLong);
        }
        let manifest = MediaManifest {
            id,
            scope,
            path,
            media_type,
            size_bytes: bytes.len() as u64,
            checksum_sha256: sha256_checksum(bytes),
            width,
            height,
            duration_ms,
            parent_id,
            lineage_depth,
        };
        let out = copy_manifest(&manifest);
        let ghost old_entries = self.entries@;
        self.entries.push(manifest);
        proof {
            let e = self.entries@;
            let n = old_entries.len() as int;
            assert forall|i: int|
                0 <= i < e.len() implies (#[trigger] e[i]).lineage_depth <= 32 && match e[i].parent_id {
                None => e[i].lineage_depth == 0,
                Some(p) => exists|j: int|
                    0 <= j < i && e[j].id@ == p@ && e[i].lineage_depth == e[j].lineage_depth + 1,
            } by {
                if i < n {
                    assert(e[i] == old_entries[i]);
                    if let Some(p) = e[i].parent_id {
                        let j = choose|j: int|
                            0 <= j < i && old_entries[j].id@ == p@ && old_entries[i].lineage_depth
                                == old_entries[j].lineage_depth + 1;
                        assert(e[j] == old_entries[j]);
                    }
                } else {
                    if let Some(p) = e[i].parent_id {
                        assert(e[pj] == old_entries[pj]);
                        assert(old_entries[pj].lineage_depth <= 32);
                    }
                }
            }
            assert forall|a: int, b: int|
                0 <= a < e.len() && 0 <= b < e.len() && a != b implies #[trigger] e[a].id@
                != #[trigger] e[b].id@ by {
                if a < n && b < n {
                    assert(e[a] == old_entries[a] && e[b] == old_entries[b]);
                } else if a == n {
                    assert(e[b] == old_entries[b]);
                    assert(manifest_ids(old_entries)[b] == old_entries[b].id@);
                } else {
                    assert(e[a] == old_entries[a]);
                    assert(manifest_ids(old_entries)[a] == old_entries[a].id@);
                }
            }
            assert forall|sc: Seq<char>, i: Seq<char>| i != out.id@ implies #[trigger] lookup(
                e,
                sc,
                i,
            ) == lookup(old_entries, sc, i) by {
                lemma_insert_then_get(old_entries, self.max_entries as nat, path_text, bytes@.len(), out, sc, i);
            }
            lemma_insert_then_get(old_entries, self.max_entries as nat, path_text, bytes@.len(), out, out.scope@, out.id@);
        }
        Ok(out)
    }

    /// The manifest `id` of `scope`; a manifest of another scope is missing.
    pub fn get(&self, scope: &str, id: &str) -> (r: Result<MediaManifest, ManifestError>)
        requires
            self.wf(),
        ensures
            match r {
                Ok(m) => manifest_ids(self.entries()).contains(id@) && m == self.entries()[position(
                    self.entries(),
                    id@,
                )] && m.scope@ == scope@,
                Err(e) => e == ManifestError::Missing && !(manifest_ids(self.entries()).contains(
                    id@,
                ) && self.entries()[position(self.entries(), id@)].scope@ == scope@),
            },
            r == lookup(self.entries(), scope@, id@),
    {
        match self.find(id) {
            None => Err(ManifestError::Missing),
            Some(i) => {
                if !str_eq(self.entries[i].scope.as_str(), scope) {
                    return Err(ManifestError::Missing);
                }
                Ok(copy_manifest(&self.entries[i]))
            },
        }
    }

    pub fn len(&self) -> (n: usize)
        ensures
            n == self.entries().len(),
    {
        self.entries.len()
    }

    pub fn is_empty(&self) -> (r: bool)
        ensures
            r == (self.entries().len() == 0),
    {
        self.entries.len() == 0
    }
}

/// What `get(scope, id)` answers over `entries`: the manifest with that id when it belongs to
/// `scope`, and `Missing` otherwise.
pub open spec fn lookup(entries: Seq<MediaManifest>, scope: Seq<char>, id: Seq<char>) -> Result<
    MediaManifest,
    ManifestError,
> {
    if manifest_ids(entries).contains(id) && entries[position(entries, id)].scope@ == scope {
        Ok(entries[position(entries, id)])
    } else {
        Err(ManifestError::Missing)
    }
}

/// A manifest that `insert` accepted is what `get` then answers for its scope and id, and
/// every other lookup answers as it did before; a refused insert changes no lookup.
pub proof fn lemma_insert_then_get(
    before: Seq<MediaManifest>,
    max: nat,
    path: Seq<char>,
    bytes_len: nat,
    m: MediaManifest,
    scope: Seq<char>,
    id: Seq<char>,
)
    requires
        lineage_consistent(before),
        insert_check(
            before,
            max,
            m.id@,
            m.scope@,
            path,
            m.media_type@,
            bytes_len,
            m.width,
            m.height,
            m.duration_ms,
            match m.parent_id {
                Some(p) => Some(p@),
                None => None,
            },
        ) is Ok,
    ensures
        lookup(before.push(m), m.scope@, m.id@) == Ok::<MediaManifest, ManifestError>(m),
        id != m.id@ ==> lookup(before.push(m), scope, id) == lookup(before, scope, id),
{
    let after = before.push(m);
    let ids = manifest_ids(before);
    let ids2 = manifest_ids(after);
    assert(ids2 =~= ids.push(m.id@));
    assert(!ids.contains(m.id@));
    assert(ids2[before.len() as int] == m.id@);
    assert(ids2.index_of(m.id@) == before.len()) by {
        let k = ids2.index_of(m.id@);
        if k < before.len() {
            assert(ids[k] == m.id@);
        }
    }
    if id != m.id@ {
        if ids.contains(id) {
            let k = ids.index_of(id);
            assert(ids2[k] == id);
            assert(ids2.index_of(id) == k) by {
                let k2 = ids2.index_of(id);
                assert(ids2.contains(id));
                assert(0 <= k2 < ids2.len() && ids2[k2] == id);
                assert(k2 < before.len());
                assert(ids[k2] == id && ids[k] == id);
                assert(before[k2].id@ == before[k].id@);
            }
            assert(after[k] == before[k]);
        } else {
            assert forall|j: int| 0 <= j < ids2.len() implies ids2[j] != id by {
                if j < before.len() {
                    assert(ids2[j] == ids[j]);
                }
            }
        }
    }
}

} // verus!
