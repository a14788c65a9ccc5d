//! The decisions of the persistent media-editor repository: which ids are accepted, and what
//! a stored project row becomes when an asset is added or the timeline replaced.
//!
//! A row is read and written by the caller, inside one transaction; these functions judge
//! the row read and give what to write.
use vstd::prelude::*;
use crate::media_editor::{EditorError, EditorSnapshot};
use crate::text::{byte_len, clone_strings, contains_str, is_plain_name, owned, plain_name, views};

verus! {

/// A project row as stored: its revision, its assets in order and its timeline.
#[derive(Debug, Clone, PartialEq, Eq)]
pub struct StoredProject {
    pub revision: i64,
    pub assets: Vec<String>,
    pub timeline: String,
}

/// The longest id, in bytes.
pub const MAX_ID_BYTES: usize = 128;

/// The longest timeline, in bytes.
pub const MAX_TIMELINE_BYTES: usize = 16_384;

/// Accepts a project, scope or asset id: non-empty, at most 128 bytes, without control
/// characters or slashes.
pub fn check_id(value: &str) -> (r: Result<(), EditorError>)
    ensures
        r is Ok <==> plain_name(value@, MAX_ID_BYTES as nat),
        r is Err ==> r == Err::<(), EditorError>(EditorError::InvalidId),
{
    if is_plain_name(value, MAX_ID_BYTES) {
        Ok(())
    } else {
        Err(EditorError::InvalidId)
    }
}

/// Accepts a timeline of at most 16 KiB.
pub fn check_timeline(timeline: &str) -> (r: Result<(), EditorError>)
    ensures
        r is Ok <==> byte_len(timeline@) <= MAX_TIMELINE_BYTES,
        r is Err ==> r == Err::<(), EditorError>(EditorError::TooManyAssets),
{
    if timeline.len() > MAX_TIMELINE_BYTES {
        Err(EditorError::TooManyAssets)
    } else {
        Ok(())
    }
}

/// What adding `asset_id` to the row read does: the row must exist, be at the expected
/// revision, have room and not hold the asset already; the revision then goes up by one.
pub open spec fn asset_outcome(
    row: Option<StoredProject>,
    expected_revision: u64,
    asset_id: Seq<char>,
    max_assets: nat,
) -> Result<(i64, Seq<Seq<char>>), EditorError> {
    match row {
        None => Err(EditorError::NotFound),
        Some(r) => if r.revision != expected_revision as i64 {
            Err(EditorError::Conflict)
        } else if r.assets@.len() >= max_assets {
            Err(EditorError::TooManyAssets)
        } else if views(r.assets@).contains(asset_id) {
            Err(EditorError::Conflict)
        } else if r.revision == i64::MAX {
            Err(EditorError::Conflict)
        } else {
            Ok(((r.revision + 1) as i64, views(r.assets@).push(asset_id)))
        },
    }
}

/// What replacing the timeline of the row read does: the row must exist and be at the
/// expected revision; the revision then goes up by one.
pub open spec fn timeline_outcome(row: Option<StoredProject>, expected_revision: u64) -> Result<i64, EditorError> {
    match row {
        None => Err(EditorError::NotFound),
        Some(r) => if r.revision != expected_revision as i64 || r.revision == i64::MAX {
            Err(EditorError::Conflict)
        } else {
            Ok((r.revision + 1) as i64)
        },
    }
}

/// The row to write after adding `asset_id`, and the snapshot to answer with.
pub fn plan_add_asset(
    project_id: &str,
    scope: &str,
    row: Option<StoredProject>,
    expected_revision: u64,
    asset_id: &str,
    max_assets: usize,
) -> (r: Result<(StoredProject, EditorSnapshot), EditorError>)
    ensures
        match asset_outcome(row, expected_revision, asset_id@, max_assets as nat) {
            Err(e) => r == Err::<(StoredProject, EditorSnapshot), EditorError>(e),
            Ok((revision, assets)) => r matches Ok((stored, snap)) && stored.revision == revision && views(
                stored.assets@,
            ) == assets && stored.timeline@ == row->0.timeline@ && snap@.id == project_id@ && snap@.scope
                == scope@ && snap.revision == revision as u64 && snap@.assets == assets && snap@.timeline
                == row->0.timeline@,
        },
{
    let r = match row {
        Some(r) => r,
        None => return Err(EditorError::NotFound),
    };
    if r.revision != expected_revision as i64 {
        return Err(EditorError::Conflict);
    }
    if r.assets.len() >= max_assets {
        return Err(EditorError::TooManyAssets);
    }
    if contains_str(&r.assets, asset_id) {
        return Err(EditorError::Conflict);
    }
    if r.revision == i64::MAX {
        return Err(EditorError::Conflict);
    }
    let next = r.revision + 1;
    let mut assets = r.assets;
    let ghost before = views(assets@);
    assets.push(owned(asset_id));
    assert(views(assets@) =~= before.push(asset_id@));
    let snap = EditorSnapshot {
        project_id: owned(project_id),
        scope: owned(scope),
        revision: next as u64,
        assets: clone_strings(&assets),
        timeline: r.timeline.clone(),
    };
    Ok((StoredProject { revision: next, assets, timeline: r.timeline }, snap))
}

/// The row to write after replacing the timeline with `timeline`, and the snapshot to
/// answer with.
pub fn plan_set_timeline(
    project_id: &str,
    scope: &str,
    row: Option<StoredProject>,
    expected_revision: u64,
    timeline: &str,
) -> (r: Result<(StoredProject, EditorSnapshot), EditorError>)
    ensures
        match timeline_outcome(row, expected_revision) {
            Err(e) => r == Err::<(StoredProject, EditorSnapshot), EditorError>(e),
            Ok(revision) => r matches Ok((stored, snap)) && stored.revision == revision && views(stored.assets@)
                == views(row->0.assets@) && stored.timeline@ == timeline@ && snap@.id == project_id@
                && snap@.scope == scope@ && snap.revision == revision as u64 && snap@.assets == views(
                row->0.assets@,
            ) && snap@.timeline == timeline@,
        },
{
    let r = match row {
        Some(r) => r,
        None => return Err(EditorError::NotFound),
    };
    if r.revision != expected_revision as i64 || r.revision == i64::MAX {
        return Err(EditorError::Conflict);
    }
    let next = r.revision + 1;
    let snap = EditorSnapshot {
        project_id: owned(project_id),
        scope: owned(scope),
        revision: next as u64,
        assets: clone_strings(&r.assets),
        timeline: owned(timeline),
    };
    Ok((StoredProject { revision: next, assets: r.assets, timeline: owned(timeline) }, snap))
}

/// The snapshot of the row read, or `NotFound` when the project is not in this scope.
pub fn snapshot_of(project_id: &str, scope: &str, row: Option<StoredProject>) -> (r: Result<EditorSnapshot, EditorError>)
    ensures
        match row {
            None => r == Err::<EditorSnapshot, EditorError>(EditorError::NotFound),
            Some(x) => r matches Ok(snap) && snap@.id == project_id@ && snap@.scope == scope@ && snap.revision
                == x.revision as u64 && snap@.assets == views(x.assets@) && snap@.timeline == x.timeline@,
        },
{
    match row {
        None => Err(EditorError::NotFound),
        Some(x) => Ok(
            EditorSnapshot {
                project_id: owned(project_id),
                scope: owned(scope),
                revision: x.revision as u64,
                assets: x.assets,
                timeline: x.timeline,
            },
        ),
    }
}

} // verus!
