//! Bounded, deterministic JSON serialization of media-editor project snapshots.
use vstd::prelude::*;
use crate::json::{json_quote, json_quoted};
use crate::text::{byte_len, decimal, is_plain_name, join, plain_name, push_decimal, push_str};

verus! {

#[derive(Debug, Clone, Copy, PartialEq, Eq, Structural)]
pub enum SnapshotError {
    InvalidId,
    TooManyAssets,
    TimelineTooLarge,
    MetadataTooLarge,
}

#[derive(Debug, Clone, PartialEq, Eq)]
pub struct SnapshotAsset {
    pub id: String,
    pub kind: String,
}

#[derive(Debug, Clone, PartialEq, Eq)]
pub struct MediaProjectSnapshot {
    pub project_id: String,
    pub scope: String,
    pub revision: u64,
    pub assets: Vec<SnapshotAsset>,
    pub timeline: String,
}

#[derive(Debug, Clone, PartialEq, Eq)]
pub struct SerializedProjectSnapshot {
    pub json: String,
    pub revision: u64,
}

/// The longest project id, scope or asset id, in bytes.
pub const MAX_ID_BYTES: usize = 128;

/// The longest asset kind, in bytes.
pub const MAX_KIND_BYTES: usize = 64;

/// An asset with a non-empty id and kind of bounded length.
pub open spec fn asset_ok(a: SnapshotAsset) -> bool {
    a.id@.len() > 0 && byte_len(a.id@) <= MAX_ID_BYTES && a.kind@.len() > 0 && byte_len(a.kind@)
        <= MAX_KIND_BYTES
}

/// An asset as a JSON object.
pub open spec fn asset_json(a: SnapshotAsset) -> Seq<char> {
    "{\"id\":"@ + json_quoted(a.id@) + ",\"kind\":"@ + json_quoted(a.kind@) + "}"@
}

pub open spec fn assets_json(assets: Seq<SnapshotAsset>) -> Seq<Seq<char>> {
    assets.map_values(|a: SnapshotAsset| asset_json(a))
}

/// The snapshot as compact JSON, its fields in declaration order.
pub open spec fn snapshot_json(s: MediaProjectSnapshot) -> Seq<char> {
    "{\"project_id\":"@ + json_quoted(s.project_id@) + ",\"scope\":"@ + json_quoted(s.scope@)
        + ",\"revision\":"@ + decimal(s.revision as nat) + ",\"assets\":["@ + join(
        assets_json(s.assets@),
        ","@,
    ) + "],\"timeline\":"@ + json_quoted(s.timeline@) + "}"@
}

/// What serializing `s` under the bounds gives.
pub open spec fn serialized(s: MediaProjectSnapshot, max_assets: usize, max_timeline_bytes: usize, max_json_bytes: usize) -> Result<
    Seq<char>,
    SnapshotError,
> {
    if !plain_name(s.project_id@, MAX_ID_BYTES as nat) || !plain_name(s.scope@, MAX_ID_BYTES as nat) {
        Err(SnapshotError::InvalidId)
    } else if s.assets@.len() > max_assets || max_assets == 0 {
        Err(SnapshotError::TooManyAssets)
    } else if byte_len(s.timeline@) > max_timeline_bytes || max_timeline_bytes == 0 {
        Err(SnapshotError::TimelineTooLarge)
    } else if exists|i: int| 0 <= i < s.assets@.len() && !asset_ok(#[trigger] s.assets@[i]) {
        Err(SnapshotError::InvalidId)
    } else if byte_len(snapshot_json(s)) > max_json_bytes || max_json_bytes == 0 {
        Err(SnapshotError::MetadataTooLarge)
    } else {
        Ok(snapshot_json(s))
    }
}

fn push_quoted(out: &mut String, s: &str)
    ensures
        final(out)@ == old(out)@ + json_quoted(s@),
{
    let q = json_quote(s);
    push_str(out, q.as_str());
}

fn write_assets(out: &mut String, assets: &Vec<SnapshotAsset>)
    ensures
        final(out)@ == old(out)@ + join(assets_json(assets@), ","@),
{
    let ghost start = out@;
    let mut i: usize = 0;
    assert(assets_json(assets@.take(0)) =~= Seq::<Seq<char>>::empty());
    while i < assets.len()
        invariant
            i <= assets.len(),
            out@ == start + join(assets_json(assets@.take(i as int)), ","@),
        decreases assets.len() - i,
    {
        if i > 0 {
            push_str(out, ",");
        }
        push_str(out, "{\"id\":");
        push_quoted(out, assets[i].id.as_str());
        push_str(out, ",\"kind\":");
        push_quoted(out, assets[i].kind.as_str());
        push_str(out, "}");
        proof {
            let t = assets_json(assets@.take(i + 1));
            assert(t.drop_last() =~= assets_json(assets@.take(i as int)));
            assert(t.last() == asset_json(assets@[i as int]));
        }
        i = i + 1;
        assert(out@ =~= start + join(assets_json(assets@.take(i as int)), ","@));
    }
    assert(assets@.take(i as int) =~= assets@);
}

/// Serializes the snapshot as compact JSON after checking its ids and bounds: ids are
/// non-empty, at most 128 bytes and free of control characters and slashes; at most
/// `max_assets` assets, a timeline of at most `max_timeline_bytes` bytes and JSON of at most
/// `max_json_bytes` bytes (each bound must be positive).
pub fn serialize_project_snapshot(
    snapshot: &MediaProjectSnapshot,
    max_assets: usize,
    max_timeline_bytes: usize,
    max_json_bytes: usize,
) -> (r: Result<SerializedProjectSnapshot, SnapshotError>)
    ensures
        match serialized(*snapshot, max_assets, max_timeline_bytes, max_json_bytes) {
            Ok(json) => r matches Ok(s) && s.json@ == json && s.revision == snapshot.revision,
            Err(e) => r == Err::<SerializedProjectSnapshot, SnapshotError>(e),
        },
{
    if !is_plain_name(snapshot.project_id.as_str(), MAX_ID_BYTES) || !is_plain_name(
        snapshot.scope.as_str(),
        MAX_ID_BYTES,
    ) {
        return Err(SnapshotError::InvalidId);
    }
    if snapshot.assets.len() > max_assets || max_assets == 0 {
        return Err(SnapshotError::TooManyAssets);
    }
    if snapshot.timeline.as_str().len() > max_timeline_bytes || max_timeline_bytes == 0 {
        return Err(SnapshotError::TimelineTooLarge);
    }
    let mut i: usize = 0;
    while i < snapshot.assets.len()
        invariant
            plain_name(snapshot.project_id@, MAX_ID_BYTES as nat),
            plain_name(snapshot.scope@, MAX_ID_BYTES as nat),
            snapshot.assets@.len() <= max_assets && max_assets != 0,
            byte_len(snapshot.timeline@) <= max_timeline_bytes && max_timeline_bytes != 0,
            i <= snapshot.assets.len(),
            forall|j: int| 0 <= j < i ==> asset_ok(#[trigger] snapshot.assets@[j]),
        decreases snapshot.assets.len() - i,
    {
        let a = &snapshot.assets[i];
        if a.id.as_str().is_empty() || a.id.as_str().len() > MAX_ID_BYTES || a.kind.as_str().is_empty()
            || a.kind.as_str().len() > MAX_KIND_BYTES {
            assert(!asset_ok(snapshot.assets@[i as int]));
            return Err(SnapshotError::InvalidId);
        }
        i = i + 1;
    }
    let mut json = String::new();
    push_str(&mut json, "{\"project_id\":");
    push_quoted(&mut json, snapshot.project_id.as_str());
    push_str(&mut json, ",\"scope\":");
    push_quoted(&mut json, snapshot.scope.as_str());
    push_str(&mut json, ",\"revision\":");
    push_decimal(&mut json, snapshot.revision);
    push_str(&mut json, ",\"assets\":[");
    write_assets(&mut json, &snapshot.assets);
    push_str(&mut json, "],\"timeline\":");
    push_quoted(&mut json, snapshot.timeline.as_str());
    push_str(&mut json, "}");
    assert(json@ =~= snapshot_json(*snapshot));
    if json.as_str().len() > max_json_bytes || max_json_bytes == 0 {
        return Err(SnapshotError::MetadataTooLarge);
    }
    Ok(SerializedProjectSnapshot { json, revision: snapshot.revision })
}

} // verus!
