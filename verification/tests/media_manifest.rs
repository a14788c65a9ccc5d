use sha2::{Digest, Sha256};
use yaiko::media_manifest::{ManifestError, MediaManifestStore};

fn store() -> MediaManifestStore {
    MediaManifestStore::new(4)
}

#[allow(clippy::too_many_arguments)]
fn insert(
    store: &mut MediaManifestStore,
    id: &str,
    scope: &str,
    path: &str,
    media_type: &str,
    bytes: &[u8],
    width: u32,
    height: u32,
    duration_ms: u64,
    parent: Option<String>,
) -> Result<yaiko::media_manifest::MediaManifest, ManifestError> {
    store.insert(id.into(), scope.into(), path, media_type.into(), bytes, width, height, duration_ms, parent)
}

#[test]
fn inserts_and_scoped_looks_up_immutable_manifest() {
    let mut store = store();
    let manifest = insert(&mut store, "asset-1", "tenant-a", "renders/video.mp4", "video/mp4", b"bytes", 1920, 1080, 12_000, None)
        .unwrap();
    assert_eq!(manifest.checksum_sha256, format!("sha256:{:x}", Sha256::digest(b"bytes")));
    assert_eq!(store.get("tenant-a", "asset-1").unwrap(), manifest);
    assert_eq!(store.get("tenant-b", "asset-1"), Err(ManifestError::Missing));
}

#[test]
fn validates_types_dimensions_duration_paths_and_capacity() {
    let mut store = MediaManifestStore::new(1);
    assert_eq!(
        insert(&mut store, "asset-1", "tenant-a", "../bad.mp4", "video/mp4", b"x", 1, 1, 1, None),
        Err(ManifestError::UnsafePath)
    );
    assert_eq!(
        insert(&mut store, "asset-1", "tenant-a", "a.exe", "application/octet-stream", b"x", 1, 1, 1, None),
        Err(ManifestError::InvalidMediaType)
    );
    assert_eq!(
        insert(&mut store, "asset-1", "tenant-a", "a.mp4", "video/mp4", b"x", 1, 0, 1, None),
        Err(ManifestError::InvalidDimensions)
    );
    assert_eq!(
        insert(&mut store, "asset-1", "tenant-a", "a.mp4", "video/mp4", b"x", 1, 1, 86_400_001, None),
        Err(ManifestError::InvalidDuration)
    );
    insert(&mut store, "asset-1", "tenant-a", "a.mp4", "video/mp4", b"x", 1, 1, 1, None).unwrap();
    assert_eq!(
        insert(&mut store, "asset-2", "tenant-a", "b.mp4", "video/mp4", b"x", 1, 1, 1, None),
        Err(ManifestError::Capacity)
    );
}

#[test]
fn tracks_lineage_and_rejects_missing_parent_or_duplicates() {
    let mut store = store();
    insert(&mut store, "source", "tenant-a", "source.mp4", "video/mp4", b"source", 1280, 720, 1000, None).unwrap();
    let derived = insert(
        &mut store,
        "derived",
        "tenant-a",
        "derived.mp4",
        "video/mp4",
        b"derived",
        1280,
        720,
        1000,
        Some("source".into()),
    )
    .unwrap();
    assert_eq!(derived.lineage_depth, 1);
    assert_eq!(
        insert(&mut store, "derived", "tenant-a", "other.mp4", "video/mp4", b"x", 1, 1, 1, None),
        Err(ManifestError::DuplicateId)
    );
    assert_eq!(
        insert(&mut store, "other", "tenant-a", "other.mp4", "video/mp4", b"x", 1, 1, 1, Some("missing".into())),
        Err(ManifestError::Missing)
    );
}

#[test]
fn counts_entries() {
    let mut store = store();
    assert!(store.is_empty());
    insert(&mut store, "a", "t", "a.mp4", "video/mp4", b"a", 1, 1, 1, None).unwrap();
    assert_eq!(store.len(), 1);
}
