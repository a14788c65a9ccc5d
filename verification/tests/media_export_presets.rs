use yaiko::media_export::{AudioCodec, Container, ExportError, VideoCodec};
use yaiko::media_export_presets::{ExportPresetError, MediaExportPresetStore};
use yaiko::time::Duration;

#[test]
fn creates_versions_duration_and_args() {
    let mut s = MediaExportPresetStore::new(2);
    let p = s
        .create(
            "social".into(),
            "tenant".into(),
            "Social MP4".into(),
            1920,
            1080,
            8000,
            192,
            VideoCodec::H264,
            AudioCodec::Aac,
            Container::Mp4,
        )
        .unwrap();
    let p = s.duration("social", "tenant", p.version, Duration::from_secs(30)).unwrap();
    let a = s.command_line("social", "tenant", p.version, "input.mp4").unwrap();
    assert!(a.windows(2).any(|w| w == ["-i", "input.mp4"]));
    assert!(a.iter().any(|v| v == "libx264"));
}

#[test]
fn rejects_scope_revision_capacity_and_invalid_codecs() {
    let mut s = MediaExportPresetStore::new(1);
    assert_eq!(
        s.create("bad/id".into(), "tenant".into(), "x".into(), 1920, 1080, 8000, 128, VideoCodec::H264, AudioCodec::Aac, Container::Mp4),
        Err(ExportPresetError::InvalidId)
    );
    let p = s
        .create("x".into(), "tenant".into(), "x".into(), 1920, 1080, 8000, 128, VideoCodec::H264, AudioCodec::Aac, Container::Mp4)
        .unwrap();
    assert_eq!(s.command_line("x", "other", p.version, "in.mp4"), Err(ExportPresetError::ScopeMismatch));
    assert_eq!(s.command_line("x", "tenant", 99, "in.mp4"), Err(ExportPresetError::RevisionConflict));
    assert_eq!(
        s.create("y".into(), "tenant".into(), "y".into(), 1920, 1080, 8000, 128, VideoCodec::H264, AudioCodec::Opus, Container::Mp4),
        Err(ExportPresetError::Export(ExportError::IncompatibleCodec))
    );
}

#[test]
fn duration_moves_to_the_next_version() {
    let mut s = MediaExportPresetStore::new(2);
    let p = s
        .create("x".into(), "t".into(), "x".into(), 1280, 720, 3000, 128, VideoCodec::H264, AudioCodec::Aac, Container::Mp4)
        .unwrap();
    assert_eq!(p.version, 1);
    let q = s.duration("x", "t", 1, Duration::from_secs(10)).unwrap();
    assert_eq!(q.version, 2);
    assert_eq!(s.duration("x", "t", 1, Duration::from_secs(10)), Err(ExportPresetError::RevisionConflict));
}
