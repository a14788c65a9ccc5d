use yaiko::media_processing::{CaptionTrack, FfmpegJobSpec, MediaError, MediaPath, MusicTrack};
use yaiko::time::Duration;

#[test]
fn rejects_unsafe_paths_and_extensions() {
    assert_eq!(MediaPath::new("../secret"), Err(MediaError::Traversal));
    assert_eq!(MediaPath::new("/tmp/video.mp4"), Err(MediaError::AbsolutePath));
    assert_eq!(MusicTrack::new("audio.exe", 100), Err(MediaError::UnsupportedExtension));
}

#[test]
fn builds_composition_without_shell_interpolation() {
    let spec = FfmpegJobSpec::new("uploads/input.mp4", "renders/output.mp4")
        .unwrap()
        .with_caption(CaptionTrack::new("uploads/captions.srt", Some("en-US".into())).unwrap())
        .with_music(MusicTrack::new("uploads/music.mp3", 50).unwrap());
    let args = spec.command_line();
    assert!(args.windows(2).any(|v| v == ["-map", "0:v:0"]));
    assert!(args.iter().any(|v| v == "volume=0.50"));
    assert!(!args.join(" ").contains("|"));
}

#[test]
fn enforces_duration_bounds() {
    let spec = FfmpegJobSpec::new("input.mp4", "output.mp4").unwrap();
    assert_eq!(spec.clone().max_duration(Duration::from_secs(0)), Err(MediaError::InvalidDuration));
    assert!(spec.max_duration(Duration::from_secs(60)).unwrap().max_duration.is_some());
}

#[test]
fn paths_report_extension_and_text() {
    let p = MediaPath::new("a/b/clip.MP4").unwrap();
    assert_eq!(p.as_path(), "a/b/clip.MP4");
    assert_eq!(p.display(), "a/b/clip.MP4");
    assert_eq!(p.extension().as_deref(), Some("MP4"));
    assert!(p.extension_is("MP4"));
    assert_eq!(MediaPath::new(""), Err(MediaError::EmptyPath));
}
