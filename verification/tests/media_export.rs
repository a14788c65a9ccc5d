use yaiko::media_export::{AudioCodec, Container, ExportError, ExportProfile, VideoCodec};
use yaiko::time::Duration;

#[test]
fn builds_mp4_export_profile() {
    let profile = ExportProfile::new(
        "renders/final.mp4",
        1920,
        1080,
        8000,
        192,
        VideoCodec::H264,
        AudioCodec::Aac,
        Container::Mp4,
    )
    .unwrap()
    .duration(Duration::from_secs(60))
    .unwrap();
    let args = profile.command_line();
    assert!(args.iter().any(|arg| arg == "scale=1920:1080"));
    assert!(args.iter().any(|arg| arg == "8000k"));
    assert!(args.iter().any(|arg| arg == "libx264"));
    assert!(args.iter().any(|arg| arg == "+faststart"));
}

#[test]
fn validates_compatibility_resolution_bitrate_and_paths() {
    assert_eq!(
        ExportProfile::new("out.webm", 1920, 1080, 8000, 128, VideoCodec::H264, AudioCodec::Aac, Container::Webm),
        Err(ExportError::IncompatibleCodec)
    );
    assert_eq!(
        ExportProfile::new("../out.mp4", 1920, 1080, 8000, 128, VideoCodec::H264, AudioCodec::Aac, Container::Mp4),
        Err(ExportError::UnsafePath)
    );
    assert_eq!(
        ExportProfile::new("out.mp4", 1919, 1080, 8000, 128, VideoCodec::H264, AudioCodec::Aac, Container::Mp4),
        Err(ExportError::InvalidResolution)
    );
    assert_eq!(
        ExportProfile::new("out.mp4", 1920, 1080, 99, 128, VideoCodec::H264, AudioCodec::Aac, Container::Mp4),
        Err(ExportError::InvalidBitrate)
    );
}

#[test]
fn supports_webm_and_mkv_and_rejects_duration_overflow() {
    assert!(ExportProfile::new("out.webm", 1280, 720, 3000, 128, VideoCodec::Vp9, AudioCodec::Opus, Container::Webm).is_ok());
    assert!(ExportProfile::new("out.mkv", 1280, 720, 3000, 128, VideoCodec::Av1, AudioCodec::Aac, Container::Mkv).is_ok());
    let profile = ExportProfile::new("out.mp4", 1280, 720, 3000, 128, VideoCodec::H264, AudioCodec::Aac, Container::Mp4)
        .unwrap();
    assert_eq!(profile.duration(Duration::from_secs(86_401)), Err(ExportError::InvalidDuration));
}

#[test]
fn zero_duration_is_refused_and_a_day_is_accepted() {
    let profile = ExportProfile::new("out.mp4", 1280, 720, 3000, 128, VideoCodec::H264, AudioCodec::Aac, Container::Mp4)
        .unwrap();
    assert_eq!(profile.clone().duration(Duration::from_secs(0)), Err(ExportError::InvalidDuration));
    assert!(profile.duration(Duration::from_secs(86_400)).is_ok());
}
