use yaiko::media_preview::{PreviewError, PreviewFormat, ThumbnailSpec};
use yaiko::time::Duration;

#[test]
fn builds_safe_thumbnail_arguments() {
    let spec = ThumbnailSpec::new(
        "uploads/video.mp4",
        "previews/thumb.jpg",
        Duration::from_millis(1250),
        640,
        360,
        PreviewFormat::Jpeg,
    )
    .unwrap();
    let args = spec.command_line();
    assert!(args.windows(2).any(|pair| pair == ["-ss", "1.250"]));
    assert!(args.iter().any(|arg| arg == "scale=640:360:force_original_aspect_ratio=decrease"));
    assert!(!args.join(" ").contains(";"));
}

#[test]
fn rejects_invalid_seek_dimensions_paths_and_extensions() {
    assert_eq!(
        ThumbnailSpec::new("../video.mp4", "thumb.jpg", Duration::from_secs(0), 640, 360, PreviewFormat::Jpeg),
        Err(PreviewError::UnsafePath)
    );
    assert_eq!(
        ThumbnailSpec::new("video.mp4", "thumb.png", Duration::from_secs(0), 640, 360, PreviewFormat::Jpeg),
        Err(PreviewError::UnsupportedFormat)
    );
    assert_eq!(
        ThumbnailSpec::new("video.mp4", "thumb.jpg", Duration::from_secs(86_401), 640, 360, PreviewFormat::Jpeg),
        Err(PreviewError::InvalidSeek)
    );
    assert_eq!(
        ThumbnailSpec::new("video.mp4", "thumb.jpg", Duration::from_secs(0), 8, 360, PreviewFormat::Jpeg),
        Err(PreviewError::InvalidDimensions)
    );
}

#[test]
fn supports_png_and_webp_outputs() {
    assert!(ThumbnailSpec::new("video.webm", "thumb.png", Duration::from_secs(0), 320, 180, PreviewFormat::Png).is_ok());
    assert_eq!(
        ThumbnailSpec::new("video.mkv", "thumb.webp", Duration::from_secs(0), 320, 180, PreviewFormat::Webp)
            .unwrap()
            .format,
        PreviewFormat::Webp
    );
}

#[test]
fn seek_is_rendered_with_three_decimals() {
    let spec = ThumbnailSpec::new("v.mp4", "t.jpg", Duration::from_secs(2), 320, 180, PreviewFormat::Jpeg).unwrap();
    let args = spec.command_line();
    assert!(args.windows(2).any(|pair| pair == ["-ss", "2.000"]));
}
