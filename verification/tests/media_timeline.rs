use yaiko::media_timeline::{CaptionOverlay, TimelineError, TimelineSpec, Transition};
use yaiko::time::Duration;

#[test]
fn composes_ordered_clips_with_trim_and_caption() {
    let timeline = TimelineSpec::new("renders/final.mp4")
        .unwrap()
        .add_clip("a.mp4", Duration::from_secs(1), Some(Duration::from_secs(4)), Transition::Cut)
        .unwrap()
        .add_clip(
            "b.webm",
            Duration::from_secs(0),
            Some(Duration::from_secs(3)),
            Transition::Fade { duration: Duration::from_millis(250) },
        )
        .unwrap()
        .caption(CaptionOverlay::new("Hello: 100%".into(), Duration::from_secs(1), Duration::from_secs(2)).unwrap());
    let args = timeline.command_line().unwrap();
    assert!(args.iter().any(|value| value.contains("concat=n=2")));
    assert!(args.iter().any(|value| value.contains("Hello\\: 100\\%")));
    assert_eq!(timeline.total_trimmed_duration().unwrap(), Duration::from_secs(6));
}

#[test]
fn rejects_invalid_paths_formats_trims_and_empty_timelines() {
    assert_eq!(TimelineSpec::new("../out.mp4"), Err(TimelineError::UnsafePath));
    assert_eq!(TimelineSpec::new("out.jpg"), Err(TimelineError::UnsupportedFormat));
    let timeline = TimelineSpec::new("out.mp4").unwrap();
    assert_eq!(timeline.command_line(), Err(TimelineError::EmptyTimeline));
    assert_eq!(
        timeline.add_clip("clip.mp4", Duration::from_secs(4), Some(Duration::from_secs(4)), Transition::Cut),
        Err(TimelineError::InvalidTrim)
    );
}

#[test]
fn validates_music_and_caption_limits() {
    assert_eq!(
        CaptionOverlay::new("".into(), Duration::from_secs(0), Duration::from_secs(1)),
        Err(TimelineError::InvalidCaption)
    );
    let timeline = TimelineSpec::new("out.webm").unwrap();
    assert_eq!(timeline.clone().music("music.exe"), Err(TimelineError::UnsupportedFormat));
    assert!(timeline.music("music.mp3").is_ok());
}
