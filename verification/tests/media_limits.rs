use yaiko::media_limits::{MediaFacts, MediaLimits, MediaLimitsError};

fn limits() -> MediaLimits {
    MediaLimits {
        max_width: 3840,
        max_height: 2160,
        min_duration_ms: 1000,
        max_duration_ms: 3_600_000,
        max_frame_rate_milli: 60_000,
        max_aspect_ratio_milli: 3_000,
    }
}

fn facts() -> MediaFacts {
    MediaFacts { width: 1920, height: 1080, duration_ms: 60_000, frame_rate_milli: 30_000 }
}

#[test]
fn accepts_compatible_media_facts() {
    assert_eq!(limits().validate(facts()), Ok(()));
}

#[test]
fn rejects_dimensions_duration_frame_rate_and_ratio() {
    let mut value = facts();
    value.width = 4000;
    assert_eq!(limits().validate(value), Err(MediaLimitsError::TooWide));
    value = facts();
    value.duration_ms = 500;
    assert_eq!(limits().validate(value), Err(MediaLimitsError::TooShort));
    value = facts();
    value.frame_rate_milli = 61_000;
    assert_eq!(limits().validate(value), Err(MediaLimitsError::FrameRateExceeded));
    value = facts();
    value.width = 3840;
    value.height = 1000;
    assert_eq!(limits().validate(value), Err(MediaLimitsError::AspectRatioMismatch));
}

#[test]
fn rejects_zero_and_overflow_sensitive_values() {
    let mut value = facts();
    value.width = 0;
    assert_eq!(limits().validate(value), Err(MediaLimitsError::InvalidDimensions));
    value = facts();
    value.height = 0;
    assert_eq!(limits().validate(value), Err(MediaLimitsError::InvalidDimensions));
    value = facts();
    value.duration_ms = 3_600_001;
    assert_eq!(limits().validate(value), Err(MediaLimitsError::TooLong));
}

#[test]
fn rejects_tall_and_zero_rate() {
    let mut value = facts();
    value.height = 2161;
    value.width = 2000;
    assert_eq!(limits().validate(value), Err(MediaLimitsError::TooTall));
    value = facts();
    value.frame_rate_milli = 0;
    assert_eq!(limits().validate(value), Err(MediaLimitsError::InvalidFrameRate));
}
