use yaiko::json::{JsonNumber, JsonValue};
use yaiko::media_metadata::{
    check_input_size, duration_field, parse_metadata, validate_metadata, MediaMetadata, MediaMetadataError,
    MediaMetadataRequirements,
};

fn obj(entries: Vec<(&str, JsonValue)>) -> JsonValue {
    JsonValue::Object(entries.into_iter().map(|(k, v)| (k.to_string(), v)).collect())
}

fn text(s: &str) -> JsonValue {
    JsonValue::Str(s.to_string())
}

fn stream(kind: &str) -> JsonValue {
    obj(vec![("codec_type", text(kind))])
}

fn document(duration: JsonValue, name: &str, streams: Vec<JsonValue>) -> JsonValue {
    obj(vec![
        ("format", obj(vec![("duration", duration), ("format_name", text(name))])),
        ("streams", JsonValue::Array(streams)),
    ])
}

#[test]
fn string_duration_and_stream_counts() {
    let root = document(text("12.345"), "mov,mp4", vec![stream("video"), stream("audio")]);
    let req = MediaMetadataRequirements { max_duration_ms: 20_000, require_video: true, require_audio: true };
    let m = validate_metadata(&root, Some(12_345), req).unwrap();
    assert_eq!(m.duration_ms, 12_345);
    assert_eq!(m.format_name, "mov,mp4");
    assert_eq!(m.video_streams, 1);
    assert_eq!(m.audio_streams, 1);
    assert_eq!(duration_field(&root), Some(&text("12.345")));
}

#[test]
fn numeric_duration_and_limit() {
    let root = document(JsonValue::Number(JsonNumber::Float("3.5".into())), "webm", vec![stream("video")]);
    let tight = MediaMetadataRequirements { max_duration_ms: 3_000, ..Default::default() };
    assert_eq!(validate_metadata(&root, Some(3_500), tight), Err(MediaMetadataError::DurationExceeded));
    let loose = MediaMetadataRequirements { max_duration_ms: 4_000, ..Default::default() };
    assert_eq!(validate_metadata(&root, Some(3_500), loose).unwrap().duration_ms, 3_500);
}

#[test]
fn missing_format_and_streams() {
    assert_eq!(validate_metadata(&obj(vec![]), None, Default::default()), Err(MediaMetadataError::MissingFormat));
    let empty_name = document(text("1"), "", vec![stream("video")]);
    assert_eq!(validate_metadata(&empty_name, Some(1_000), Default::default()), Err(MediaMetadataError::MissingFormat));
    let no_video = document(text("1"), "mp4", vec![stream("audio")]);
    assert_eq!(validate_metadata(&no_video, Some(1_000), Default::default()), Err(MediaMetadataError::MissingVideo));
    let no_audio = document(text("1"), "mp4", vec![stream("video")]);
    let req = MediaMetadataRequirements { require_audio: true, ..Default::default() };
    assert_eq!(validate_metadata(&no_audio, Some(1_000), req), Err(MediaMetadataError::MissingAudio));
    let no_streams = obj(vec![("format", obj(vec![("duration", text("1")), ("format_name", text("mp4"))]))]);
    assert_eq!(validate_metadata(&no_streams, Some(1_000), Default::default()), Err(MediaMetadataError::InvalidJson));
}

#[test]
fn unreadable_durations_and_size() {
    let bad = document(text("NaN"), "mp4", vec![stream("video")]);
    assert_eq!(validate_metadata(&bad, None, Default::default()), Err(MediaMetadataError::InvalidDuration));
    let not_number = document(JsonValue::Bool(true), "mp4", vec![stream("video")]);
    assert_eq!(validate_metadata(&not_number, Some(5), Default::default()), Err(MediaMetadataError::InvalidDuration));
    assert_eq!(check_input_size(65 * 1024), Err(MediaMetadataError::TooLarge));
    assert_eq!(check_input_size(64 * 1024), Ok(()));
}

#[test]
fn defaults() {
    let d = MediaMetadataRequirements::default();
    assert_eq!(d, MediaMetadataRequirements { max_duration_ms: 86_400_000, require_video: true, require_audio: false });
}

// Seconds, as a number or as text, read as whole milliseconds (the floating-point step the
// library leaves to its caller).
fn duration_ms(value: &JsonValue) -> Option<u64> {
    let secs: f64 = match value {
        JsonValue::Str(t) => t.parse().ok()?,
        JsonValue::Number(JsonNumber::PosInt(u)) => *u as f64,
        JsonValue::Number(JsonNumber::NegInt(i)) => *i as f64,
        JsonValue::Number(JsonNumber::Float(t)) => t.parse().ok()?,
        _ => return None,
    };
    if !secs.is_finite() || secs < 0.0 {
        return None;
    }
    Some((secs * 1000.0).round() as u64)
}

fn parse_and_validate(input: &[u8], req: MediaMetadataRequirements) -> Result<MediaMetadata, MediaMetadataError> {
    let root = parse_metadata(input)?;
    let ms = duration_field(&root).and_then(duration_ms);
    validate_metadata(&root, ms, req)
}

fn valid() -> &'static [u8] {
    br#"{"format":{"duration":"12.345","format_name":"mov,mp4"},"streams":[{"codec_type":"video"},{"codec_type":"audio"}]}"#
}

#[test]
fn parses_string_duration_and_streams() {
    let metadata = parse_and_validate(
        valid(),
        MediaMetadataRequirements { max_duration_ms: 20_000, require_video: true, require_audio: true },
    )
    .unwrap();
    assert_eq!(metadata.duration_ms, 12_345);
    assert_eq!(metadata.video_streams, 1);
    assert_eq!(metadata.audio_streams, 1);
}

#[test]
fn accepts_numeric_duration_and_rejects_limits() {
    let input = br#"{"format":{"duration":3.5,"format_name":"webm"},"streams":[{"codec_type":"video"}]}"#;
    assert_eq!(
        parse_and_validate(input, MediaMetadataRequirements { max_duration_ms: 3_000, ..Default::default() }),
        Err(MediaMetadataError::DurationExceeded)
    );
    assert_eq!(
        parse_and_validate(input, MediaMetadataRequirements { max_duration_ms: 4_000, ..Default::default() })
            .unwrap()
            .duration_ms,
        3_500
    );
}

#[test]
fn rejects_malformed_and_missing_streams() {
    assert_eq!(parse_and_validate(b"{}", Default::default()), Err(MediaMetadataError::MissingFormat));
    let no_video = br#"{"format":{"duration":"1","format_name":"mp4"},"streams":[{"codec_type":"audio"}]}"#;
    assert_eq!(parse_and_validate(no_video, Default::default()), Err(MediaMetadataError::MissingVideo));
    let no_audio = br#"{"format":{"duration":"1","format_name":"mp4"},"streams":[{"codec_type":"video"}]}"#;
    assert_eq!(
        parse_and_validate(no_audio, MediaMetadataRequirements { require_audio: true, ..Default::default() }),
        Err(MediaMetadataError::MissingAudio)
    );
}

#[test]
fn rejects_large_and_non_finite_duration() {
    assert_eq!(parse_and_validate(&vec![b' '; 65 * 1024], Default::default()), Err(MediaMetadataError::TooLarge));
    let invalid = br#"{"format":{"duration":"NaN","format_name":"mp4"},"streams":[{"codec_type":"video"}]}"#;
    assert_eq!(parse_and_validate(invalid, Default::default()), Err(MediaMetadataError::InvalidDuration));
}

#[test]
fn parse_metadata_reads_the_tree_and_refuses_bad_json() {
    assert_eq!(parse_metadata(b"{\"a\":[1,-2,1.5,\"x\",null,true]}").unwrap(), obj(vec![(
        "a",
        JsonValue::Array(vec![
            JsonValue::Number(JsonNumber::PosInt(1)),
            JsonValue::Number(JsonNumber::NegInt(-2)),
            JsonValue::Number(JsonNumber::Float("1.5".into())),
            text("x"),
            JsonValue::Null,
            JsonValue::Bool(true),
        ]),
    )]));
    assert_eq!(parse_metadata(b"{not json"), Err(MediaMetadataError::InvalidJson));
    assert_eq!(parse_metadata(&vec![b' '; 65 * 1024 + 1]), Err(MediaMetadataError::TooLarge));
    assert_eq!(parse_metadata(&vec![b' '; 64 * 1024]), Err(MediaMetadataError::InvalidJson));
}
