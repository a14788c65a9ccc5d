//! Validation of probed media metadata (a JSON document with a `format` object and a
//! `streams` array) against duration and stream requirements.
use vstd::prelude::*;
use crate::json::{json_document, parse_json, JsonValue, member, text_of};
use crate::text::{chars_of, owned, str_eq};

verus! {

#[derive(Debug, Clone, Copy, PartialEq, Eq, Structural)]
pub enum MediaMetadataError {
    TooLarge,
    InvalidJson,
    MissingFormat,
    InvalidDuration,
    DurationExceeded,
    MissingVideo,
    MissingAudio,
}

#[derive(Debug, Clone, PartialEq, Eq)]
pub struct MediaMetadata {
    pub duration_ms: u64,
    pub format_name: String,
    pub video_streams: u32,
    pub audio_streams: u32,
}

#[derive(Debug, Clone, Copy, PartialEq, Eq, Structural)]
pub struct MediaMetadataRequirements {
    pub max_duration_ms: u64,
    pub require_video: bool,
    pub require_audio: bool,
}

impl Default for MediaMetadataRequirements {
    /// At most a day, with a video stream and no audio stream required.
    fn default() -> (r: Self)
        ensures
            r == (MediaMetadataRequirements {
                max_duration_ms: 86_400_000,
                require_video: true,
                require_audio: false,
            }),
    {
        MediaMetadataRequirements { max_duration_ms: 86_400_000, require_video: true, require_audio: false }
    }
}

/// The largest metadata document accepted, in bytes.
pub const MAX_METADATA_BYTES: usize = 65_536;

/// Refuses a document of more than [`MAX_METADATA_BYTES`] bytes before it is parsed.
pub fn check_input_size(len: usize) -> (r: Result<(), MediaMetadataError>)
    ensures
        r is Ok <==> len <= MAX_METADATA_BYTES,
        r is Err ==> r == Err::<(), MediaMetadataError>(MediaMetadataError::TooLarge),
{
    if len > MAX_METADATA_BYTES {
        Err(MediaMetadataError::TooLarge)
    } else {
        Ok(())
    }
}

/// Reads a metadata document: refused when longer than [`MAX_METADATA_BYTES`] bytes, and
/// otherwise the JSON tree serde_json reads from it, or `InvalidJson`.
pub fn parse_metadata(input: &[u8]) -> (r: Result<JsonValue, MediaMetadataError>)
    ensures
        input@.len() > MAX_METADATA_BYTES ==> r == Err::<JsonValue, MediaMetadataError>(MediaMetadataError::TooLarge),
        input@.len() <= MAX_METADATA_BYTES ==> match json_document(input@) {
            Some(t) => r == Ok::<JsonValue, MediaMetadataError>(t),
            None => r == Err::<JsonValue, MediaMetadataError>(MediaMetadataError::InvalidJson),
        },
{
    if input.len() > MAX_METADATA_BYTES {
        return Err(MediaMetadataError::TooLarge);
    }
    match parse_json(input) {
        Some(t) => Ok(t),
        None => Err(MediaMetadataError::InvalidJson),
    }
}

/// The member `key` of the member `outer` of `root`.
pub open spec fn nested(root: JsonValue, outer: Seq<char>, key: Seq<char>) -> Option<JsonValue> {
    match member(root, outer) {
        Some(o) => member(o, key),
        None => None,
    }
}

/// The number of streams whose `codec_type` is the string `kind`.
pub open spec fn count_codec(streams: Seq<JsonValue>, kind: Seq<char>) -> nat
    decreases streams.len(),
{
    if streams.len() == 0 {
        0
    } else {
        count_codec(streams.drop_last(), kind) + if (match member(streams.last(), "codec_type"@) {
            Some(t) => text_of(t) == Some(kind),
            None => false,
        }) {
            1nat
        } else {
            0nat
        }
    }
}

/// What the metadata in `root` gives, where `duration_ms` is the reading of its
/// `format.duration` in whole milliseconds (`None` when it is no finite, non-negative number).
pub open spec fn metadata_outcome(root: JsonValue, duration_ms: Option<u64>, req: MediaMetadataRequirements) -> Result<
    (Seq<char>, u64, u32, u32),
    MediaMetadataError,
> {
    let name = match nested(root, "format"@, "format_name"@) {
        Some(v) => text_of(v),
        None => None,
    };
    let duration = nested(root, "format"@, "duration"@);
    if member(root, "format"@) is None || !(name matches Some(n) && n.len() > 0) {
        Err(MediaMetadataError::MissingFormat)
    } else if !(duration matches Some(d) && (d is Str || d is Number)) || duration_ms is None {
        Err(MediaMetadataError::InvalidDuration)
    } else if duration_ms->0 > req.max_duration_ms {
        Err(MediaMetadataError::DurationExceeded)
    } else {
        match member(root, "streams"@) {
            Some(JsonValue::Array(streams)) => {
                let video = count_codec(streams@, "video"@) as u32;
                let audio = count_codec(streams@, "audio"@) as u32;
                if req.require_video && video == 0 {
                    Err(MediaMetadataError::MissingVideo)
                } else if req.require_audio && audio == 0 {
                    Err(MediaMetadataError::MissingAudio)
                } else {
                    Ok((name->0, duration_ms->0, video, audio))
                }
            },
            _ => Err(MediaMetadataError::InvalidJson),
        }
    }
}

/// The `format.duration` member of the metadata, which the caller reads as a number.
pub fn duration_field(root: &JsonValue) -> (r: Option<&JsonValue>)
    ensures
        match nested(*root, "format"@, "duration"@) {
            Some(v) => r matches Some(x) && *x == v,
            None => r is None,
        },
{
    match root.get("format") {
        Some(format) => format.get("duration"),
        None => None,
    }
}

fn count_streams(streams: &Vec<JsonValue>, kind: &str) -> (n: usize)
    ensures
        n == count_codec(streams@, kind@),
{
    let mut n: usize = 0;
    let mut i: usize = 0;
    while i < streams.len()
        invariant
            i <= streams.len(),
            n == count_codec(streams@.take(i as int), kind@),
            n <= i,
        decreases streams.len() - i,
    {
        assert(streams@.take(i + 1).drop_last() =~= streams@.take(i as int));
        assert(streams@.take(i + 1).last() == streams@[i as int]);
        let matches = match streams[i].get("codec_type") {
            Some(t) => match t.as_str() {
                Some(s) => str_eq(s, kind),
                None => false,
            },
            None => false,
        };
        if matches {
            n = n + 1;
        }
        i = i + 1;
    }
    assert(streams@.take(i as int) =~= streams@);
    n
}

/// Checks the metadata in `root`: a `format` object with a non-empty `format_name` and a
/// `duration` given as text or a number, read as `duration_ms` and within the limit; then
/// a `streams` array holding the required video and audio streams.
pub fn validate_metadata(root: &JsonValue, duration_ms: Option<u64>, requirements: MediaMetadataRequirements) -> (r:
    Result<MediaMetadata, MediaMetadataError>)
    ensures
        match metadata_outcome(*root, duration_ms, requirements) {
            Ok((name, ms, video, audio)) => r matches Ok(m) && m.format_name@ == name && m.duration_ms == ms
                && m.video_streams == video && m.audio_streams == audio,
            Err(e) => r == Err::<MediaMetadata, MediaMetadataError>(e),
        },
{
    let format = match root.get("format") {
        Some(f) => f,
        None => return Err(MediaMetadataError::MissingFormat),
    };
    let format_name = match format.get("format_name") {
        Some(v) => match v.as_str() {
            Some(s) => {
                if chars_of(s).len() == 0 {
                    return Err(MediaMetadataError::MissingFormat);
                }
                owned(s)
            },
            None => return Err(MediaMetadataError::MissingFormat),
        },
        None => return Err(MediaMetadataError::MissingFormat),
    };
    let readable = match format.get("duration") {
        Some(d) => match d {
            JsonValue::Str(_) => true,
            JsonValue::Number(_) => true,
            _ => false,
        },
        None => false,
    };
    if !readable {
        return Err(MediaMetadataError::InvalidDuration);
    }
    let ms = match duration_ms {
        Some(ms) => ms,
        None => return Err(MediaMetadataError::InvalidDuration),
    };
    if ms > requirements.max_duration_ms {
        return Err(MediaMetadataError::DurationExceeded);
    }
    let streams = match root.get("streams") {
        Some(s) => match s.as_array() {
            Some(a) => a,
            None => return Err(MediaMetadataError::InvalidJson),
        },
        None => return Err(MediaMetadataError::InvalidJson),
    };
    let video = count_streams(streams, "video") as u32;
    let audio = count_streams(streams, "audio") as u32;
    if requirements.require_video && video == 0 {
        return Err(MediaMetadataError::MissingVideo);
    }
    if requirements.require_audio && audio == 0 {
        return Err(MediaMetadataError::MissingAudio);
    }
    Ok(MediaMetadata { duration_ms: ms, format_name, video_streams: video, audio_streams: audio })
}

} // verus!
