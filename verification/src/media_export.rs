//! Validated media export profiles for predictable video-editor output.
use vstd::prelude::*;
use crate::media_processing::{media_path_check, path_extension, MediaPath};
use crate::text::{decimal, owned, push_decimal, push_str, views};
use crate::time::{secs_nanos, secs_plain, Duration};

verus! {

#[derive(Debug, Clone, Copy, PartialEq, Eq, Structural)]
pub enum ExportError {
    UnsafePath,
    UnsupportedContainer,
    IncompatibleCodec,
    InvalidResolution,
    InvalidBitrate,
    InvalidDuration,
}

#[derive(Debug, Clone, Copy, PartialEq, Eq, Structural)]
pub enum VideoCodec {
    H264,
    H265,
    Vp9,
    Av1,
}

pub open spec fn video_codec_text(c: VideoCodec) -> Seq<char> {
    match c {
        VideoCodec::H264 => "libx264"@,
        VideoCodec::H265 => "libx265"@,
        VideoCodec::Vp9 => "libvpx-vp9"@,
        VideoCodec::Av1 => "libaom-av1"@,
    }
}

impl VideoCodec {
    fn argument(self) -> (s: &'static str)
        ensures
            s@ == video_codec_text(self),
    {
        match self {
            VideoCodec::H264 => "libx264",
            VideoCodec::H265 => "libx265",
            VideoCodec::Vp9 => "libvpx-vp9",
            VideoCodec::Av1 => "libaom-av1",
        }
    }
}

#[derive(Debug, Clone, Copy, PartialEq, Eq, Structural)]
pub enum AudioCodec {
    Aac,
    Opus,
}

pub open spec fn audio_codec_text(c: AudioCodec) -> Seq<char> {
    match c {
        AudioCodec::Aac => "aac"@,
        AudioCodec::Opus => "libopus"@,
    }
}

impl AudioCodec {
    fn argument(self) -> (s: &'static str)
        ensures
            s@ == audio_codec_text(self),
    {
        match self {
            AudioCodec::Aac => "aac",
            AudioCodec::Opus => "libopus",
        }
    }
}

#[derive(Debug, Clone, Copy, PartialEq, Eq, Structural)]
pub enum Container {
    Mp4,
    Webm,
    Mkv,
}

pub open spec fn container_extension(c: Container) -> Seq<char> {
    match c {
        Container::Mp4 => "mp4"@,
        Container::Webm => "webm"@,
        Container::Mkv => "mkv"@,
    }
}

impl Container {
    pub(crate) fn extension(self) -> (s: &'static str)
        ensures
            s@ == container_extension(self),
    {
        match self {
            Container::Mp4 => "mp4",
            Container::Webm => "webm",
            Container::Mkv => "mkv",
        }
    }
}

/// MP4 carries H.264 or H.265 with AAC; WebM carries VP9 or AV1 with Opus; Matroska carries
/// any of them.
pub open spec fn compatible(video: VideoCodec, audio: AudioCodec, container: Container) -> bool {
    match container {
        Container::Mp4 => (video is H264 || video is H265) && audio is Aac,
        Container::Webm => (video is Vp9 || video is Av1) && audio is Opus,
        Container::Mkv => true,
    }
}

fn compatible_exec(video: VideoCodec, audio: AudioCodec, container: Container) -> (r: bool)
    ensures
        r == compatible(video, audio, container),
{
    match container {
        Container::Mp4 => (video == VideoCodec::H264 || video == VideoCodec::H265) && audio
            == AudioCodec::Aac,
        Container::Webm => (video == VideoCodec::Vp9 || video == VideoCodec::Av1) && audio
            == AudioCodec::Opus,
        Container::Mkv => true,
    }
}

/// The checks of an export profile other than its output path, in order.
pub open spec fn profile_check(
    width: u16,
    height: u16,
    video_bitrate_kbps: u32,
    audio_bitrate_kbps: u32,
    video_codec: VideoCodec,
    audio_codec: AudioCodec,
    container: Container,
) -> Result<(), ExportError> {
    if !(16 <= width <= 7680) || !(16 <= height <= 4320) || width % 2 != 0 || height % 2 != 0 {
        Err(ExportError::InvalidResolution)
    } else if !(100 <= video_bitrate_kbps <= 100_000) || !(16 <= audio_bitrate_kbps <= 1_024) {
        Err(ExportError::InvalidBitrate)
    } else if !compatible(video_codec, audio_codec, container) {
        Err(ExportError::IncompatibleCodec)
    } else {
        Ok(())
    }
}

/// What `ExportProfile::new` answers.
pub open spec fn export_check(
    output: Seq<char>,
    width: u16,
    height: u16,
    video_bitrate_kbps: u32,
    audio_bitrate_kbps: u32,
    video_codec: VideoCodec,
    audio_codec: AudioCodec,
    container: Container,
) -> Result<(), ExportError> {
    if media_path_check(output) is Err {
        Err(ExportError::UnsafePath)
    } else if path_extension(output) != Some(container_extension(container)) {
        Err(ExportError::UnsupportedContainer)
    } else {
        profile_check(
            width,
            height,
            video_bitrate_kbps,
            audio_bitrate_kbps,
            video_codec,
            audio_codec,
            container,
        )
    }
}

#[derive(Debug, Clone, PartialEq, Eq)]
pub struct ExportProfile {
    pub output: MediaPath,
    pub width: u16,
    pub height: u16,
    pub video_bitrate_kbps: u32,
    pub audio_bitrate_kbps: u32,
    pub video_codec: VideoCodec,
    pub audio_codec: AudioCodec,
    pub container: Container,
    pub duration: Option<Duration>,
}

/// The FFmpeg arguments of an export profile.
pub open spec fn export_args(p: ExportProfile) -> Seq<Seq<char>> {
    seq![
        "-hide_banner"@,
        "-nostdin"@,
        "-y"@,
        "-vf"@,
        "scale="@ + decimal(p.width as nat) + ":"@ + decimal(p.height as nat),
        "-c:v"@,
        video_codec_text(p.video_codec),
        "-b:v"@,
        decimal(p.video_bitrate_kbps as nat) + "k"@,
        "-c:a"@,
        audio_codec_text(p.audio_codec),
        "-b:a"@,
        decimal(p.audio_bitrate_kbps as nat) + "k"@,
        "-movflags"@,
        "+faststart"@,
    ] + match p.duration {
        Some(d) => seq!["-t"@, secs_plain(d@)],
        None => seq![],
    } + seq![p.output@]
}

pub(crate) fn check_profile(
    width: u16,
    height: u16,
    video_bitrate_kbps: u32,
    audio_bitrate_kbps: u32,
    video_codec: VideoCodec,
    audio_codec: AudioCodec,
    container: Container,
) -> (r: Result<(), ExportError>)
    ensures
        r == profile_check(
            width,
            height,
            video_bitrate_kbps,
            audio_bitrate_kbps,
            video_codec,
            audio_codec,
            container,
        ),
{
    if !(16 <= width && width <= 7680) || !(16 <= height && height <= 4320) || width % 2 != 0
        || height % 2 != 0 {
        return Err(ExportError::InvalidResolution);
    }
    if !(100 <= video_bitrate_kbps && video_bitrate_kbps <= 100_000) || !(16 <= audio_bitrate_kbps
        && audio_bitrate_kbps <= 1_024) {
        return Err(ExportError::InvalidBitrate);
    }
    if !compatible_exec(video_codec, audio_codec, container) {
        return Err(ExportError::IncompatibleCodec);
    }
    Ok(())
}

fn push_arg(args: &mut Vec<String>, a: &str)
    ensures
        views(final(args)@) == views(old(args)@).push(a@),
{
    args.push(owned(a));
    assert(views(args@) =~= views(old(args)@).push(a@));
}

fn push_owned(args: &mut Vec<String>, a: String)
    ensures
        views(final(args)@) == views(old(args)@).push(a@),
{
    args.push(a);
    assert(views(args@) =~= views(old(args)@).push(a@));
}

impl ExportProfile {
    /// A profile writing `output` in `container`: even dimensions of 16x16 to 7680x4320,
    /// bitrates of 100 to 100000 kbit/s (video) and 16 to 1024 kbit/s (audio), and codecs the
    /// container carries.
    pub fn new(
        output: &str,
        width: u16,
        height: u16,
        video_bitrate_kbps: u32,
        audio_bitrate_kbps: u32,
        video_codec: VideoCodec,
        audio_codec: AudioCodec,
        container: Container,
    ) -> (r: Result<ExportProfile, ExportError>)
        ensures
            match r {
                Ok(p) => export_check(
                    output@,
                    width,
                    height,
                    video_bitrate_kbps,
                    audio_bitrate_kbps,
                    video_codec,
                    audio_codec,
                    container,
                ) is Ok && p.output@ == output@ && p.width == width && p.height == height
                    && p.video_bitrate_kbps == video_bitrate_kbps && p.audio_bitrate_kbps
                    == audio_bitrate_kbps && p.video_codec == video_codec && p.audio_codec
                    == audio_codec && p.container == container && p.duration is None,
                Err(e) => export_check(
                    output@,
                    width,
                    height,
                    video_bitrate_kbps,
                    audio_bitrate_kbps,
                    video_codec,
                    audio_codec,
                    container,
                ) == Err::<(), _>(e),
            },
    {
        let output = match MediaPath::new(output) {
            Ok(p) => p,
            Err(_) => {
                return Err(ExportError::UnsafePath);
            },
        };
        if !output.extension_is(container.extension()) {
            return Err(ExportError::UnsupportedContainer);
        }
        match check_profile(
            width,
            height,
            video_bitrate_kbps,
            audio_bitrate_kbps,
            video_codec,
            audio_codec,
            container,
        ) {
            Err(e) => Err(e),
            Ok(()) => Ok(
                ExportProfile {
                    output,
                    width,
                    height,
                    video_bitrate_kbps,
                    audio_bitrate_kbps,
                    video_codec,
                    audio_codec,
                    container,
                    duration: None,
                },
            ),
        }
    }

    /// Limits the export to `duration`, which must be positive and at most a day.
    pub fn duration(self, duration: Duration) -> (r: Result<ExportProfile, ExportError>)
        ensures
            r is Ok <==> duration@ > 0 && duration@ <= secs_nanos(86_400),
            r matches Ok(p) ==> p == (ExportProfile { duration: Some(duration), ..self }),
            r matches Err(e) ==> e == ExportError::InvalidDuration,
    {
        let day = Duration::from_secs(86_400);
        if duration.is_zero() || day.shorter_than(&duration) {
            return Err(ExportError::InvalidDuration);
        }
        let mut p = self;
        p.duration = Some(duration);
        Ok(p)
    }

    /// The FFmpeg arguments of the profile.
    pub fn command_line(&self) -> (args: Vec<String>)
        ensures
            views(args@) == export_args(*self),
    {
        let mut args: Vec<String> = Vec::new();
        push_arg(&mut args, "-hide_banner");
        push_arg(&mut args, "-nostdin");
        push_arg(&mut args, "-y");
        push_arg(&mut args, "-vf");
        let mut scale = owned("scale=");
        push_decimal(&mut scale, self.width as u64);
        push_str(&mut scale, ":");
        push_decimal(&mut scale, self.height as u64);
        push_owned(&mut args, scale);
        push_arg(&mut args, "-c:v");
        push_arg(&mut args, self.video_codec.argument());
        push_arg(&mut args, "-b:v");
        let mut vb = String::new();
        push_decimal(&mut vb, self.video_bitrate_kbps as u64);
        push_str(&mut vb, "k");
        push_owned(&mut args, vb);
        push_arg(&mut args, "-c:a");
        push_arg(&mut args, self.audio_codec.argument());
        push_arg(&mut args, "-b:a");
        let mut ab = String::new();
        push_decimal(&mut ab, self.audio_bitrate_kbps as u64);
        push_str(&mut ab, "k");
        push_owned(&mut args, ab);
        push_arg(&mut args, "-movflags");
        push_arg(&mut args, "+faststart");
        let ghost a0 = views(args@);
        if let Some(d) = self.duration {
            push_arg(&mut args, "-t");
            let mut t = String::new();
            d.push_secs_plain(&mut t);
            push_owned(&mut args, t);
        }
        let ghost a1 = views(args@);
        assert(a1 =~= a0 + match self.duration {
            Some(d) => seq!["-t"@, secs_plain(d@)],
            None => seq![],
        });
        push_owned(&mut args, self.output.display());
        assert(views(args@) =~= export_args(*self));
        args
    }
}

} // verus!
