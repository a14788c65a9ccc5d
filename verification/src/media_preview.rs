//! Safe thumbnail and preview extraction specifications.
use vstd::prelude::*;
use crate::media_processing::{has_extension, media_path_check, path_extension, MediaPath};
use crate::text::{decimal, decimal_padded, owned, push_decimal, push_decimal_padded, push_str, views};
use crate::time::{secs_nanos, Duration, NANOS_PER_MILLI, NANOS_PER_SEC};

verus! {

#[derive(Debug, Clone, Copy, PartialEq, Eq, Structural)]
pub enum PreviewError {
    UnsafePath,
    UnsupportedFormat,
    InvalidSeek,
    InvalidDimensions,
}

#[derive(Debug, Clone, Copy, PartialEq, Eq, Structural)]
pub enum PreviewFormat {
    Jpeg,
    Png,
    Webp,
}

pub open spec fn format_extension(f: PreviewFormat) -> Seq<char> {
    match f {
        PreviewFormat::Jpeg => "jpg"@,
        PreviewFormat::Png => "png"@,
        PreviewFormat::Webp => "webp"@,
    }
}

pub open spec fn format_codec(f: PreviewFormat) -> Seq<char> {
    match f {
        PreviewFormat::Jpeg => "mjpeg"@,
        PreviewFormat::Png => "png"@,
        PreviewFormat::Webp => "libwebp"@,
    }
}

impl PreviewFormat {
    fn extension(self) -> (s: &'static str)
        ensures
            s@ == format_extension(self),
    {
        match self {
            PreviewFormat::Jpeg => "jpg",
            PreviewFormat::Png => "png",
            PreviewFormat::Webp => "webp",
        }
    }

    fn codec(self) -> (s: &'static str)
        ensures
            s@ == format_codec(self),
    {
        match self {
            PreviewFormat::Jpeg => "mjpeg",
            PreviewFormat::Png => "png",
            PreviewFormat::Webp => "libwebp",
        }
    }
}

#[derive(Debug, Clone, PartialEq, Eq)]
pub struct ThumbnailSpec {
    pub input: MediaPath,
    pub output: MediaPath,
    pub seek: Duration,
    pub width: u16,
    pub height: u16,
    pub format: PreviewFormat,
}

pub open spec fn preview_inputs() -> Seq<Seq<char>> {
    seq!["mp4"@, "mov"@, "webm"@, "mkv"@]
}

/// What `ThumbnailSpec::new` answers.
pub open spec fn thumbnail_check(
    input: Seq<char>,
    output: Seq<char>,
    seek: nat,
    width: u16,
    height: u16,
    format: PreviewFormat,
) -> Result<(), PreviewError> {
    if media_path_check(input) is Err || media_path_check(output) is Err {
        Err(PreviewError::UnsafePath)
    } else if !has_extension(input, preview_inputs()) {
        Err(PreviewError::UnsupportedFormat)
    } else if path_extension(output) != Some(format_extension(format)) {
        Err(PreviewError::UnsupportedFormat)
    } else if seek > secs_nanos(86_400) {
        Err(PreviewError::InvalidSeek)
    } else if !(16 <= width <= 4096) || !(16 <= height <= 4096) {
        Err(PreviewError::InvalidDimensions)
    } else {
        Ok(())
    }
}

/// Whole seconds, a dot and three digits of milliseconds (truncated).
pub open spec fn seek_text(nanos: nat) -> Seq<char> {
    decimal(nanos / (NANOS_PER_SEC as nat)) + "."@ + decimal_padded(
        (nanos % (NANOS_PER_SEC as nat)) / (NANOS_PER_MILLI as nat),
        3,
    )
}

/// The FFmpeg arguments extracting one frame.
pub open spec fn thumbnail_args(t: ThumbnailSpec) -> Seq<Seq<char>> {
    seq![
        "-hide_banner"@,
        "-nostdin"@,
        "-y"@,
        "-ss"@,
        seek_text(t.seek@),
        "-i"@,
        t.input@,
        "-frames:v"@,
        "1"@,
        "-vf"@,
        "scale="@ + decimal(t.width as nat) + ":"@ + decimal(t.height as nat)
            + ":force_original_aspect_ratio=decrease"@,
        "-c:v"@,
        format_codec(t.format),
        t.output@,
    ]
}

fn in_preview_inputs(p: &MediaPath) -> (r: bool)
    ensures
        r == has_extension(p@, preview_inputs()),
{
    let r = p.extension_is("mp4") || p.extension_is("mov") || p.extension_is("webm")
        || p.extension_is("mkv");
    proof {
        let l = preview_inputs();
        if let Some(e) = path_extension(p@) {
            if l.contains(e) {
                let k = choose|k: int| 0 <= k < l.len() && l[k] == e;
                assert(k == 0 || k == 1 || k == 2 || k == 3);
            }
            if r {
                if e == "mp4"@ {
                    assert(l[0] == e);
                } else if e == "mov"@ {
                    assert(l[1] == e);
                } else if e == "webm"@ {
                    assert(l[2] == e);
                } else {
                    assert(l[3] == e);
                }
            }
        }
    }
    r
}

fn push_arg(args: &mut Vec<String>, a: &str)
    ensures
        views(final(args)@) == views(old(args)@).push(a@),
{
    args.push(owned(a));
    assert(views(args@) =~= views(old(args)@).push(a@));
}

fn push_owned(args: &mut Vec<String>, a: String)
    ensures
        views(final(args)@) == views(old(args)@).push(a@),
{
    args.push(a);
    assert(views(args@) =~= views(old(args)@).push(a@));
}

impl ThumbnailSpec {
    /// One frame of a video at `seek`, scaled to fit `width` x `height` (16 to 4096 each),
    /// written as an image whose extension matches `format`.
    pub fn new(
        input: &str,
        output: &str,
        seek: Duration,
        width: u16,
        height: u16,
        format: PreviewFormat,
    ) -> (r: Result<ThumbnailSpec, PreviewError>)
        ensures
            match r {
                Ok(t) => thumbnail_check(input@, output@, seek@, width, height, format) is Ok
                    && t.input@ == input@ && t.output@ == output@ && t.seek == seek && t.width
                    == width && t.height == height && t.format == format,
                Err(e) => thumbnail_check(input@, output@, seek@, width, height, format) == Err::<
                    (),
                    _,
                >(e),
            },
    {
        let input = match MediaPath::new(input) {
            Ok(p) => p,
            Err(_) => {
                return Err(PreviewError::UnsafePath);
            },
        };
        let output = match MediaPath::new(output) {
            Ok(p) => p,
            Err(_) => {
                return Err(PreviewError::UnsafePath);
            },
        };
        if !in_preview_inputs(&input) {
            return Err(PreviewError::UnsupportedFormat);
        }
        if !output.extension_is(format.extension()) {
            return Err(PreviewError::UnsupportedFormat);
        }
        if Duration::from_secs(86_400).shorter_than(&seek) {
            return Err(PreviewError::InvalidSeek);
        }
        if !(16 <= width && width <= 4096) || !(16 <= height && height <= 4096) {
            return Err(PreviewError::InvalidDimensions);
        }
        Ok(ThumbnailSpec { input, output, seek, width, height, format })
    }

    /// The FFmpeg arguments extracting the frame.
    pub fn command_line(&self) -> (args: Vec<String>)
        ensures
            views(args@) == thumbnail_args(*self),
    {
        let mut args: Vec<String> = Vec::new();
        push_arg(&mut args, "-hide_banner");
        push_arg(&mut args, "-nostdin");
        push_arg(&mut args, "-y");
        push_arg(&mut args, "-ss");
        let mut seek = String::new();
        push_decimal(&mut seek, self.seek.as_secs());
        push_str(&mut seek, ".");
        push_decimal_padded(&mut seek, self.seek.subsec_millis() as u64, 3);
        push_owned(&mut args, seek);
        push_arg(&mut args, "-i");
        push_owned(&mut args, self.input.display());
        push_arg(&mut args, "-frames:v");
        push_arg(&mut args, "1");
        push_arg(&mut args, "-vf");
        let mut scale = owned("scale=");
        push_decimal(&mut scale, self.width as u64);
        push_str(&mut scale, ":");
        push_decimal(&mut scale, self.height as u64);
        push_str(&mut scale, ":force_original_aspect_ratio=decrease");
        push_owned(&mut args, scale);
        push_arg(&mut args, "-c:v");
        push_arg(&mut args, self.format.codec());
        push_owned(&mut args, self.output.display());
        assert(views(args@) =~= thumbnail_args(*self));
        args
    }
}

} // verus!
