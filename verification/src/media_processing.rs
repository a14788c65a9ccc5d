//! Safe media-processing specifications for FFmpeg-backed workers.
//!
//! This module only builds typed process arguments; callers run the program with the
//! returned arguments directly, never through a shell.
use vstd::prelude::*;
use crate::text::{
    chars_of, char_is_ascii_alphanumeric, decimal, decimal_padded, is_ascii_alphanumeric,
    last_index, owned, push_char, push_decimal, push_decimal_padded, push_str, rfind_char,
    split_on, split_str, str_eq, substring, views,
};
use crate::time::{secs_nanos, Duration, NANOS_PER_SEC};
use crate::media_timeline::{arg_count, lemma_arg_count_add, lemma_arg_count_none, lemma_arg_count_one, lemma_not_flag};

verus! {

#[derive(Debug, Clone, Copy, PartialEq, Eq, Structural)]
pub enum MediaError {
    EmptyPath,
    AbsolutePath,
    Traversal,
    UnsupportedExtension,
    InvalidText,
    InvalidDuration,
}

/// A relative path that never climbs out of its base directory.
#[derive(Debug, Clone, PartialEq, Eq)]
pub struct MediaPath(String);

impl View for MediaPath {
    type V = Seq<char>;

    closed spec fn view(&self) -> Seq<char> {
        self.0@
    }
}

/// What `MediaPath::new` answers for a path.
pub open spec fn media_path_check(p: Seq<char>) -> Result<(), MediaError> {
    if p.len() == 0 {
        Err(MediaError::EmptyPath)
    } else if p[0] == '/' {
        Err(MediaError::AbsolutePath)
    } else if split_on(p, '/').contains(".."@) {
        Err(MediaError::Traversal)
    } else {
        Ok(())
    }
}

/// The last named segment of a path: neither empty nor `.`.
pub open spec fn last_name(segments: Seq<Seq<char>>) -> Option<Seq<char>>
    decreases segments.len(),
{
    if segments.len() == 0 {
        None
    } else if segments.last().len() > 0 && segments.last() != "."@ {
        Some(segments.last())
    } else {
        last_name(segments.drop_last())
    }
}

/// The extension of a file name: what follows its last `.`, unless that `.` is its first
/// character.
pub open spec fn name_extension(name: Seq<char>) -> Option<Seq<char>> {
    match last_index(name, '.') {
        Some(k) => if k > 0 {
            Some(name.skip(k + 1))
        } else {
            None
        },
        None => None,
    }
}

/// The extension of a path, as `Path::extension` gives it.
pub open spec fn path_extension(p: Seq<char>) -> Option<Seq<char>> {
    match last_name(split_on(p, '/')) {
        Some(name) => name_extension(name),
        None => None,
    }
}

/// Whether the path has one of the given extensions.
pub open spec fn has_extension(p: Seq<char>, allowed: Seq<Seq<char>>) -> bool {
    path_extension(p) matches Some(e) && allowed.contains(e)
}

fn contains_segment(segs: &Vec<String>, name: &str) -> (r: bool)
    ensures
        r == views(segs@).contains(name@),
{
    crate::text::contains_str(segs, name)
}

/// The extension of `p`, as `Path::extension` gives it.
pub fn extension_of(p: &str) -> (r: Option<String>)
    ensures
        r matches Some(e) ==> path_extension(p@) == Some(e@),
        r is None ==> path_extension(p@) is None,
{
    let segs = split_str(p, '/');
    let ghost sv = views(segs@);
    let mut j: usize = segs.len();
    assert(sv.take(sv.len() as int) =~= sv);
    while j > 0 && (segs[j - 1].as_str().is_empty() || str_eq(segs[j - 1].as_str(), "."))
        invariant
            j <= segs@.len(),
            sv == views(segs@),
            last_name(sv) == last_name(sv.take(j as int)),
        decreases j,
    {
        proof {
            assert(sv.take(j as int).drop_last() =~= sv.take(j - 1));
            assert(sv.take(j as int).last() == segs@[j - 1]@);
        }
        j = j - 1;
    }
    if j == 0 {
        assert(sv.take(0).len() == 0);
        return None;
    }
    proof {
        assert(sv.take(j as int).last() == segs@[j - 1]@);
    }
    let name = segs[j - 1].as_str();
    let v = chars_of(name);
    match rfind_char(&v, '.') {
        Some(k) => {
            if k > 0 {
                let e = substring(&v, k + 1, v.len());
                assert(e@ =~= name@.skip(k + 1));
                Some(e)
            } else {
                None
            }
        },
        None => None,
    }
}

fn extension_in(p: &str, allowed: &[&str]) -> (r: bool)
    ensures
        r == (path_extension(p@) matches Some(e) && exists|i: int|
            0 <= i < allowed@.len() && allowed@[i]@ == e),
{
    match extension_of(p) {
        None => false,
        Some(e) => {
            let mut i: usize = 0;
            while i < allowed.len()
                invariant
                    i <= allowed@.len(),
                    path_extension(p@) == Some(e@),
                    forall|j: int| 0 <= j < i ==> allowed@[j]@ != e@,
                decreases allowed@.len() - i,
            {
                if str_eq(allowed[i], e.as_str()) {
                    assert(allowed@[i as int]@ == e@);
                    return true;
                }
                i = i + 1;
            }
            false
        },
    }
}

impl MediaPath {
    /// Accepts a non-empty relative path none of whose segments is `..`.
    pub fn new(path: &str) -> (r: Result<MediaPath, MediaError>)
        ensures
            match r {
                Ok(p) => media_path_check(path@) is Ok && p@ == path@,
                Err(e) => media_path_check(path@) == Err::<(), _>(e),
            },
    {
        let v = chars_of(path);
        if v.len() == 0 {
            return Err(MediaError::EmptyPath);
        }
        if v[0] == '/' {
            return Err(MediaError::AbsolutePath);
        }
        let segs = split_str(path, '/');
        if contains_segment(&segs, "..") {
            return Err(MediaError::Traversal);
        }
        Ok(MediaPath(owned(path)))
    }

    /// A copy of the path.
    pub fn copied(&self) -> (r: MediaPath)
        ensures
            r == *self,
    {
        MediaPath(self.0.clone())
    }

    pub fn as_path(&self) -> (r: &str)
        ensures
            r@ == self@,
    {
        self.0.as_str()
    }

    pub fn display(&self) -> (r: String)
        ensures
            r@ == self@,
    {
        self.0.clone()
    }

    /// Whether the path's extension is `e`.
    pub fn extension_is(&self, e: &str) -> (r: bool)
        ensures
            r == (path_extension(self@) == Some(e@)),
    {
        match extension_of(self.0.as_str()) {
            Some(x) => str_eq(x.as_str(), e),
            None => false,
        }
    }

    /// The extension of the path.
    pub fn extension(&self) -> (r: Option<String>)
        ensures
            r matches Some(e) ==> path_extension(self@) == Some(e@),
            r is None ==> path_extension(self@) is None,
    {
        extension_of(self.0.as_str())
    }
}

#[derive(Debug, Clone, PartialEq, Eq)]
pub struct CaptionTrack {
    pub file: MediaPath,
    pub language: Option<String>,
}

pub open spec fn language_char(c: char) -> bool {
    is_ascii_alphanumeric(c) || c == '-' || c == '_'
}

/// 1 to 16 characters, each an ASCII letter or digit, `-` or `_`.
pub open spec fn valid_language(l: Seq<char>) -> bool {
    l.len() > 0 && crate::text::byte_len(l) <= 16 && forall|i: int|
        0 <= i < l.len() ==> language_char(#[trigger] l[i])
}

pub open spec fn caption_extensions() -> Seq<Seq<char>> {
    seq!["srt"@, "vtt"@, "ass"@]
}

pub open spec fn music_extensions() -> Seq<Seq<char>> {
    seq!["mp3"@, "wav"@, "m4a"@, "aac"@, "ogg"@]
}

pub open spec fn input_extensions() -> Seq<Seq<char>> {
    seq!["mp4"@, "mov"@, "webm"@, "mkv"@]
}

pub open spec fn output_extensions() -> Seq<Seq<char>> {
    seq!["mp4"@, "webm"@, "mkv"@]
}

proof fn lemma_in_list(e: Seq<char>, allowed: Seq<Seq<char>>, given: Seq<&str>)
    requires
        given.len() == allowed.len(),
        forall|i: int| 0 <= i < given.len() ==> given[i]@ == #[trigger] allowed[i],
    ensures
        (exists|i: int| 0 <= i < given.len() && given[i]@ == e) == allowed.contains(e),
{
    if allowed.contains(e) {
        let k = choose|k: int| 0 <= k < allowed.len() && allowed[k] == e;
        assert(given[k]@ == e);
    }
    if exists|i: int| 0 <= i < given.len() && given[i]@ == e {
        let k = choose|k: int| 0 <= k < given.len() && given[k]@ == e;
        assert(allowed[k] == e);
    }
}

fn valid_language_exec(l: &str) -> (r: bool)
    ensures
        r == valid_language(l@),
{
    if l.is_empty() || l.len() > 16 {
        return false;
    }
    let v = chars_of(l);
    let mut i: usize = 0;
    while i < v.len()
        invariant
            v@ == l@,
            i <= v.len(),
            forall|j: int| 0 <= j < i ==> language_char(#[trigger] l@[j]),
        decreases v.len() - i,
    {
        let c = v[i];
        if !(char_is_ascii_alphanumeric(c) || c == '-' || c == '_') {
            return false;
        }
        i = i + 1;
    }
    true
}

impl CaptionTrack {
    /// A subtitle file (`srt`, `vtt` or `ass`) with an optional language tag.
    pub fn new(file: &str, language: Option<String>) -> (r: Result<CaptionTrack, MediaError>)
        ensures
            match r {
                Ok(c) => media_path_check(file@) is Ok && has_extension(
                    file@,
                    caption_extensions(),
                ) && (language matches Some(l) ==> valid_language(l@)) && c.file@ == file@
                    && c.language == language,
                Err(e) => e == if media_path_check(file@) is Err {
                    media_path_check(file@)->Err_0
                } else if !has_extension(file@, caption_extensions()) {
                    MediaError::UnsupportedExtension
                } else {
                    MediaError::InvalidText
                },
            },
    {
        let file = match MediaPath::new(file) {
            Ok(p) => p,
            Err(e) => {
                return Err(e);
            },
        };
        let allowed = ["srt", "vtt", "ass"];
        proof {
            reveal_strlit("srt");
            reveal_strlit("vtt");
            reveal_strlit("ass");
            if let Some(e) = path_extension(file@) {
                lemma_in_list(e, caption_extensions(), allowed@);
            }
        }
        if !extension_in(file.as_path(), &allowed) {
            return Err(MediaError::UnsupportedExtension);
        }
        match &language {
            Some(l) => {
                if !valid_language_exec(l.as_str()) {
                    return Err(MediaError::InvalidText);
                }
            },
            None => {},
        }
        Ok(CaptionTrack { file, language })
    }
}

#[derive(Debug, Clone, PartialEq, Eq)]
pub struct MusicTrack {
    pub file: MediaPath,
    pub volume_percent: u8,
}

impl MusicTrack {
    /// An audio file (`mp3`, `wav`, `m4a`, `aac` or `ogg`) mixed at `volume_percent`.
    pub fn new(file: &str, volume_percent: u8) -> (r: Result<MusicTrack, MediaError>)
        ensures
            match r {
                Ok(m) => media_path_check(file@) is Ok && has_extension(file@, music_extensions())
                    && m.file@ == file@ && m.volume_percent == volume_percent,
                Err(e) => e == if media_path_check(file@) is Err {
                    media_path_check(file@)->Err_0
                } else {
                    MediaError::UnsupportedExtension
                } && !(media_path_check(file@) is Ok && has_extension(
                    file@,
                    music_extensions(),
                )),
            },
    {
        let file = match MediaPath::new(file) {
            Ok(p) => p,
            Err(e) => {
                return Err(e);
            },
        };
        let allowed = ["mp3", "wav", "m4a", "aac", "ogg"];
        proof {
            if let Some(e) = path_extension(file@) {
                lemma_in_list(e, music_extensions(), allowed@);
            }
        }
        if !extension_in(file.as_path(), &allowed) {
            return Err(MediaError::UnsupportedExtension);
        }
        Ok(MusicTrack { file, volume_percent })
    }
}

#[derive(Debug, Clone, PartialEq, Eq)]
pub struct FfmpegJobSpec {
    pub input: MediaPath,
    pub output: MediaPath,
    pub captions: Vec<CaptionTrack>,
    pub music: Option<MusicTrack>,
    pub max_duration: Option<Duration>,
}

/// A backslash, colon or quote is preceded by a backslash.
pub open spec fn escape_filter_path(s: Seq<char>) -> Seq<char>
    decreases s.len(),
{
    if s.len() == 0 {
        s
    } else {
        let c = s.last();
        escape_filter_path(s.drop_last()) + if c == '\\' || c == ':' || c == '\'' {
            seq!['\\', c]
        } else {
            seq![c]
        }
    }
}

pub open spec fn subtitle_filter(c: CaptionTrack) -> Seq<char> {
    "subtitles="@ + escape_filter_path(c.file@)
}

/// The subtitle filters of `captions`, joined by commas.
pub open spec fn subtitle_filters(captions: Seq<CaptionTrack>) -> Seq<char>
    decreases captions.len(),
{
    if captions.len() == 0 {
        Seq::empty()
    } else if captions.len() == 1 {
        subtitle_filter(captions[0])
    } else {
        subtitle_filters(captions.drop_last()) + ","@ + subtitle_filter(captions.last())
    }
}

/// `volume=` and the volume as a fraction with two decimals.
pub open spec fn volume_filter(percent: u8) -> Seq<char> {
    "volume="@ + decimal((percent / 100) as nat) + "."@ + decimal_padded((percent % 100) as nat, 2)
}

/// The FFmpeg arguments for a job.
pub open spec fn ffmpeg_args(job: FfmpegJobSpec) -> Seq<Seq<char>> {
    seq!["-hide_banner"@, "-nostdin"@, "-y"@, "-i"@, job.input@] + match job.music {
        Some(m) => seq!["-stream_loop"@, "-1"@, "-i"@, m.file@],
        None => seq![],
    } + if job.captions@.len() > 0 {
        seq!["-vf"@, subtitle_filters(job.captions@)]
    } else {
        seq![]
    } + match job.music {
        Some(m) => seq![
            "-map"@,
            "0:v:0"@,
            "-map"@,
            "1:a:0"@,
            "-af"@,
            volume_filter(m.volume_percent),
            "-shortest"@,
        ],
        None => seq![],
    } + seq!["-c:v"@, "libx264"@, "-c:a"@, "aac"@] + match job.max_duration {
        Some(d) => seq!["-t"@, decimal(d@ / (NANOS_PER_SEC as nat))],
        None => seq![],
    } + seq![job.output@]
}

/// With music, the video stream mapped is the first input's (the job's input) and the audio
/// stream mapped is the music's: each `-map` names, as `<n>:v:0` or `<n>:a:0`, the index `n`
/// of the `-i` that carries the file (the number of `-i` before it).
pub proof fn lemma_music_maps_its_input(job: FfmpegJobSpec)
    requires
        job.music is Some,
        job.input@ != "-i"@,
    ensures
        ({
            let a = ffmpeg_args(job);
            let m = job.music->0;
            &&& exists|p: int, q: int|
                #![trigger a[p], a[q]]
                0 <= p && p + 1 < a.len() && 0 <= q && q + 1 < a.len() && a[p] == "-i"@ && a[p + 1]
                    == job.input@ && a[q] == "-map"@ && a[q + 1] == decimal(arg_count(a.take(p), "-i"@))
                    + ":v:0"@
            &&& exists|p: int, q: int|
                #![trigger a[p], a[q]]
                0 <= p && p + 1 < a.len() && 0 <= q && q + 1 < a.len() && a[p] == "-i"@ && a[p + 1]
                    == m.file@ && a[q] == "-map"@ && a[q + 1] == decimal(arg_count(a.take(p), "-i"@))
                    + ":a:0"@
        }),
{
    reveal_strlit("-hide_banner");
    reveal_strlit("-nostdin");
    reveal_strlit("-y");
    reveal_strlit("-i");
    reveal_strlit("-stream_loop");
    reveal_strlit("-1");
    reveal_strlit("0:v:0");
    reveal_strlit("1:a:0");
    reveal_strlit(":v:0");
    reveal_strlit(":a:0");
    let a = ffmpeg_args(job);
    let m = job.music->0;
    let head = seq!["-hide_banner"@, "-nostdin"@, "-y"@, "-i"@, job.input@];
    let music_in = seq!["-stream_loop"@, "-1"@, "-i"@, m.file@];
    let subs = if job.captions@.len() > 0 {
        seq!["-vf"@, subtitle_filters(job.captions@)]
    } else {
        seq![]
    };
    let maps = seq!["-map"@, "0:v:0"@, "-map"@, "1:a:0"@, "-af"@, volume_filter(m.volume_percent), "-shortest"@];
    let rest = seq!["-c:v"@, "libx264"@, "-c:a"@, "aac"@] + match job.max_duration {
        Some(d) => seq!["-t"@, decimal(d@ / (NANOS_PER_SEC as nat))],
        None => seq![],
    } + seq![job.output@];
    assert(a =~= head + music_in + subs + maps + rest);
    let c = subs.len() as int;
    // The video: input 0 at position 3, mapped at 9 + c.
    assert(a[3] == "-i"@ && a[4] == job.input@);
    let t3 = seq!["-hide_banner"@, "-nostdin"@, "-y"@];
    assert(a.take(3) =~= t3);
    lemma_not_flag("-hide_banner"@);
    lemma_not_flag("-nostdin"@);
    lemma_not_flag("-y"@);
    assert forall|i: int| 0 <= i < t3.len() implies t3[i] != "-i"@ by {
        if i == 0 {
        } else if i == 1 {
        } else {
        }
    }
    lemma_arg_count_none(t3, "-i"@);
    assert(decimal(0) =~= seq!['0']);
    assert(a[9 + c] == "-map"@ && a[10 + c] == "0:v:0"@);
    assert(decimal(arg_count(a.take(3), "-i"@)) + ":v:0"@ =~= "0:v:0"@);
    // The music: input 1 at position 7, mapped at 11 + c.
    assert(a[7] == "-i"@ && a[8] == m.file@);
    let t7 = seq!["-hide_banner"@, "-nostdin"@, "-y"@, "-i"@, job.input@, "-stream_loop"@, "-1"@];
    assert(a.take(7) =~= t3 + seq!["-i"@] + seq![job.input@, "-stream_loop"@, "-1"@]);
    lemma_not_flag("-stream_loop"@);
    lemma_not_flag("-1"@);
    let t4 = seq![job.input@, "-stream_loop"@, "-1"@];
    assert forall|i: int| 0 <= i < t4.len() implies t4[i] != "-i"@ by {
        if i == 0 {
        } else if i == 1 {
        } else {
        }
    }
    lemma_arg_count_none(t4, "-i"@);
    lemma_arg_count_one("-i"@, "-i"@);
    lemma_arg_count_add(t3, seq!["-i"@], "-i"@);
    lemma_arg_count_add(t3 + seq!["-i"@], t4, "-i"@);
    assert(arg_count(a.take(7), "-i"@) == 1);
    assert(decimal(1) =~= seq!['1']);
    assert(a[11 + c] == "-map"@ && a[12 + c] == "1:a:0"@);
    assert(decimal(arg_count(a.take(7), "-i"@)) + ":a:0"@ =~= "1:a:0"@);
}

fn escape_filter(s: &str) -> (r: String)
    ensures
        r@ == escape_filter_path(s@),
{
    let v = chars_of(s);
    let mut r = String::new();
    let mut i: usize = 0;
    while i < v.len()
        invariant
            v@ == s@,
            i <= v.len(),
            r@ == escape_filter_path(s@.take(i as int)),
        decreases v.len() - i,
    {
        let c = v[i];
        if c == '\\' || c == ':' || c == '\'' {
            push_char(&mut r, '\\');
        }
        push_char(&mut r, c);
        proof {
            let t = s@.take(i + 1);
            assert(t.drop_last() =~= s@.take(i as int));
            assert(t.last() == c);
        }
        i = i + 1;
        assert(r@ =~= escape_filter_path(s@.take(i as int)));
    }
    assert(s@.take(v.len() as int) =~= s@);
    r
}

fn push_arg(args: &mut Vec<String>, a: &str)
    ensures
        views(final(args)@) == views(old(args)@).push(a@),
{
    args.push(owned(a));
    assert(views(args@) =~= views(old(args)@).push(a@));
}

fn push_owned(args: &mut Vec<String>, a: String)
    ensures
        views(final(args)@) == views(old(args)@).push(a@),
{
    args.push(a);
    assert(views(args@) =~= views(old(args)@).push(a@));
}

impl FfmpegJobSpec {
    /// A job from a video input (`mp4`, `mov`, `webm`, `mkv`) to a video output (`mp4`,
    /// `webm`, `mkv`).
    pub fn new(input: &str, output: &str) -> (r: Result<FfmpegJobSpec, MediaError>)
        ensures
            match r {
                Ok(j) => j.input@ == input@ && j.output@ == output@ && j.captions@.len() == 0
                    && j.music is None && j.max_duration is None && media_path_check(input@) is Ok
                    && media_path_check(output@) is Ok && has_extension(
                    input@,
                    input_extensions(),
                ) && has_extension(output@, output_extensions()),
                Err(e) => e == if media_path_check(input@) is Err {
                    media_path_check(input@)->Err_0
                } else if media_path_check(output@) is Err {
                    media_path_check(output@)->Err_0
                } else {
                    MediaError::UnsupportedExtension
                } && !(media_path_check(input@) is Ok && media_path_check(output@) is Ok
                    && has_extension(input@, input_extensions()) && has_extension(
                    output@,
                    output_extensions(),
                )),
            },
    {
        let input = match MediaPath::new(input) {
            Ok(p) => p,
            Err(e) => {
                return Err(e);
            },
        };
        let output = match MediaPath::new(output) {
            Ok(p) => p,
            Err(e) => {
                return Err(e);
            },
        };
        let ins = ["mp4", "mov", "webm", "mkv"];
        let outs = ["mp4", "webm", "mkv"];
        proof {
            if let Some(e) = path_extension(input@) {
                lemma_in_list(e, input_extensions(), ins@);
            }
            if let Some(e) = path_extension(output@) {
                lemma_in_list(e, output_extensions(), outs@);
            }
        }
        if !extension_in(input.as_path(), &ins) || !extension_in(output.as_path(), &outs) {
            return Err(MediaError::UnsupportedExtension);
        }
        Ok(FfmpegJobSpec { input, output, captions: Vec::new(), music: None, max_duration: None })
    }

    pub fn with_caption(self, caption: CaptionTrack) -> (r: FfmpegJobSpec)
        ensures
            r == (FfmpegJobSpec { captions: r.captions, ..self }),
            r.captions@ == self.captions@.push(caption),
    {
        let mut job = self;
        job.captions.push(caption);
        job
    }

    pub fn with_music(self, music: MusicTrack) -> (r: FfmpegJobSpec)
        ensures
            r == (FfmpegJobSpec { music: Some(music), ..self }),
    {
        let mut job = self;
        job.music = Some(music);
        job
    }

    /// Limits the output to `duration`, which must be positive and at most a day.
    pub fn max_duration(self, duration: Duration) -> (r: Result<FfmpegJobSpec, MediaError>)
        ensures
            r is Ok <==> duration@ > 0 && duration@ <= secs_nanos(86_400),
            r matches Ok(j) ==> j == (FfmpegJobSpec { max_duration: Some(duration), ..self }),
            r matches Err(e) ==> e == MediaError::InvalidDuration,
    {
        let day = Duration::from_secs(86_400);
        if duration.is_zero() || day.shorter_than(&duration) {
            return Err(MediaError::InvalidDuration);
        }
        let mut job = self;
        job.max_duration = Some(duration);
        Ok(job)
    }

    /// The FFmpeg arguments, each one a separate argument: nothing passes through a shell.
    pub fn command_line(&self) -> (args: Vec<String>)
        ensures
            views(args@) == ffmpeg_args(*self),
    {
        let mut args: Vec<String> = Vec::new();
        push_arg(&mut args, "-hide_banner");
        push_arg(&mut args, "-nostdin");
        push_arg(&mut args, "-y");
        push_arg(&mut args, "-i");
        push_owned(&mut args, self.input.display());
        let ghost a0 = views(args@);
        assert(a0 =~= seq!["-hide_banner"@, "-nostdin"@, "-y"@, "-i"@, self.input@]);
        if let Some(music) = &self.music {
            push_arg(&mut args, "-stream_loop");
        push_arg(&mut args, "-1");
        push_arg(&mut args, "-i");
            push_owned(&mut args, music.file.display());
        }
        let ghost a1 = views(args@);
        assert(a1 =~= a0 + match self.music {
            Some(m) => seq!["-stream_loop"@, "-1"@, "-i"@, m.file@],
            None => seq![],
        });
        if self.captions.len() > 0 {
            push_arg(&mut args, "-vf");
            push_owned(&mut args, self.subtitles());
        }
        let ghost a2 = views(args@);
        assert(a2 =~= a1 + if self.captions@.len() > 0 {
            seq!["-vf"@, subtitle_filters(self.captions@)]
        } else {
            seq![]
        });
        if let Some(music) = &self.music {
            push_arg(&mut args, "-map");
        push_arg(&mut args, "0:v:0");
        push_arg(&mut args, "-map");
        push_arg(&mut args, "1:a:0");
        push_arg(&mut args, "-af");
            let mut vol = owned("volume=");
            push_decimal(&mut vol, (music.volume_percent / 100) as u64);
            push_str(&mut vol, ".");
            push_decimal_padded(&mut vol, (music.volume_percent % 100) as u64, 2);
            push_owned(&mut args, vol);
            push_arg(&mut args, "-shortest");
        }
        let ghost a3 = views(args@);
        assert(a3 =~= a2 + match self.music {
            Some(m) => seq![
                "-map"@,
                "0:v:0"@,
                "-map"@,
                "1:a:0"@,
                "-af"@,
                volume_filter(m.volume_percent),
                "-shortest"@,
            ],
            None => seq![],
        });
        push_arg(&mut args, "-c:v");
        push_arg(&mut args, "libx264");
        push_arg(&mut args, "-c:a");
        push_arg(&mut args, "aac");
        let ghost a4 = views(args@);
        if let Some(duration) = self.max_duration {
            push_arg(&mut args, "-t");
            let mut secs = String::new();
            push_decimal(&mut secs, duration.as_secs());
            push_owned(&mut args, secs);
        }
        let ghost a5 = views(args@);
        assert(a5 =~= a4 + match self.max_duration {
            Some(d) => seq!["-t"@, decimal(d@ / (NANOS_PER_SEC as nat))],
            None => seq![],
        });
        push_owned(&mut args, self.output.display());
        assert(views(args@) =~= a5 + seq![self.output@]);
        args
    }

    fn subtitles(&self) -> (s: String)
        ensures
            s@ == subtitle_filters(self.captions@),
    {
        let mut s = String::new();
        let mut i: usize = 0;
        while i < self.captions.len()
            invariant
                i <= self.captions@.len(),
                s@ == subtitle_filters(self.captions@.take(i as int)),
            decreases self.captions@.len() - i,
        {
            if i > 0 {
                push_str(&mut s, ",");
            }
            push_str(&mut s, "subtitles=");
            let e = escape_filter(self.captions[i].file.as_path());
            push_str(&mut s, e.as_str());
            proof {
                let t = self.captions@.take(i + 1);
                assert(t.drop_last() =~= self.captions@.take(i as int));
                assert(t.last() == self.captions@[i as int]);
                if i == 0 {
                    assert(t.len() == 1);
                }
            }
            i = i + 1;
            assert(s@ =~= subtitle_filters(self.captions@.take(i as int)));
        }
        assert(self.captions@.take(self.captions@.len() as int) =~= self.captions@);
        s
    }
}

} // verus!
